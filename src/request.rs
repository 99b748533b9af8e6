//! Parsing a raw HTTP request into method, path, version, headers and body.
use vstd::prelude::*;
use crate::text::{
    lemma_lower_normal, lemma_trim_trimmed, lemma_trimmed_fixed,
    append_bytes, is_space, lines_from, strip_cr, words_from, bytes_eq, copy_range, find_byte, find_from, lines, lit, lower, lower_bytes,
    split_lines, split_words, trim, trim_bytes, views, words,
};

verus! {

broadcast use vstd::string::group_string_axioms;

#[derive(PartialEq, Eq, Structural, Clone, Copy, Debug)]
pub enum HttpMethod {
    Get,
    Post,
}

/// Why a request could not be parsed.
#[derive(PartialEq, Eq, Structural, Clone, Copy, Debug)]
pub enum ParseError {
    /// The request line has fewer than three whitespace-separated tokens
    /// (or there is no request line at all).
    MalformedRequestLine,
    /// The method token is neither `GET` nor `POST`.
    UnknownMethod,
}

pub open spec fn method_of(w: Seq<u8>) -> Option<HttpMethod> {
    if w == lit("GET") {
        Some(HttpMethod::Get)
    } else if w == lit("POST") {
        Some(HttpMethod::Post)
    } else {
        None
    }
}

impl HttpMethod {
    pub fn from_bytes(w: &[u8]) -> (r: Option<HttpMethod>)
        ensures
            r == method_of(w@),
    {
        let get = "GET";
        let post = "POST";
        proof {
            reveal_strlit("GET");
            reveal_strlit("POST");
            assert(vstd::string::is_ascii(get));
            assert(vstd::string::is_ascii(post));
        }
        if bytes_eq(w, get.as_bytes()) {
            Some(HttpMethod::Get)
        } else if bytes_eq(w, post.as_bytes()) {
            Some(HttpMethod::Post)
        } else {
            None
        }
    }
}

/// A header line `name: value`, split at its first colon; the name is
/// trimmed and lower-cased, the value trimmed. A line without a colon is no header.
pub open spec fn split_header(l: Seq<u8>) -> Option<(Seq<u8>, Seq<u8>)> {
    let c = find_from(l, 58, 0);
    if c < l.len() {
        Some((lower(trim(l.take(c))), trim(l.skip(c + 1))))
    } else {
        None
    }
}

/// The header map of a sequence of name/value pairs: a later pair overrides
/// an earlier one with the same name.
pub open spec fn header_map(ps: Seq<(Seq<u8>, Seq<u8>)>) -> Map<Seq<u8>, Seq<u8>>
    decreases ps.len(),
{
    if ps.len() == 0 {
        Map::empty()
    } else {
        header_map(ps.drop_last()).insert(ps.last().0, ps.last().1)
    }
}

/// Reads the lines after the request line: up to the first blank line each
/// line with a colon is a header; once the blank line is passed, the lines
/// are concatenated into the body. Gives (blank line passed, headers, body).
pub open spec fn scan(ls: Seq<Seq<u8>>) -> (bool, Seq<(Seq<u8>, Seq<u8>)>, Seq<u8>)
    decreases ls.len(),
{
    if ls.len() == 0 {
        (false, seq![], seq![])
    } else {
        let (in_body, hs, body) = scan(ls.drop_last());
        let l = ls.last();
        if in_body {
            (true, hs, body + l)
        } else if l.len() == 0 {
            (true, hs, body)
        } else {
            match split_header(l) {
                Some(h) => (false, hs.push(h), body),
                None => (false, hs, body),
            }
        }
    }
}

/// The tokens of the request line.
pub open spec fn request_tokens(s: Seq<u8>) -> Seq<Seq<u8>> {
    if lines(s).len() == 0 {
        seq![]
    } else {
        words(lines(s)[0])
    }
}

pub open spec fn parse_error_of(s: Seq<u8>) -> Option<ParseError> {
    if request_tokens(s).len() < 3 {
        Some(ParseError::MalformedRequestLine)
    } else if method_of(request_tokens(s)[0]).is_none() {
        Some(ParseError::UnknownMethod)
    } else {
        None
    }
}

/// A token of a request line: non-empty, without whitespace.
pub open spec fn is_token(w: Seq<u8>) -> bool {
    w.len() > 0 && forall|k: int| 0 <= k < w.len() ==> !is_space(#[trigger] w[k])
}

proof fn lemma_lines_run(s: Seq<u8>, i: int, e: int, cur: Seq<u8>, acc: Seq<Seq<u8>>)
    requires
        0 <= i <= e < s.len(),
        s[e] == 10,
        forall|j: int| i <= j < e ==> s[j] != 10,
    ensures
        lines_from(s, i, cur, acc) == lines_from(s, e + 1, seq![], acc.push(strip_cr(cur + s.subrange(i, e)))),
    decreases e - i,
{
    if i < e {
        lemma_lines_run(s, i + 1, e, cur.push(s[i]), acc);
        assert(cur.push(s[i]) + s.subrange(i + 1, e) =~= cur + s.subrange(i, e));
    } else {
        assert(cur + s.subrange(i, e) =~= cur);
    }
}

proof fn lemma_lines_keep(s: Seq<u8>, i: int, cur: Seq<u8>, acc: Seq<Seq<u8>>)
    requires
        0 <= i,
    ensures
        lines_from(s, i, cur, acc).len() >= acc.len(),
        forall|k: int| 0 <= k < acc.len() ==> lines_from(s, i, cur, acc)[k] == acc[k],
    decreases s.len() - i,
{
    if i < s.len() {
        if s[i] == 10 {
            let acc2 = acc.push(strip_cr(cur));
            lemma_lines_keep(s, i + 1, seq![], acc2);
            assert forall|k: int| 0 <= k < acc.len() implies lines_from(s, i, cur, acc)[k] == acc[k] by {
                assert(acc2[k] == acc[k]);
            }
        } else {
            lemma_lines_keep(s, i + 1, cur.push(s[i]), acc);
        }
    } else if cur.len() > 0 {
        assert forall|k: int| 0 <= k < acc.len() implies lines_from(s, i, cur, acc)[k] == acc[k] by {
            assert(acc.push(strip_cr(cur))[k] == acc[k]);
        }
    }
}

proof fn lemma_words_run(s: Seq<u8>, i: int, e: int, cur: Seq<u8>, acc: Seq<Seq<u8>>)
    requires
        0 <= i <= e <= s.len(),
        forall|j: int| i <= j < e ==> !is_space(s[j]),
    ensures
        words_from(s, i, cur, acc) == words_from(s, e, cur + s.subrange(i, e), acc),
    decreases e - i,
{
    if i < e {
        lemma_words_run(s, i + 1, e, cur.push(s[i]), acc);
        assert(cur.push(s[i]) + s.subrange(i + 1, e) =~= cur + s.subrange(i, e));
    } else {
        assert(cur + s.subrange(i, e) =~= cur);
    }
}

/// Every word is non-empty.
proof fn lemma_words_nonempty(s: Seq<u8>, i: int, cur: Seq<u8>, acc: Seq<Seq<u8>>)
    requires
        0 <= i,
        forall|k: int| 0 <= k < acc.len() ==> acc[k].len() > 0,
    ensures
        forall|k: int| 0 <= k < words_from(s, i, cur, acc).len() ==> #[trigger] words_from(s, i, cur, acc)[k].len() > 0,
    decreases s.len() - i,
{
    let acc2 = if cur.len() > 0 { acc.push(cur) } else { acc };
    assert forall|k: int| 0 <= k < acc2.len() implies acc2[k].len() > 0 by {
        if k < acc.len() {
            assert(acc2[k] == acc[k]);
        }
    }
    if i < s.len() {
        if is_space(s[i]) {
            lemma_words_nonempty(s, i + 1, seq![], acc2);
            assert(words_from(s, i, cur, acc) == words_from(s, i + 1, seq![], acc2));
        } else {
            lemma_words_nonempty(s, i + 1, cur.push(s[i]), acc);
            assert(words_from(s, i, cur, acc) == words_from(s, i + 1, cur.push(s[i]), acc));
        }
    } else {
        assert(words_from(s, i, cur, acc) == acc2);
    }
}

/// A request whose first line is `method SP path SP version` parses, and
/// gives back exactly that method, path and version, whatever follows the line.
#[verifier::rlimit(40)]
#[verifier::spinoff_prover]
pub proof fn lemma_request_line_round_trip(m: Seq<u8>, p: Seq<u8>, v: Seq<u8>, rest: Seq<u8>)
    requires
        method_of(m).is_some(),
        is_token(p),
        is_token(v),
    ensures
        ({
            let s = m + seq![32u8] + p + seq![32u8] + v + seq![13u8, 10u8] + rest;
            &&& parse_error_of(s).is_none()
            &&& request_of(s).method == method_of(m).unwrap()
            &&& request_of(s).path == p
            &&& request_of(s).version == v
        }),
{
    reveal_strlit("GET");
    reveal_strlit("POST");
    assert(vstd::string::is_ascii("GET"));
    assert(vstd::string::is_ascii("POST"));
    assert(is_token(m));
    let line = m + seq![32u8] + p + seq![32u8] + v;
    let s = line + seq![13u8, 10u8] + rest;
    assert(s == m + seq![32u8] + p + seq![32u8] + v + seq![13u8, 10u8] + rest);
    let e: int = line.len() as int + 1;
    assert forall|j: int| 0 <= j < e implies s[j] != 10 by {
        if j < m.len() {
            assert(s[j] == m[j]);
        } else if j == m.len() {
        } else if j < m.len() + 1 + p.len() {
            assert(s[j] == p[j - m.len() - 1]);
        } else if j == m.len() + 1 + p.len() {
        } else if j < line.len() {
            assert(s[j] == v[j - m.len() - 2 - p.len()]);
        } else {
            assert(s[j] == 13);
        }
    }
    lemma_lines_run(s, 0, e, seq![], seq![]);
    assert(seq![] + s.subrange(0, e) =~= line.push(13));
    assert(strip_cr(line.push(13)) =~= line);
    assert(seq![].push(strip_cr(seq![] + s.subrange(0, e))) =~= seq![line]);
    lemma_lines_keep(s, e + 1, seq![], seq![line]);
    assert(lines(s) == lines_from(s, e + 1, seq![], seq![line]));
    assert(lines_from(s, e + 1, seq![], seq![line])[0] == seq![line][0]);
    assert(lines(s)[0] == line);

    let a = m.len() as int;
    let b = a + 1 + p.len();
    assert forall|j: int| 0 <= j < a implies !is_space(line[j]) by {
        assert(line[j] == m[j]);
    }
    assert forall|j: int| a + 1 <= j < b implies !is_space(line[j]) by {
        assert(line[j] == p[j - a - 1]);
    }
    assert forall|j: int| b + 1 <= j < line.len() implies !is_space(line[j]) by {
        assert(line[j] == v[j - b - 1]);
    }
    lemma_words_run(line, 0, a, seq![], seq![]);
    assert(seq![] + line.subrange(0, a) =~= m);
    assert(line[a] == 32);
    lemma_words_run(line, a + 1, b, seq![], seq![m]);
    assert(seq![] + line.subrange(a + 1, b) =~= p);
    assert(line[b] == 32);
    lemma_words_run(line, b + 1, line.len() as int, seq![], seq![m, p]);
    assert(seq![] + line.subrange(b + 1, line.len() as int) =~= v);
    assert(seq![m].push(p) =~= seq![m, p]);
    assert(seq![m, p].push(v) =~= seq![m, p, v]);
    assert(request_tokens(s) =~= seq![m, p, v]);
}

/// Line `i` of `ls` is a header line: it comes before the first blank line,
/// and it has a colon.
pub open spec fn is_header_line(ls: Seq<Seq<u8>>, i: int) -> bool {
    &&& 0 <= i < ls.len()
    &&& !scan(ls.take(i)).0
    &&& ls[i].len() > 0
    &&& split_header(ls[i]).is_some()
}

/// The value of a header is that of its last line: where header line `i`
/// names `n` and no later header line names `n` too, `n` maps to the value
/// of line `i`.
pub proof fn lemma_last_header_line_wins(ls: Seq<Seq<u8>>, i: int)
    requires
        is_header_line(ls, i),
        forall|j: int|
            i < j && #[trigger] is_header_line(ls, j) ==> split_header(ls[j]).unwrap().0 != split_header(
                ls[i],
            ).unwrap().0,
    ensures
        header_map(scan(ls).1).contains_key(split_header(ls[i]).unwrap().0),
        header_map(scan(ls).1)[split_header(ls[i]).unwrap().0] == split_header(ls[i]).unwrap().1,
    decreases ls.len(),
{
    let n = split_header(ls[i]).unwrap().0;
    let last = ls.len() - 1;
    let prev = ls.drop_last();
    let (in_body, hs, body) = scan(prev);
    let l = ls.last();
    assert(ls.drop_last() == prev);
    if !in_body && l.len() > 0 && split_header(l).is_some() {
        let h = split_header(l).unwrap();
        assert(scan(ls).1 == hs.push(h));
        assert(hs.push(h).drop_last() =~= hs);
        assert(header_map(scan(ls).1) == header_map(hs).insert(h.0, h.1));
    } else {
        assert(scan(ls).1 == hs);
    }
    if i == last {
        assert(prev =~= ls.take(i));
    } else {
        assert(prev.take(i) =~= ls.take(i));
        assert forall|j: int| i < j && #[trigger] is_header_line(prev, j) implies split_header(prev[j]).unwrap().0 != n by {
            assert(prev.take(j) =~= ls.take(j));
            assert(is_header_line(ls, j));
        }
        lemma_last_header_line_wins(prev, i);
        if !in_body && l.len() > 0 && split_header(l).is_some() {
            assert(prev =~= ls.take(last));
            assert(is_header_line(ls, last));
        }
    }
}

/// In a parsed request, a header takes the value of its last line in the
/// header block.
pub proof fn lemma_request_header_value(s: Seq<u8>, i: int)
    requires
        parse_error_of(s).is_none(),
        is_header_line(lines(s).drop_first(), i),
        forall|j: int|
            i < j && #[trigger] is_header_line(lines(s).drop_first(), j) ==> split_header(
                lines(s).drop_first()[j],
            ).unwrap().0 != split_header(lines(s).drop_first()[i]).unwrap().0,
    ensures
        ({
            let (n, v) = split_header(lines(s).drop_first()[i]).unwrap();
            request_of(s).headers.contains_key(n) && request_of(s).headers[n] == v
        }),
{
    lemma_last_header_line_wins(lines(s).drop_first(), i);
}

/// A header line gives a lower-case name and a value, both without
/// whitespace at either end.
pub proof fn lemma_header_line_normal(l: Seq<u8>)
    requires
        split_header(l).is_some(),
    ensures
        ({
            let (n, v) = split_header(l).unwrap();
            &&& lower(n) == n
            &&& trim(n) == n
            &&& trim(v) == v
        }),
{
    let c = find_from(l, 58, 0);
    let t = trim(l.take(c));
    lemma_trim_trimmed(l.take(c));
    lemma_trim_trimmed(l.skip(c + 1));
    lemma_lower_normal(t);
    lemma_trimmed_fixed(lower(t));
}

/// Every header name in the map is lower-case and has no whitespace at
/// either end, and so is every value trimmed.
pub proof fn lemma_header_names_normal(ls: Seq<Seq<u8>>)
    ensures
        forall|n: Seq<u8>| #[trigger] header_map(scan(ls).1).contains_key(n) ==> {
            &&& lower(n) == n
            &&& trim(n) == n
            &&& trim(header_map(scan(ls).1)[n]) == header_map(scan(ls).1)[n]
        },
    decreases ls.len(),
{
    if ls.len() > 0 {
        let prev = ls.drop_last();
        lemma_header_names_normal(prev);
        let (in_body, hs, body) = scan(prev);
        let l = ls.last();
        if !in_body && l.len() > 0 && split_header(l).is_some() {
            let h = split_header(l).unwrap();
            lemma_header_line_normal(l);
            assert(scan(ls).1 == hs.push(h));
            assert(hs.push(h).drop_last() =~= hs);
            assert(header_map(scan(ls).1) == header_map(hs).insert(h.0, h.1));
        } else {
            assert(scan(ls).1 == hs);
        }
    }
}

/// The header names of a parsed request are lower-case and trimmed, and its
/// header values trimmed.
pub proof fn lemma_request_header_names_normal(s: Seq<u8>)
    requires
        parse_error_of(s).is_none(),
    ensures
        forall|n: Seq<u8>| #[trigger] request_of(s).headers.contains_key(n) ==> {
            &&& lower(n) == n
            &&& trim(n) == n
            &&& trim(request_of(s).headers[n]) == request_of(s).headers[n]
        },
{
    lemma_header_names_normal(lines(s).drop_first());
}

/// What a request is, as values.
pub struct RequestView {
    pub method: HttpMethod,
    pub path: Seq<u8>,
    pub version: Seq<u8>,
    pub headers: Map<Seq<u8>, Seq<u8>>,
    pub body: Seq<u8>,
}

/// The request that the bytes `s` hold, where `parse_error_of(s)` is `None`.
pub open spec fn request_of(s: Seq<u8>) -> RequestView {
    let t = request_tokens(s);
    let method = method_of(t[0]).unwrap();
    let (_, hs, body) = scan(lines(s).drop_first());
    RequestView {
        method,
        path: t[1],
        version: t[2],
        headers: header_map(hs),
        body: if method == HttpMethod::Post { body } else { seq![] },
    }
}

pub open spec fn pair_views(ps: Seq<(Vec<u8>, Vec<u8>)>) -> Seq<(Seq<u8>, Seq<u8>)> {
    ps.map_values(|p: (Vec<u8>, Vec<u8>)| (p.0@, p.1@))
}

pub struct HttpRequest {
    pub method: HttpMethod,
    pub path: Vec<u8>,
    pub version: Vec<u8>,
    /// Every header line in the order received; see `header` for lookup.
    pub headers: Vec<(Vec<u8>, Vec<u8>)>,
    pub body: Vec<u8>,
}

impl View for HttpRequest {
    type V = RequestView;

    open spec fn view(&self) -> RequestView {
        RequestView {
            method: self.method,
            path: self.path@,
            version: self.version@,
            headers: header_map(pair_views(self.headers@)),
            body: self.body@,
        }
    }
}

fn split_header_line(l: &[u8]) -> (r: Option<(Vec<u8>, Vec<u8>)>)
    ensures
        match r {
            Some(p) => split_header(l@) == Some((p.0@, p.1@)),
            None => split_header(l@).is_none(),
        },
{
    let c = find_byte(l, 58, 0);
    if c < l.len() {
        let name = copy_range(l, 0, c);
        let value = copy_range(l, c + 1, l.len());
        assert(name@ =~= l@.take(c as int));
        assert(value@ =~= l@.skip(c + 1));
        let name = lower_bytes(&trim_bytes(&name));
        let value = trim_bytes(&value);
        Some((name, value))
    } else {
        None
    }
}

impl HttpRequest {
    /// Parses one request. Lines end in a line feed, optionally preceded by
    /// a carriage return.
    pub fn parse(s: &[u8]) -> (r: Result<HttpRequest, ParseError>)
        ensures
            match r {
                Ok(q) => {
                    &&& parse_error_of(s@).is_none()
                    &&& q@ == request_of(s@)
                    &&& q@.path.len() > 0
                    &&& q@.version.len() > 0
                },
                Err(e) => parse_error_of(s@) == Some(e),
            },
    {
        let ls = split_lines(s);
        if ls.len() == 0 {
            return Err(ParseError::MalformedRequestLine);
        }
        let ws = split_words(&ls[0]);
        assert(views(ls@)[0] == ls@[0]@);
        proof {
            lemma_words_nonempty(ls@[0]@, 0, seq![], seq![]);
        }
        if ws.len() < 3 {
            return Err(ParseError::MalformedRequestLine);
        }
        assert(views(ws@)[0] == ws@[0]@);
        assert(views(ws@)[1] == ws@[1]@);
        assert(views(ws@)[2] == ws@[2]@);
        let method = match HttpMethod::from_bytes(&ws[0]) {
            Some(m) => m,
            None => {
                return Err(ParseError::UnknownMethod);
            },
        };
        let path = copy_range(&ws[1], 0, ws[1].len());
        let version = copy_range(&ws[2], 0, ws[2].len());
        assert(path@ =~= ws@[1]@);
        assert(version@ =~= ws@[2]@);

        let ghost rest = views(ls@).drop_first();
        let mut in_body = false;
        let mut headers: Vec<(Vec<u8>, Vec<u8>)> = Vec::new();
        let mut body: Vec<u8> = Vec::new();
        let mut j: usize = 1;
        assert(rest.subrange(0, 0) =~= Seq::<Seq<u8>>::empty());
        assert(pair_views(headers@) =~= Seq::<(Seq<u8>, Seq<u8>)>::empty());
        while j < ls.len()
            invariant
                1 <= j <= ls@.len(),
                rest == views(ls@).drop_first(),
                (in_body, pair_views(headers@), body@) == scan(rest.subrange(0, j - 1)),
            decreases ls.len() - j,
        {
            let line = &ls[j];
            let ghost before = pair_views(headers@);
            assert(rest.subrange(0, j as int).drop_last() =~= rest.subrange(0, j - 1));
            assert(rest.subrange(0, j as int).last() == line@);
            if in_body {
                append_bytes(&mut body, line);
            } else if line.len() == 0 {
                in_body = true;
            } else {
                match split_header_line(line) {
                    Some(p) => {
                        let ghost pv = (p.0@, p.1@);
                        headers.push(p);
                        assert(pair_views(headers@) =~= before.push(pv));
                    },
                    None => {},
                }
            }
            j = j + 1;
        }
        assert(rest.subrange(0, ls@.len() - 1) =~= rest);
        let body = match method {
            HttpMethod::Post => body,
            HttpMethod::Get => Vec::new(),
        };
        assert(method == HttpMethod::Get ==> body@ =~= Seq::<u8>::empty());
        Ok(HttpRequest { method, path, version, headers, body })
    }

    /// The value of the header `name` (lower case), if the request has it.
    pub fn header(&self, name: &[u8]) -> (r: Option<&Vec<u8>>)
        ensures
            match r {
                Some(v) => self@.headers.contains_key(name@) && v@ == self@.headers[name@],
                None => !self@.headers.contains_key(name@),
            },
    {
        let ghost ps = pair_views(self.headers@);
        let mut i: usize = self.headers.len();
        assert(ps.take(i as int) =~= ps);
        while i > 0
            invariant
                i <= self.headers@.len(),
                ps == pair_views(self.headers@),
                header_map(ps).contains_key(name@) == header_map(ps.take(i as int)).contains_key(name@),
                header_map(ps).contains_key(name@) ==> header_map(ps)[name@] == header_map(ps.take(i as int))[name@],
            decreases i,
        {
            let p = &self.headers[i - 1];
            assert(ps.take(i as int).drop_last() =~= ps.take(i - 1));
            assert(ps.take(i as int).last() == (p.0@, p.1@));
            if bytes_eq(&p.0, name) {
                return Some(&p.1);
            }
            i = i - 1;
        }
        None
    }
}

} // verus!
