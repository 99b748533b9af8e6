//! Dispatch of a parsed request by path and method. File reads and writes
//! are handed back to the caller as actions; their outcomes come back in to
//! be turned into responses.
use vstd::prelude::*;
use crate::request::{HttpMethod, HttpRequest, RequestView, parse_error_of, request_of};
use crate::response::{no_line_break, HttpResponse, HttpStatusCode, ResponseView};
use crate::text::{bytes_eq, copy_range, find_byte, find_from, lemma_find_from_bounds, lit};

verus! {

/// What a request asks of the server, as values.
pub enum ActionView {
    Reply(ResponseView),
    ReadFile(Seq<u8>),
    WriteFile(Seq<u8>, Seq<u8>),
}

/// What to do for a request: send a response, or first read or write a file
/// of the store (by its name under the store's root).
pub enum Action {
    Reply(HttpResponse),
    ReadFile(Vec<u8>),
    WriteFile(Vec<u8>, Vec<u8>),
}

impl View for Action {
    type V = ActionView;

    open spec fn view(&self) -> ActionView {
        match self {
            Action::Reply(r) => ActionView::Reply(r@),
            Action::ReadFile(n) => ActionView::ReadFile(n@),
            Action::WriteFile(n, b) => ActionView::WriteFile(n@, b@),
        }
    }
}

/// What reading a file of the store gave.
pub enum FileRead {
    Found(Vec<u8>),
    Absent,
    Failed,
}

pub open spec fn reply(status: HttpStatusCode, content_type: Seq<u8>, body: Seq<u8>) -> ActionView {
    ActionView::Reply(ResponseView { status, content_type, body })
}

pub open spec fn empty_reply(status: HttpStatusCode) -> ActionView {
    reply(status, seq![], seq![])
}

/// The second segment of a path that starts with `/`.
pub open spec fn first_segment(p: Seq<u8>) -> Seq<u8> {
    let rest = p.drop_first();
    rest.take(find_from(rest, 47, 0))
}

/// The segments of the path after the second, rejoined with `/`.
pub open spec fn remainder(p: Seq<u8>) -> Seq<u8> {
    let rest = p.drop_first();
    let k = find_from(rest, 47, 0);
    if k < rest.len() {
        rest.skip(k + 1)
    } else {
        seq![]
    }
}

/// A `..` segment of `n` starts at `k`.
pub open spec fn parent_segment_at(n: Seq<u8>, k: int) -> bool {
    &&& 0 <= k
    &&& k + 2 <= n.len()
    &&& n[k] == 46 && n[k + 1] == 46
    &&& k == 0 || n[k - 1] == 47
    &&& k + 2 == n.len() || n[k + 2] == 47
}

/// A file name that stays under the store's root: not empty, not absolute,
/// and with no `..` segment.
pub open spec fn safe_name(n: Seq<u8>) -> bool {
    &&& n.len() > 0
    &&& n[0] != 47
    &&& forall|k: int| !parent_segment_at(n, k)
}

/// The routing table.
pub open spec fn route_of(q: RequestView) -> ActionView {
    let p = q.path;
    if p.len() == 0 || p[0] != 47 {
        empty_reply(HttpStatusCode::NotFound)
    } else {
        let seg = first_segment(p);
        let tail = remainder(p);
        if seg.len() == 0 {
            empty_reply(HttpStatusCode::Okay)
        } else if seg == lit("echo") && q.method == HttpMethod::Get {
            reply(HttpStatusCode::Okay, lit("text/plain"), tail)
        } else if seg == lit("user-agent") && q.method == HttpMethod::Get {
            if q.headers.contains_key(lit("user-agent")) {
                reply(HttpStatusCode::Okay, lit("text/plain"), q.headers[lit("user-agent")])
            } else {
                empty_reply(HttpStatusCode::BadRequest)
            }
        } else if seg == lit("files") {
            if !safe_name(tail) {
                empty_reply(HttpStatusCode::BadRequest)
            } else if q.method == HttpMethod::Get {
                ActionView::ReadFile(tail)
            } else {
                ActionView::WriteFile(tail, q.body)
            }
        } else {
            empty_reply(HttpStatusCode::NotFound)
        }
    }
}

/// A path that names none of the routes gets 404 with an empty body, for
/// either method: a path not starting with `/`, or one whose second segment is
/// neither empty nor `echo`, `user-agent` or `files`.
pub proof fn lemma_unmatched_path_not_found(q: RequestView)
    requires
        q.path.len() == 0 || q.path[0] != 47 || {
            let seg = first_segment(q.path);
            &&& seg.len() > 0
            &&& seg != lit("echo")
            &&& seg != lit("user-agent")
            &&& seg != lit("files")
        },
    ensures
        route_of(q) == empty_reply(HttpStatusCode::NotFound),
{
}

/// What the server does for the bytes `raw`: a request that does not parse
/// gets a 500.
pub open spec fn respond_of(raw: Seq<u8>) -> ActionView {
    if parse_error_of(raw).is_some() {
        empty_reply(HttpStatusCode::InternalServerError)
    } else {
        route_of(request_of(raw))
    }
}

pub open spec fn read_reply_of(found: Option<Seq<u8>>, failed: bool) -> ResponseView {
    if failed {
        ResponseView { status: HttpStatusCode::InternalServerError, content_type: seq![], body: seq![] }
    } else {
        match found {
            Some(b) => ResponseView {
                status: HttpStatusCode::Okay,
                content_type: lit("application/octet-stream"),
                body: b,
            },
            None => ResponseView { status: HttpStatusCode::NotFound, content_type: seq![], body: seq![] },
        }
    }
}

fn empty_response(status: HttpStatusCode) -> (r: HttpResponse)
    ensures
        r@ == (ResponseView { status, content_type: seq![], body: seq![] }),
{
    let r = HttpResponse { status, content_type: Vec::new(), body: Vec::new() };
    assert(r@.content_type =~= Seq::<u8>::empty());
    assert(r@.body =~= Seq::<u8>::empty());
    r
}

fn literal_bytes(s: &str) -> (r: Vec<u8>)
    ensures
        r@ == lit(s),
{
    let b = s.as_bytes();
    copy_range(b, 0, b.len())
}

fn text_plain() -> (r: Vec<u8>)
    ensures
        r@ == lit("text/plain"),
        r@.len() > 0,
        no_line_break(r@),
{
    proof {
        reveal_strlit("text/plain");
        assert(vstd::string::is_ascii("text/plain"));
        assert(lit("text/plain") == seq![116u8, 101, 120, 116, 47, 112, 108, 97, 105, 110]);
    }
    literal_bytes("text/plain")
}

fn octet_stream() -> (r: Vec<u8>)
    ensures
        r@ == lit("application/octet-stream"),
        r@.len() > 0,
        no_line_break(r@),
{
    proof {
        reveal_strlit("application/octet-stream");
        assert(vstd::string::is_ascii("application/octet-stream"));
        assert(lit("application/octet-stream") == seq![
            97u8, 112, 112, 108, 105, 99, 97, 116, 105, 111, 110, 47,
            111, 99, 116, 101, 116, 45, 115, 116, 114, 101, 97, 109,
        ]);
    }
    literal_bytes("application/octet-stream")
}

/// Whether `n` is a safe file name for the store.
pub fn is_safe_name(n: &[u8]) -> (r: bool)
    ensures
        r == safe_name(n@),
{
    if n.len() == 0 || n[0] == 47 {
        return false;
    }
    let mut k: usize = 0;
    while k < n.len() && n.len() - k >= 2
        invariant
            n@.len() > 0,
            k <= n@.len(),
            forall|j: int| 0 <= j < k ==> !parent_segment_at(n@, j),
        decreases n.len() - k,
    {
        if n[k] == 46 && n[k + 1] == 46 && (k == 0 || n[k - 1] == 47) && (k + 2 == n.len()
            || n[k + 2] == 47) {
            assert(parent_segment_at(n@, k as int));
            return false;
        }
        k = k + 1;
    }
    true
}

/// Routes a parsed request.
pub fn route(q: &HttpRequest) -> (r: Action)
    ensures
        r@ == route_of(q@),
        match r@ {
            ActionView::Reply(v) => v.wf(),
            _ => true,
        },
{
    let p = &q.path;
    if p.len() == 0 || p[0] != 47 {
        return Action::Reply(empty_response(HttpStatusCode::NotFound));
    }
    let rest = copy_range(p, 1, p.len());
    assert(rest@ =~= p@.drop_first());
    let k = find_byte(&rest, 47, 0);
    proof {
        lemma_find_from_bounds(rest@, 47, 0);
    }
    let seg = copy_range(&rest, 0, k);
    let tail = if k < rest.len() {
        copy_range(&rest, k + 1, rest.len())
    } else {
        Vec::new()
    };
    assert(seg@ =~= first_segment(p@));
    assert(tail@ =~= remainder(p@));
    if seg.len() == 0 {
        Action::Reply(empty_response(HttpStatusCode::Okay))
    } else if bytes_eq(&seg, "echo".as_bytes()) && q.method == HttpMethod::Get {
        Action::Reply(HttpResponse { status: HttpStatusCode::Okay, content_type: text_plain(), body: tail })
    } else if bytes_eq(&seg, "user-agent".as_bytes()) && q.method == HttpMethod::Get {
        match q.header("user-agent".as_bytes()) {
            Some(v) => {
                let body = copy_range(v, 0, v.len());
                assert(body@ =~= v@);
                Action::Reply(HttpResponse { status: HttpStatusCode::Okay, content_type: text_plain(), body })
            },
            None => Action::Reply(empty_response(HttpStatusCode::BadRequest)),
        }
    } else if bytes_eq(&seg, "files".as_bytes()) {
        if !is_safe_name(&tail) {
            Action::Reply(empty_response(HttpStatusCode::BadRequest))
        } else if q.method == HttpMethod::Get {
            Action::ReadFile(tail)
        } else {
            let body = copy_range(&q.body, 0, q.body.len());
            assert(body@ =~= q.body@);
            Action::WriteFile(tail, body)
        }
    } else {
        Action::Reply(empty_response(HttpStatusCode::NotFound))
    }
}

/// Parses and routes the bytes of one request.
pub fn respond_to(raw: &[u8]) -> (r: Action)
    ensures
        r@ == respond_of(raw@),
        match r@ {
            ActionView::Reply(v) => v.wf(),
            _ => true,
        },
{
    match HttpRequest::parse(raw) {
        Ok(q) => route(&q),
        Err(_) => Action::Reply(empty_response(HttpStatusCode::InternalServerError)),
    }
}

/// The response for what reading a file gave: its bytes, 404 when it is
/// absent, 500 on any other failure.
pub fn read_reply(outcome: FileRead) -> (r: HttpResponse)
    ensures
        r@ == match outcome {
            FileRead::Found(b) => read_reply_of(Some(b@), false),
            FileRead::Absent => read_reply_of(None, false),
            FileRead::Failed => read_reply_of(None, true),
        },
        r@.wf(),
{
    match outcome {
        FileRead::Found(b) => {
            HttpResponse {
                status: HttpStatusCode::Okay,
                content_type: octet_stream(),
                body: b,
            }
        },
        FileRead::Absent => empty_response(HttpStatusCode::NotFound),
        FileRead::Failed => empty_response(HttpStatusCode::InternalServerError),
    }
}

/// The response for a write of the store: 201 when it succeeded, else 500.
pub fn write_reply(written: bool) -> (r: HttpResponse)
    ensures
        r@ == (ResponseView {
            status: if written { HttpStatusCode::Created } else { HttpStatusCode::InternalServerError },
            content_type: seq![],
            body: seq![],
        }),
        r@.wf(),
{
    if written {
        empty_response(HttpStatusCode::Created)
    } else {
        empty_response(HttpStatusCode::InternalServerError)
    }
}

} // verus!
