//! Responses and their serialisation with exact content framing.
use vstd::prelude::*;
use vstd::string::StringSliceAdditionalSpecFns;
use crate::text::{append_bytes, decimal, decimal_value, lemma_decimal_value, lit, push_decimal};

verus! {

#[derive(PartialEq, Eq, Structural, Clone, Copy, Debug)]
pub enum HttpStatusCode {
    Okay,
    Created,
    BadRequest,
    NotFound,
    InternalServerError,
}

pub open spec fn status_code(s: HttpStatusCode) -> u16 {
    match s {
        HttpStatusCode::Okay => 200,
        HttpStatusCode::Created => 201,
        HttpStatusCode::BadRequest => 400,
        HttpStatusCode::NotFound => 404,
        HttpStatusCode::InternalServerError => 500,
    }
}

/// The code and reason phrase that the status line carries.
pub open spec fn status_text(s: HttpStatusCode) -> Seq<u8> {
    match s {
        HttpStatusCode::Okay => lit("200 OK"),
        HttpStatusCode::Created => lit("201 NO CONTENT"),
        HttpStatusCode::BadRequest => lit("400 BAD REQUEST"),
        HttpStatusCode::NotFound => lit("404 NOT FOUND"),
        HttpStatusCode::InternalServerError => lit("500 INTERNAL SERVER ERROR"),
    }
}

impl HttpStatusCode {
    pub fn code(&self) -> (r: u16)
        ensures
            r == status_code(*self),
    {
        match self {
            HttpStatusCode::Okay => 200,
            HttpStatusCode::Created => 201,
            HttpStatusCode::BadRequest => 400,
            HttpStatusCode::NotFound => 404,
            HttpStatusCode::InternalServerError => 500,
        }
    }

    pub fn text(&self) -> (r: &'static str)
        ensures
            r.spec_bytes() == status_text(*self),
    {
        match self {
            HttpStatusCode::Okay => "200 OK",
            HttpStatusCode::Created => "201 NO CONTENT",
            HttpStatusCode::BadRequest => "400 BAD REQUEST",
            HttpStatusCode::NotFound => "404 NOT FOUND",
            HttpStatusCode::InternalServerError => "500 INTERNAL SERVER ERROR",
        }
    }
}

pub open spec fn crlf() -> Seq<u8> {
    lit("\r\n")
}

/// Everything before the Content-Length digits of a response with a body.
pub open spec fn head_before_length(status: HttpStatusCode, content_type: Seq<u8>) -> Seq<u8> {
    lit("HTTP/1.1 ") + status_text(status) + crlf() + lit("Content-Type: ") + content_type + crlf()
        + lit("Content-Length: ")
}

/// The serialised response: the status line, then, for a non-empty body, the
/// Content-Type and Content-Length headers, a blank line and the body; for an
/// empty body two more line terminators and nothing else.
pub open spec fn response_bytes(status: HttpStatusCode, content_type: Seq<u8>, body: Seq<u8>) -> Seq<u8> {
    if body.len() > 0 {
        head_before_length(status, content_type) + decimal(body.len()) + crlf() + crlf() + body
    } else {
        lit("HTTP/1.1 ") + status_text(status) + crlf() + crlf() + crlf()
    }
}

/// No carriage return or line feed in `s`.
pub open spec fn no_line_break(s: Seq<u8>) -> bool {
    forall|k: int| 0 <= k < s.len() ==> s[k] != 10 && s[k] != 13
}

/// A body comes with a content type that fits on its header line.
pub open spec fn framable(content_type: Seq<u8>, body: Seq<u8>) -> bool {
    body.len() > 0 ==> content_type.len() > 0 && no_line_break(content_type)
}

/// Serialises a response. Content-Length counts the bytes of `content`.
pub fn create_response(status: HttpStatusCode, content_type: &[u8], content: &[u8]) -> (r: Vec<u8>)
    requires
        framable(content_type@, content@),
    ensures
        r@ == response_bytes(status, content_type@, content@),
{
    let mut out: Vec<u8> = Vec::new();
    append_bytes(&mut out, "HTTP/1.1 ".as_bytes());
    append_bytes(&mut out, status.text().as_bytes());
    append_bytes(&mut out, "\r\n".as_bytes());
    if content.len() > 0 {
        append_bytes(&mut out, "Content-Type: ".as_bytes());
        append_bytes(&mut out, content_type);
        append_bytes(&mut out, "\r\n".as_bytes());
        append_bytes(&mut out, "Content-Length: ".as_bytes());
        push_decimal(&mut out, content.len());
        append_bytes(&mut out, "\r\n".as_bytes());
        append_bytes(&mut out, "\r\n".as_bytes());
        append_bytes(&mut out, content);
    } else {
        append_bytes(&mut out, "\r\n".as_bytes());
        append_bytes(&mut out, "\r\n".as_bytes());
    }
    assert(out@ =~= response_bytes(status, content_type@, content@));
    out
}

/// A response as values.
pub struct ResponseView {
    pub status: HttpStatusCode,
    pub content_type: Seq<u8>,
    pub body: Seq<u8>,
}

/// A response built by a handler. An empty `content_type` stands for none.
pub struct HttpResponse {
    pub status: HttpStatusCode,
    pub content_type: Vec<u8>,
    pub body: Vec<u8>,
}

impl View for HttpResponse {
    type V = ResponseView;

    open spec fn view(&self) -> ResponseView {
        ResponseView { status: self.status, content_type: self.content_type@, body: self.body@ }
    }
}

impl ResponseView {
    /// A body always comes with a content type without line breaks.
    pub open spec fn wf(self) -> bool {
        framable(self.content_type, self.body)
    }
}

impl HttpResponse {
    pub fn is_well_formed(&self) -> (r: bool)
        ensures
            r == self@.wf(),
    {
        if self.body.len() == 0 {
            return true;
        }
        if self.content_type.len() == 0 {
            return false;
        }
        let mut i: usize = 0;
        while i < self.content_type.len()
            invariant
                self.body@.len() > 0,
                self.content_type@.len() > 0,
                i <= self.content_type@.len(),
                forall|k: int| 0 <= k < i ==> self.content_type@[k] != 10 && self.content_type@[k] != 13,
            decreases self.content_type.len() - i,
        {
            let c = self.content_type[i];
            if c == 10 || c == 13 {
                assert(self.content_type@[i as int] == c);
                assert(!no_line_break(self.content_type@));
                return false;
            }
            i = i + 1;
        }
        true
    }

    pub fn to_bytes(&self) -> (r: Vec<u8>)
        requires
            self@.wf(),
        ensures
            r@ == response_bytes(self.status, self.content_type@, self.body@),
    {
        create_response(self.status, &self.content_type, &self.body)
    }
}

/// The Content-Length header of a serialised response with a body denotes
/// exactly the number of bytes of that body, which ends the response; a
/// response without a body ends right after its status line and two more line
/// terminators, with no header.
pub proof fn lemma_content_length_matches_body(status: HttpStatusCode, content_type: Seq<u8>, body: Seq<u8>)
    ensures
        ({
            let r = response_bytes(status, content_type, body);
            if body.len() > 0 {
                let d = decimal(body.len());
                &&& r == head_before_length(status, content_type) + d + crlf() + crlf() + body
                &&& decimal_value(d) == body.len()
                &&& r.skip(r.len() - body.len()) == body
            } else {
                r == lit("HTTP/1.1 ") + status_text(status) + crlf() + crlf() + crlf()
            }
        }),
{
    if body.len() > 0 {
        lemma_decimal_value(body.len());
        let r = response_bytes(status, content_type, body);
        assert(r.skip(r.len() - body.len()) =~= body);
    }
}

} // verus!
