//! Responses and their wire format.

use crate::text::{
    announced, ascii, decimal_digits, lemma_decimal_round_trip, literal, push_all, push_decimal,
};
use vstd::prelude::*;
use vstd::utf8::encode_utf8;

verus! {

/// The content types that a response can announce.
#[derive(PartialEq, Eq, Debug, Clone, Copy, Structural)]
pub enum ContentType {
    /// `text/plain`.
    TextPlain,
    /// `application/octet-stream`.
    ApplicationOctetStream,
    /// No content type: the header is left out.
    Absent,
}

impl ContentType {
    /// The name of the content type, empty for `Absent`.
    pub open spec fn name(self) -> Seq<char> {
        match self {
            ContentType::TextPlain => "text/plain"@,
            ContentType::ApplicationOctetStream => "application/octet-stream"@,
            ContentType::Absent => ""@,
        }
    }

    /// The name as it stands in a header line.
    pub open spec fn wire_name(self) -> Seq<u8> {
        match self {
            ContentType::TextPlain => ascii("text/plain"),
            ContentType::ApplicationOctetStream => ascii("application/octet-stream"),
            ContentType::Absent => ascii(""),
        }
    }

    /// The name of the content type, empty for `Absent`.
    pub fn as_str(&self) -> (r: &'static str)
        ensures
            r@ == self.name(),
            ascii(r) == self.wire_name(),
            r.is_ascii(),
    {
        proof {
            reveal_strlit("text/plain");
            reveal_strlit("application/octet-stream");
            reveal_strlit("");
        }
        match self {
            ContentType::TextPlain => "text/plain",
            ContentType::ApplicationOctetStream => "application/octet-stream",
            ContentType::Absent => "",
        }
    }

    /// The name of the content type as an owned string.
    pub fn to_string(&self) -> (r: String)
        ensures
            r@ == self.name(),
    {
        self.as_str().to_owned()
    }
}

/// The fields of a response, as mathematical values.
pub struct ResponseView {
    pub status: nat,
    pub reason: Seq<char>,
    pub content_type: ContentType,
    pub body: Seq<u8>,
}

/// The status line: the protocol version, the status code in decimal, the
/// reason phrase in UTF-8, and a line break.
pub open spec fn status_line(v: ResponseView) -> Seq<u8> {
    ascii("HTTP/1.1 ") + decimal_digits(v.status) + ascii(" ") + encode_utf8(v.reason) + ascii(
        "\r\n",
    )
}

/// The `Content-Type` line, present unless the content type is `Absent`.
pub open spec fn content_type_line(v: ResponseView) -> Seq<u8> {
    if v.content_type != ContentType::Absent {
        ascii("Content-Type: ") + v.content_type.wire_name() + ascii("\r\n")
    } else {
        Seq::empty()
    }
}

/// The `Content-Length` line, present unless the body is empty: it gives
/// the number of bytes of the body in decimal.
pub open spec fn content_length_line(v: ResponseView) -> Seq<u8> {
    if v.body.len() > 0 {
        ascii("Content-Length: ") + decimal_digits(v.body.len()) + ascii("\r\n")
    } else {
        Seq::empty()
    }
}

/// The bytes of a response on the wire: the status line, the two optional
/// header lines, a blank line, and the body as it is.
pub open spec fn wire(v: ResponseView) -> Seq<u8> {
    status_line(v) + content_type_line(v) + content_length_line(v) + ascii("\r\n") + v.body
}

/// The length that a response announces is the length of the body behind
/// the blank line, and the body is the end of the message.
pub proof fn lemma_announced_length(v: ResponseView)
    ensures
        v.body.len() > 0 ==> content_length_line(v) == ascii("Content-Length: ") + decimal_digits(
            v.body.len(),
        ) + ascii("\r\n"),
        announced(decimal_digits(v.body.len())) == v.body.len(),
        wire(v).len() >= v.body.len(),
        wire(v).skip(wire(v).len() - v.body.len()) == v.body,
{
    lemma_decimal_round_trip(v.body.len());
    let head = status_line(v) + content_type_line(v) + content_length_line(v) + ascii("\r\n");
    assert(wire(v).skip(head.len() as int) =~= v.body);
}

/// A response.
#[derive(Debug, PartialEq, Eq)]
pub struct HttpResponse {
    code: usize,
    message: String,
    content_type: ContentType,
    content: Vec<u8>,
}

impl View for HttpResponse {
    type V = ResponseView;

    closed spec fn view(&self) -> ResponseView {
        ResponseView {
            status: self.code as nat,
            reason: self.message@,
            content_type: self.content_type,
            body: self.content@,
        }
    }
}

impl HttpResponse {
    /// A response with the given fields.
    pub fn new(code: usize, message: String, content_type: ContentType, content: Vec<u8>) -> (r:
        HttpResponse)
        ensures
            r@ == (ResponseView {
                status: code as nat,
                reason: message@,
                content_type,
                body: content@,
            }),
    {
        HttpResponse { code, message, content_type, content }
    }

    /// `200 OK` without content type or body.
    pub fn make_200() -> (r: HttpResponse)
        ensures
            r@ == (ResponseView {
                status: 200,
                reason: "OK"@,
                content_type: ContentType::Absent,
                body: Seq::empty(),
            }),
    {
        HttpResponse {
            code: 200,
            message: "OK".to_owned(),
            content_type: ContentType::Absent,
            content: Vec::new(),
        }
    }

    /// `404 Not Found` without content type or body.
    pub fn make_404() -> (r: HttpResponse)
        ensures
            r@ == (ResponseView {
                status: 404,
                reason: "Not Found"@,
                content_type: ContentType::Absent,
                body: Seq::empty(),
            }),
    {
        HttpResponse {
            code: 404,
            message: "Not Found".to_owned(),
            content_type: ContentType::Absent,
            content: Vec::new(),
        }
    }

    /// The status code.
    pub fn code(&self) -> (r: usize)
        ensures
            r == self@.status,
    {
        self.code
    }

    /// The reason phrase.
    pub fn message(&self) -> (r: &str)
        ensures
            r@ == self@.reason,
    {
        self.message.as_str()
    }

    /// The content type.
    pub fn content_type(&self) -> (r: ContentType)
        ensures
            r == self@.content_type,
    {
        self.content_type
    }

    /// The body.
    pub fn content(&self) -> (r: &Vec<u8>)
        ensures
            r@ == self@.body,
    {
        &self.content
    }

    /// The number of bytes of the body, which is what the response
    /// announces as its content length.
    pub fn content_length(&self) -> (r: usize)
        ensures
            r == self@.body.len(),
    {
        self.content.len()
    }

    /// The bytes of the response on the wire.
    pub fn to_bytes(&self) -> (r: Vec<u8>)
        ensures
            r@ == wire(self@),
    {
        proof {
            reveal_strlit("HTTP/1.1 ");
            reveal_strlit(" ");
            reveal_strlit("\r\n");
            reveal_strlit("Content-Type: ");
            reveal_strlit("Content-Length: ");
        }
        let mut out: Vec<u8> = Vec::new();
        push_all(&mut out, literal("HTTP/1.1 "));
        push_decimal(&mut out, self.code);
        push_all(&mut out, literal(" "));
        push_all(&mut out, self.message.as_str().as_bytes());
        push_all(&mut out, literal("\r\n"));
        assert(out@ =~= status_line(self@));
        if self.content_type != ContentType::Absent {
            push_all(&mut out, literal("Content-Type: "));
            push_all(&mut out, literal(self.content_type.as_str()));
            push_all(&mut out, literal("\r\n"));
        }
        assert(out@ =~= status_line(self@) + content_type_line(self@));
        if self.content.len() > 0 {
            push_all(&mut out, literal("Content-Length: "));
            push_decimal(&mut out, self.content.len());
            push_all(&mut out, literal("\r\n"));
        }
        assert(out@ =~= status_line(self@) + content_type_line(self@) + content_length_line(
            self@,
        ));
        push_all(&mut out, literal("\r\n"));
        push_all(&mut out, self.content.as_slice());
        out
    }
}

} // verus!
