//! Requests: the grammar of a request message as functions on byte
//! sequences, and the parser that follows it.

use crate::headers::{distinct_keys, pairs, to_map, upsert, Headers};
use crate::text::{
    announced, ascii, first_at, is_line_end, lemma_first_at, literal, read_announced, same_bytes,
    scan, trim, trimmed, Stop,
};
use vstd::prelude::*;
use vstd::slice::{slice_subrange, slice_to_vec};
use vstd::string::StringSliceAdditionalSpecFns;

verus! {

/// The verbs that the server tells apart.
#[derive(Debug, Clone, Copy, PartialEq, Eq, Structural)]
pub enum HttpMethod {
    /// `GET`.
    Get,
    /// `POST`.
    Post,
    /// Any other verb.
    Unsupported,
}

/// Why a buffer is not served as a request.
#[derive(Debug, Clone, Copy, PartialEq, Eq, Structural)]
pub enum ParseError {
    /// The buffer holds more bytes than one read brings: the request does
    /// not fit into the one read that a connection gets.
    TooLarge,
    /// The request line lacks the space that ends the verb or that starts
    /// the path.
    MalformedRequestLine,
    /// The verb is neither `GET` nor `POST`.
    UnsupportedMethod,
    /// A header line holds no colon.
    MalformedHeader,
    /// The announced body is not in the buffer: the blank line that ends the
    /// header section is missing, or fewer bytes follow it than announced.
    IncompleteBody,
}

/// The fields of a request, as mathematical values.
pub struct RequestView {
    pub method: HttpMethod,
    pub path: Seq<u8>,
    pub headers: Map<Seq<u8>, Seq<u8>>,
    pub body: Seq<u8>,
}

impl HttpMethod {
    /// The verb that a token names. The match is exact: letter case counts.
    pub open spec fn of_token(token: Seq<u8>) -> HttpMethod {
        if token == ascii("GET") {
            HttpMethod::Get
        } else if token == ascii("POST") {
            HttpMethod::Post
        } else {
            HttpMethod::Unsupported
        }
    }

    /// The token that names a verb on the wire, for the two recognised verbs.
    pub open spec fn token(self) -> Seq<u8> {
        match self {
            HttpMethod::Get => ascii("GET"),
            HttpMethod::Post => ascii("POST"),
            HttpMethod::Unsupported => Seq::empty(),
        }
    }

    /// Reads a verb from a token.
    pub fn from_token(token: &[u8]) -> (m: HttpMethod)
        ensures
            m == HttpMethod::of_token(token@),
    {
        proof {
            reveal_strlit("GET");
            reveal_strlit("POST");
        }
        if same_bytes(token, literal("GET")) {
            HttpMethod::Get
        } else if same_bytes(token, literal("POST")) {
            HttpMethod::Post
        } else {
            HttpMethod::Unsupported
        }
    }

    /// Reads a recognised verb from a string, and fails on any other.
    pub fn from_str(input: &str) -> (r: Result<HttpMethod, ()>)
        ensures
            match r {
                Ok(m) => m != HttpMethod::Unsupported && m == HttpMethod::of_token(
                    input.spec_bytes(),
                ),
                Err(_) => HttpMethod::of_token(input.spec_bytes()) == HttpMethod::Unsupported,
            },
    {
        match HttpMethod::from_token(input.as_bytes()) {
            HttpMethod::Unsupported => Err(()),
            m => Ok(m),
        }
    }
}

/// The verb at the start of `s` and the index of the space that ends it.
pub open spec fn method_spec(s: Seq<u8>) -> Result<(HttpMethod, int), ParseError> {
    let end = first_at(s, 0, Stop::Space);
    if end >= s.len() {
        Err(ParseError::MalformedRequestLine)
    } else if HttpMethod::of_token(s.subrange(0, end)) == HttpMethod::Unsupported {
        Err(ParseError::UnsupportedMethod)
    } else {
        Ok((HttpMethod::of_token(s.subrange(0, end)), end))
    }
}

/// The path that follows the space at the start of `s`, and the index at
/// which it ends: the next space or line end, or the end of `s`.
pub open spec fn path_spec(s: Seq<u8>) -> Result<(Seq<u8>, int), ParseError> {
    if s.len() == 0 || s[0] != 32 {
        Err(ParseError::MalformedRequestLine)
    } else {
        let end = first_at(s, 1, Stop::SpaceOrLineEnd);
        Ok((s.subrange(1, end), end))
    }
}

/// The key and the value of a header line: what stands before and after its
/// first colon, both trimmed.
pub open spec fn header_entry(line: Seq<u8>) -> Option<(Seq<u8>, Seq<u8>)> {
    let colon = first_at(line, 0, Stop::Colon);
    if colon < line.len() {
        Some((trim(line.subrange(0, colon)), trim(line.subrange(colon + 1, line.len() as int))))
    } else {
        None
    }
}

/// The entry of the header line at the start of `s`, and the index of the
/// line end that follows it.
pub open spec fn header_line_spec(s: Seq<u8>) -> Result<((Seq<u8>, Seq<u8>), int), ParseError> {
    let end = first_at(s, 0, Stop::LineEnd);
    match header_entry(s.subrange(0, end)) {
        Some(entry) => Ok((entry, end)),
        None => Err(ParseError::MalformedHeader),
    }
}

/// Splits a header line into its key and its value.
pub fn split_header(line: &[u8]) -> (r: Option<(Vec<u8>, Vec<u8>)>)
    ensures
        match header_entry(line@) {
            Some(entry) => r matches Some(pair) && pair.0@ == entry.0 && pair.1@ == entry.1,
            None => r is None,
        },
{
    let colon = scan(line, 0, Stop::Colon);
    if colon >= line.len() {
        return None;
    }
    let key = slice_to_vec(trimmed(slice_subrange(line, 0, colon)));
    let value = slice_to_vec(trimmed(slice_subrange(line, colon + 1, line.len())));
    Some((key, value))
}

/// The length of the line break at index `p` of `s`: two for a carriage
/// return followed by a line feed, one for either of them alone, zero where
/// no line break stands.
pub open spec fn line_break_len(s: Seq<u8>, p: int) -> int {
    if 0 <= p && p + 1 < s.len() && s[p] == 13 && s[p + 1] == 10 {
        2
    } else if 0 <= p && p < s.len() && is_line_end(s[p]) {
        1
    } else {
        0
    }
}

/// Executable form of [`line_break_len`].
pub fn line_break(s: &[u8], p: usize) -> (r: usize)
    requires
        p <= s@.len(),
    ensures
        r == line_break_len(s@, p as int),
        p + r <= s@.len() <= usize::MAX,
{
    if p < s.len() && s[p] == 13 && s.len() - p > 1 && s[p + 1] == 10 {
        2
    } else if p < s.len() && (s[p] == 13 || s[p] == 10) {
        1
    } else {
        0
    }
}

/// The header section of `s` from index `p` on: the entries of its lines in
/// the order in which they stand, and the index at which the section stops.
///
/// A line starts after the line break at `p`, if one stands there, and runs
/// to the next line end. The section stops at `p` when that line is empty,
/// which is so at a blank line and at the end of `s`; otherwise the line
/// gives an entry and the section goes on at its end. `None` where a line
/// holds no colon.
#[verifier::opaque]
pub open spec fn header_section(s: Seq<u8>, p: int) -> Option<(Seq<(Seq<u8>, Seq<u8>)>, int)>
    decreases s.len() - p,
    via header_section_decreases
{
    let start = p + line_break_len(s, p);
    let end = first_at(s, start, Stop::LineEnd);
    if p < 0 || start >= s.len() || end <= start {
        Some((Seq::empty(), p))
    } else {
        match header_entry(s.subrange(start, end)) {
            None => None,
            Some(entry) => match header_section(s, end) {
                None => None,
                Some((rest, stop)) => Some((seq![entry] + rest, stop)),
            },
        }
    }
}

#[via_fn]
proof fn header_section_decreases(s: Seq<u8>, p: int) {
    let start = p + line_break_len(s, p);
    if 0 <= start <= s.len() {
        lemma_first_at(s, start, Stop::LineEnd);
    }
}

/// The header section at the start of `s`: its entries and where it stops.
pub open spec fn headers_spec(s: Seq<u8>) -> Result<(Seq<(Seq<u8>, Seq<u8>)>, int), ParseError> {
    match header_section(s, 0) {
        Some(section) => Ok(section),
        None => Err(ParseError::MalformedHeader),
    }
}

/// The body of `n` bytes behind the blank line at the start of `s`, and the
/// index at which it ends. The blank line is two line breaks in a row.
pub open spec fn body_spec(s: Seq<u8>, n: nat) -> Result<(Seq<u8>, int), ParseError> {
    let first = line_break_len(s, 0);
    let second = line_break_len(s, first);
    let start = first + second;
    if first == 0 || second == 0 || start + n > s.len() {
        Err(ParseError::IncompleteBody)
    } else {
        Ok((s.subrange(start, start + n), start + n))
    }
}

/// The body length that a header mapping announces: the number under
/// `Content-Length`, zero without that key.
pub open spec fn content_length(headers: Map<Seq<u8>, Seq<u8>>) -> nat {
    if headers.contains_key(ascii("Content-Length")) {
        announced(headers[ascii("Content-Length")])
    } else {
        0
    }
}

/// The request at the start of `s` and the number of bytes that it takes.
///
/// The request line gives the verb and the path, and is dropped from the
/// path's end to the line end. The header section follows. A body is read
/// only where the headers announce a positive length; without one the
/// request ends where the header section stops.
#[verifier::opaque]
pub open spec fn request_spec(s: Seq<u8>) -> Result<(RequestView, int), ParseError> {
    match method_spec(s) {
        Err(error) => Err(error),
        Ok((method, a)) => match path_spec(s.skip(a)) {
            Err(error) => Err(error),
            Ok((path, b)) => {
                let c = first_at(s.skip(a + b), 0, Stop::LineEnd);
                let at = a + b + c;
                match headers_spec(s.skip(at)) {
                    Err(error) => Err(error),
                    Ok((entries, d)) => {
                        let headers = to_map(entries);
                        let n = content_length(headers);
                        if n == 0 {
                            Ok((RequestView { method, path, headers, body: Seq::empty() }, at + d))
                        } else {
                            match body_spec(s.skip(at + d), n) {
                                Err(error) => Err(error),
                                Ok((body, e)) => Ok(
                                    (RequestView { method, path, headers, body }, at + d + e),
                                ),
                            }
                        }
                    },
                }
            },
        },
    }
}

/// A parsed request.
#[derive(Debug, PartialEq, Eq)]
pub struct HttpRequest {
    method: HttpMethod,
    path: Vec<u8>,
    headers: Headers,
    body: Vec<u8>,
}

impl View for HttpRequest {
    type V = RequestView;

    closed spec fn view(&self) -> RequestView {
        RequestView {
            method: self.method,
            path: self.path@,
            headers: self.headers@,
            body: self.body@,
        }
    }
}

/// Reads the body length that a header mapping announces, as far as it
/// fits the machine word.
pub fn announced_length(headers: &Headers) -> (r: Option<usize>)
    ensures
        match r {
            Some(n) => n == content_length(headers@),
            None => content_length(headers@) > usize::MAX,
        },
{
    proof {
        reveal_strlit("Content-Length");
    }
    match headers.get(literal("Content-Length")) {
        Some(value) => read_announced(value.as_slice()),
        None => Some(0),
    }
}

impl HttpRequest {
    /// A request holds a body exactly where its headers announce one, and
    /// the body is as long as announced.
    #[verifier::type_invariant]
    spec fn framed(self) -> bool {
        self.body@.len() == content_length(self.headers@)
    }

    /// A request with the given fields, where the body is as long as the
    /// headers announce, and nothing otherwise.
    pub fn new(method: HttpMethod, path: Vec<u8>, headers: Headers, body: Vec<u8>) -> (r: Option<
        HttpRequest,
    >)
        ensures
            match r {
                Some(request) => request@ == (RequestView {
                    method,
                    path: path@,
                    headers: headers@,
                    body: body@,
                }),
                None => true,
            },
            r is Some <==> body@.len() == content_length(headers@),
    {
        let size = body.len();
        match announced_length(&headers) {
            Some(n) => {
                if n == size {
                    Some(HttpRequest { method, path, headers, body })
                } else {
                    None
                }
            },
            None => None,
        }
    }

    /// The verb.
    pub fn method(&self) -> (r: HttpMethod)
        ensures
            r == self@.method,
    {
        self.method
    }

    /// The path, as received.
    pub fn path(&self) -> (r: &Vec<u8>)
        ensures
            r@ == self@.path,
    {
        &self.path
    }

    /// The header mapping.
    pub fn headers(&self) -> (r: &Headers)
        ensures
            r@ == self@.headers,
    {
        &self.headers
    }

    /// The body, which is as long as the headers announce.
    pub fn body(&self) -> (r: &Vec<u8>)
        ensures
            r@ == self@.body,
            r@.len() == content_length(self@.headers),
    {
        proof {
            use_type_invariant(self);
        }
        &self.body
    }

    /// Reads the verb at the start of `input`. What is left starts at the space
    /// that ends the verb.
    pub fn parse_method(input: &[u8]) -> (r: Result<(&[u8], HttpMethod), ParseError>)
        ensures
            match method_spec(input@) {
                Ok((method, end)) => r matches Ok((rest, m)) && m == method && rest@ == input@.skip(end),
                Err(error) => r matches Err(e) && e == error,
            },
    {
        let end = scan(input, 0, Stop::Space);
        if end >= input.len() {
            return Err(ParseError::MalformedRequestLine);
        }
        match HttpMethod::from_token(slice_subrange(input, 0, end)) {
            HttpMethod::Unsupported => Err(ParseError::UnsupportedMethod),
            method => Ok((slice_subrange(input, end, input.len()), method)),
        }
    }

    /// Reads the path that follows the space at the start of `input`. What is
    /// left starts where the path ends.
    pub fn parse_path(input: &[u8]) -> (r: Result<(&[u8], &[u8]), ParseError>)
        ensures
            match path_spec(input@) {
                Ok((path, end)) => r matches Ok((rest, p)) && p@ == path && rest@ == input@.skip(end),
                Err(error) => r matches Err(e) && e == error,
            },
    {
        if input.len() == 0 || input[0] != 32 {
            return Err(ParseError::MalformedRequestLine);
        }
        let end = scan(input, 1, Stop::SpaceOrLineEnd);
        Ok((slice_subrange(input, end, input.len()), slice_subrange(input, 1, end)))
    }

    /// Reads the header line at the start of `input`. What is left starts at
    /// the line end that follows it.
    pub fn parse_header_line(input: &[u8]) -> (r: Result<(&[u8], (Vec<u8>, Vec<u8>)), ParseError>)
        ensures
            match header_line_spec(input@) {
                Ok((entry, end)) => r matches Ok((rest, pair)) && pair.0@ == entry.0 && pair.1@
                    == entry.1 && rest@ == input@.skip(end),
                Err(error) => r matches Err(e) && e == error,
            },
    {
        let end = scan(input, 0, Stop::LineEnd);
        match split_header(slice_subrange(input, 0, end)) {
            Some(pair) => Ok((slice_subrange(input, end, input.len()), pair)),
            None => Err(ParseError::MalformedHeader),
        }
    }

    /// Reads the header section at the start of `input`. What is left starts
    /// where the section stops: at the line break before the blank line, or at
    /// the end of the input.
    pub fn parse_headers(input: &[u8]) -> (r: Result<(&[u8], Headers), ParseError>)
        ensures
            match headers_spec(input@) {
                Ok((entries, stop)) => r matches Ok((rest, headers)) && headers@ == to_map(entries)
                    && rest@ == input@.skip(stop),
                Err(error) => r matches Err(e) && e == error,
            },
    {
        let mut entries: Vec<(Vec<u8>, Vec<u8>)> = Vec::new();
        let mut p: usize = 0;
        let ghost mut seen: Seq<(Seq<u8>, Seq<u8>)> = Seq::empty();
        assert(pairs(entries@) =~= seen);
        loop
            invariant
                p <= input@.len(),
                distinct_keys(pairs(entries@)),
                to_map(pairs(entries@)) == to_map(seen),
                header_section(input@, 0) == match header_section(input@, p as int) {
                    Some((rest, stop)) => Some((seen + rest, stop)),
                    None => None,
                },
            decreases input@.len() - p,
        {
            proof {
                reveal(header_section);
            }
            let start = p + line_break(input, p);
            let end = scan(input, start, Stop::LineEnd);
            if start >= input.len() || end <= start {
                assert(seen + Seq::empty() =~= seen);
                return Ok((slice_subrange(input, p, input.len()), Headers::ordered_from(entries)));
            }
            match split_header(slice_subrange(input, start, end)) {
                None => {
                    return Err(ParseError::MalformedHeader);
                },
                Some(pair) => {
                    proof {
                        let entry = (pair.0@, pair.1@);
                        assert(seen.push(entry).drop_last() =~= seen);
                        match header_section(input@, end as int) {
                            Some((rest, stop)) => {
                                assert(seen + (seq![entry] + rest) =~= seen.push(entry) + rest);
                            },
                            None => {},
                        }
                        seen = seen.push(entry);
                    }
                    upsert(&mut entries, pair.0, pair.1);
                    p = end;
                },
            }
        }
    }

    /// Reads the `body_length` bytes behind the blank line at the start of
    /// `input`. What is left starts behind them.
    pub fn parse_body(input: &[u8], body_length: usize) -> (r: Result<(&[u8], &[u8]), ParseError>)
        ensures
            match body_spec(input@, body_length as nat) {
                Ok((body, end)) => r matches Ok((rest, b)) && b@ == body && rest@ == input@.skip(end),
                Err(error) => r matches Err(e) && e == error,
            },
    {
        let first = line_break(input, 0);
        let second = line_break(input, first);
        let start = first + second;
        if first == 0 || second == 0 || body_length > input.len() - start {
            return Err(ParseError::IncompleteBody);
        }
        Ok(
            (
                slice_subrange(input, start + body_length, input.len()),
                slice_subrange(input, start, start + body_length),
            ),
        )
    }

    /// Reads the request at the start of `input`. What is left starts
    /// behind the body where one is read, and where the header section
    /// stops otherwise.
    #[verifier::rlimit(30)]
    pub fn parse_request(input: &[u8]) -> (r: Result<(&[u8], HttpRequest), ParseError>)
        ensures
            match request_spec(input@) {
                Ok((request, end)) => r matches Ok((rest, parsed)) && parsed@ == request && rest@
                    == input@.skip(end),
                Err(error) => r matches Err(e) && e == error,
            },
    {
        proof {
            reveal(request_spec);
        }
        let (after_method, method) = match HttpRequest::parse_method(input) {
            Ok(found) => found,
            Err(error) => {
                return Err(error);
            },
        };
        let (after_path, path) = match HttpRequest::parse_path(after_method) {
            Ok(found) => found,
            Err(error) => {
                return Err(error);
            },
        };
        let line_end = scan(after_path, 0, Stop::LineEnd);
        let after_line = slice_subrange(after_path, line_end, after_path.len());
        proof {
            let a = method_spec(input@)->Ok_0.1;
            let b = path_spec(input@.skip(a))->Ok_0.1;
            lemma_first_at(input@, 0, Stop::Space);
            lemma_first_at(input@.skip(a), 1, Stop::SpaceOrLineEnd);
            assert(input@.skip(a).skip(b) =~= input@.skip(a + b));
            assert(input@.skip(a + b).skip(line_end as int) =~= input@.skip(a + b + line_end));
        }
        let (after_headers, headers) = match HttpRequest::parse_headers(after_line) {
            Ok(found) => found,
            Err(error) => {
                return Err(error);
            },
        };
        proof {
            let at = input@.len() - after_line@.len();
            let d = headers_spec(after_line@)->Ok_0.1;
            lemma_header_section_bounds(after_line@, 0);
            assert(input@.skip(at).skip(d) =~= input@.skip(at + d));
        }
        match announced_length(&headers) {
            Some(0) => Ok(
                (after_headers, HttpRequest { method, path: slice_to_vec(path), headers, body: Vec::new() }),
            ),
            Some(n) => {
                let (rest, body) = match HttpRequest::parse_body(after_headers, n) {
                    Ok(found) => found,
                    Err(error) => {
                        return Err(error);
                    },
                };
                proof {
                    let at = input@.len() - after_headers@.len();
                    let e = body_spec(after_headers@, n as nat)->Ok_0.1;
                    assert(input@.skip(at).skip(e) =~= input@.skip(at + e));
                }
                Ok(
                    (
                        rest,
                        HttpRequest {
                            method,
                            path: slice_to_vec(path),
                            headers,
                            body: slice_to_vec(body),
                        },
                    ),
                )
            },
            None => Err(ParseError::IncompleteBody),
        }
    }
}

/// A header section stops inside the sequence, at or behind its start.
pub proof fn lemma_header_section_bounds(s: Seq<u8>, p: int)
    requires
        0 <= p <= s.len(),
    ensures
        match header_section(s, p) {
            Some((entries, stop)) => p <= stop <= s.len(),
            None => true,
        },
    decreases s.len() - p,
{
    reveal(header_section);
    let start = p + line_break_len(s, p);
    lemma_first_at(s, start, Stop::LineEnd);
    let end = first_at(s, start, Stop::LineEnd);
    if !(start >= s.len() || end <= start) {
        if header_entry(s.subrange(start, end)) is Some {
            lemma_header_section_bounds(s, end);
        }
    }
}

} // verus!
