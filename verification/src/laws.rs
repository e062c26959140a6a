//! What holds of every request and every response: statements that relate
//! the grammar, the header mapping and the wire format to one another.

use crate::headers::{distinct_keys, lemma_to_map_entry, lemma_to_map_len, to_map};
use crate::http_request::{
    body_spec, content_length, header_entry, header_section, headers_spec,
    lemma_header_section_bounds, line_break_len, method_spec, path_spec, request_spec, HttpMethod,
    ParseError, RequestView,
};
use crate::http_response::{content_length_line, content_type_line, ContentType, ResponseView};
use crate::text::{
    ascii, decimal_digits, first_at, is_digit, is_line_end, is_trimmed, lemma_decimal_round_trip,
    lemma_first_at, lemma_first_at_unique, lemma_trim_is_trimmed, trim, trim_front, Stop,
};
use vstd::prelude::*;

verus! {

/// The bytes of a request line with the given verb and path.
pub open spec fn request_line(method: HttpMethod, path: Seq<u8>) -> Seq<u8> {
    method.token() + seq![32u8] + path + ascii(" HTTP/1.1\r\n")
}

/// Whether a path holds neither a space nor a line end.
pub open spec fn is_plain_path(path: Seq<u8>) -> bool {
    forall|i: int| 0 <= i < path.len() ==> !Stop::SpaceOrLineEnd.holds(#[trigger] path[i])
}

/// The verb and the path of a written request line, each read where it
/// stands.
proof fn lemma_request_line_parts(method: HttpMethod, path: Seq<u8>, rest: Seq<u8>)
    requires
        method != HttpMethod::Unsupported,
        is_plain_path(path),
    ensures
        method_spec(request_line(method, path) + rest) == Ok::<_, ParseError>(
            (method, method.token().len() as int),
        ),
        path_spec((request_line(method, path) + rest).skip(method.token().len() as int)) == Ok::<
            _,
            ParseError,
        >((path, 1 + path.len() as int)),
{
    reveal_strlit("GET");
    reveal_strlit("POST");
    reveal_strlit(" HTTP/1.1\r\n");
    let token = method.token();
    let tail = ascii(" HTTP/1.1\r\n");
    let s = request_line(method, path) + rest;
    let a = token.len() as int;
    assert(forall|i: int| 0 <= i < a ==> s[i] == token[i]);
    assert(s[a] == 32);
    lemma_first_at_unique(s, 0, Stop::Space, a);
    assert(s.subrange(0, a) =~= token);
    assert(ascii("GET").len() != ascii("POST").len());
    assert(HttpMethod::of_token(token) == method);
    let t = s.skip(a);
    let b = 1 + path.len() as int;
    assert(t[0] == 32);
    assert(forall|i: int| 1 <= i < b ==> t[i] == path[i - 1]);
    assert(t[b] == tail[0]);
    lemma_first_at_unique(t, 1, Stop::SpaceOrLineEnd, b);
    assert(t.subrange(1, b) =~= path);
}

/// A request line gives back its verb and its path, whatever follows it:
/// the verb and the path are read as they were written, and a request that
/// parses holds exactly them. Only the headers or the body can make the
/// parse fail, and with nothing behind the line it succeeds.
pub proof fn lemma_request_line_recovered(method: HttpMethod, path: Seq<u8>, rest: Seq<u8>)
    requires
        method != HttpMethod::Unsupported,
        is_plain_path(path),
    ensures
        method_spec(request_line(method, path) + rest) == Ok::<_, ParseError>(
            (method, method.token().len() as int),
        ),
        path_spec((request_line(method, path) + rest).skip(method.token().len() as int)) == Ok::<
            _,
            ParseError,
        >((path, 1 + path.len() as int)),
        match request_spec(request_line(method, path) + rest) {
            Ok((request, _)) => request.method == method && request.path == path,
            Err(error) => error == ParseError::MalformedHeader || error
                == ParseError::IncompleteBody,
        },
        rest.len() == 0 ==> request_spec(request_line(method, path) + rest) is Ok,
{
    reveal(request_spec);
    lemma_request_line_parts(method, path, rest);
    if rest.len() == 0 {
        lemma_request_line_end(method, path, rest);
        let s = request_line(method, path) + rest;
        let w = s.skip(method.token().len() + 1 + path.len() + 9 as int);
        reveal_strlit("\r\n");
        reveal(header_section);
        assert(w =~= seq![13u8, 10u8]);
        assert(line_break_len(w, 0) == 2);
        assert(header_section(w, 0) == Some((Seq::<(Seq<u8>, Seq<u8>)>::empty(), 0int)));
        assert(to_map(Seq::<(Seq<u8>, Seq<u8>)>::empty()) =~= Map::empty());
    }
}

/// Scanning a sequence without its first `k` bytes finds the same byte,
/// `k` places earlier.
pub proof fn lemma_first_at_skip(s: Seq<u8>, k: int, p: int, stop: Stop)
    requires
        0 <= k,
        0 <= p,
        k + p <= s.len(),
    ensures
        first_at(s.skip(k), p, stop) + k == first_at(s, p + k, stop),
    decreases s.len() - k - p,
{
    if p + k < s.len() {
        assert(s.skip(k)[p] == s[p + k]);
        if !stop.holds(s[p + k]) {
            lemma_first_at_skip(s, k, p + 1, stop);
        }
    }
}

/// The header section of a sequence without its first `k` bytes is the
/// header section of the whole sequence, `k` places earlier.
pub proof fn lemma_header_section_skip(s: Seq<u8>, k: int, p: int)
    requires
        0 <= k,
        0 <= p,
        k + p <= s.len(),
    ensures
        header_section(s, k + p) == match header_section(s.skip(k), p) {
            Some((entries, stop)) => Some((entries, stop + k)),
            None => None,
        },
    decreases s.len() - k - p,
{
    reveal(header_section);
    let t = s.skip(k);
    assert(forall|i: int| 0 <= i < t.len() ==> t[i] == s[i + k]);
    assert(line_break_len(s, k + p) == line_break_len(t, p));
    let start = p + line_break_len(t, p);
    lemma_first_at_skip(s, k, start, Stop::LineEnd);
    lemma_first_at(t, start, Stop::LineEnd);
    let end = first_at(t, start, Stop::LineEnd);
    if !(start >= t.len() || end <= start) {
        assert(t.subrange(start, end) =~= s.subrange(start + k, end + k));
        if header_entry(t.subrange(start, end)) is Some {
            lemma_header_section_skip(s, k, end);
        }
    }
}

/// A header line as it is written: the key, a colon and a space, the value,
/// and a line break.
pub open spec fn header_line(key: Seq<u8>, value: Seq<u8>) -> Seq<u8> {
    key + ascii(": ") + value + ascii("\r\n")
}

/// The header lines of `lines`, one after the other.
pub open spec fn header_text(lines: Seq<(Seq<u8>, Seq<u8>)>) -> Seq<u8>
    decreases lines.len(),
{
    if lines.len() == 0 {
        Seq::empty()
    } else {
        header_line(lines[0].0, lines[0].1) + header_text(lines.drop_first())
    }
}

/// Whether a key and a value can be written as one header line: the key
/// holds neither a colon nor a line end, and the value holds no line end.
pub open spec fn is_header_pair(key: Seq<u8>, value: Seq<u8>) -> bool {
    &&& forall|i: int| 0 <= i < key.len() ==> (#[trigger] key[i]) != 58 && !is_line_end(key[i])
    &&& forall|i: int| 0 <= i < value.len() ==> !is_line_end(#[trigger] value[i])
}

/// The keys and the values of `lines`, each trimmed.
pub open spec fn trimmed_pairs(lines: Seq<(Seq<u8>, Seq<u8>)>) -> Seq<(Seq<u8>, Seq<u8>)> {
    Seq::new(lines.len(), |i: int| (trim(lines[i].0), trim(lines[i].1)))
}

/// Where the header section of a header text stops: at the line break of
/// its last line.
pub open spec fn text_stop(text: Seq<u8>) -> int {
    if text.len() == 0 {
        0
    } else {
        text.len() - 2
    }
}

/// The content of a written header line holds no line end, and its entry
/// is the trimmed key and the trimmed value.
proof fn lemma_line_entry(key: Seq<u8>, value: Seq<u8>)
    requires
        is_header_pair(key, value),
    ensures
        header_entry(key + ascii(": ") + value) == Some((trim(key), trim(value))),
        forall|i: int|
            0 <= i < (key + ascii(": ") + value).len() ==> !is_line_end(
                #[trigger] (key + ascii(": ") + value)[i],
            ),
{
    reveal_strlit(": ");
    let content = key + ascii(": ") + value;
    let n = content.len() as int;
    let k = key.len() as int;
    assert forall|i: int| 0 <= i < n implies !is_line_end(#[trigger] content[i]) by {
        if i < k {
            assert(content[i] == key[i]);
        } else if i >= k + 2 {
            assert(content[i] == value[i - k - 2]);
        }
    }
    assert forall|i: int| 0 <= i < k implies !Stop::Colon.holds(#[trigger] content[i]) by {
        assert(content[i] == key[i]);
    }
    assert(content[k] == 58);
    lemma_first_at_unique(content, 0, Stop::Colon, k);
    assert(content.subrange(0, k) =~= key);
    let after = content.subrange(k + 1, n);
    assert(after =~= seq![32u8] + value);
    assert(after.drop_first() =~= value);
    assert(trim_front(after) == trim_front(value));
}

/// One step of a header section: a line of content behind `a` bytes of
/// line break, followed by a line break.
proof fn lemma_section_step(u: Seq<u8>, a: int, content: Seq<u8>)
    requires
        a == 0 || (a == 2 && u.len() >= 2 && u[0] == 13 && u[1] == 10),
        content.len() > 0,
        u.len() >= a + content.len() + 2,
        u.subrange(a, a + content.len()) == content,
        forall|i: int| 0 <= i < content.len() ==> !is_line_end(#[trigger] content[i]),
        u[a + content.len()] == 13,
        u[a + content.len() + 1] == 10,
    ensures
        header_section(u, 0) == match header_entry(content) {
            None => None,
            Some(entry) => match header_section(u.skip(a + content.len()), 0) {
                None => None,
                Some((rest, stop)) => Some((seq![entry] + rest, stop + a + content.len())),
            },
        },
{
    reveal(header_section);
    let n = content.len() as int;
    assert forall|i: int| a <= i < a + n implies !Stop::LineEnd.holds(#[trigger] u[i]) by {
        assert(u[i] == content[i - a]);
    }
    assert(u[a] == content[0]);
    assert(line_break_len(u, 0) == a);
    lemma_first_at_unique(u, a, Stop::LineEnd, a + n);
    lemma_header_section_skip(u, a + n, 0);
}

/// The header section of a header text, with or without a line break in
/// front of it, holds the trimmed pairs of its lines in order.
#[verifier::rlimit(30)]
proof fn lemma_section_of_text(led: bool, lines: Seq<(Seq<u8>, Seq<u8>)>)
    requires
        forall|i: int| 0 <= i < lines.len() ==> is_header_pair((#[trigger] lines[i]).0, lines[i].1),
    ensures
        header_section(
            (if led {
                ascii("\r\n")
            } else {
                Seq::empty()
            }) + header_text(lines),
            0,
        ) == Some(
            (
                trimmed_pairs(lines),
                text_stop(
                    (if led {
                        ascii("\r\n")
                    } else {
                        Seq::empty()
                    }) + header_text(lines),
                ),
            ),
        ),
    decreases lines.len(),
{
    reveal_strlit("\r\n");
    let lead: Seq<u8> = if led {
        ascii("\r\n")
    } else {
        Seq::empty()
    };
    let u = lead + header_text(lines);
    let a = lead.len() as int;
    if lines.len() == 0 {
        reveal(header_section);
        assert(u =~= lead);
        assert(trimmed_pairs(lines) =~= Seq::empty());
    } else {
        let key = lines[0].0;
        let value = lines[0].1;
        let rest = lines.drop_first();
        let content = key + ascii(": ") + value;
        let n = content.len() as int;
        assert(is_header_pair(key, value));
        lemma_line_entry(key, value);
        assert(content.len() >= 2) by {
            reveal_strlit(": ");
        }
        let next = ascii("\r\n") + header_text(rest);
        assert(u =~= lead + content + next);
        assert(u.subrange(a, a + n) =~= content);
        assert(u.skip(a + n) =~= next);
        assert(u[a + n] == next[0] && u[a + n + 1] == next[1]);
        assert forall|i: int| 0 <= i < rest.len() implies is_header_pair(
            (#[trigger] rest[i]).0,
            rest[i].1,
        ) by {
            assert(rest[i] == lines[i + 1]);
        }
        lemma_section_of_text(true, rest);
        lemma_section_step(u, a, content);
        assert(seq![(trim(key), trim(value))] + trimmed_pairs(rest) =~= trimmed_pairs(lines)) by {
            assert forall|i: int| 0 <= i < rest.len() implies trimmed_pairs(rest)[i]
                == trimmed_pairs(lines)[i + 1] by {
                assert(rest[i] == lines[i + 1]);
            }
        }
    }
}

/// Header text written from well-formed lines is read back line by line:
/// the header section holds the trimmed key and the trimmed value of each
/// line, in order, and stops at the line break of the last line. No entry
/// starts or ends with whitespace. Where the trimmed keys are all
/// different, the mapping has exactly one entry for each line.
pub proof fn lemma_headers_recovered(lines: Seq<(Seq<u8>, Seq<u8>)>)
    requires
        forall|i: int| 0 <= i < lines.len() ==> is_header_pair((#[trigger] lines[i]).0, lines[i].1),
    ensures
        headers_spec(header_text(lines)) == Ok::<_, ParseError>(
            (trimmed_pairs(lines), text_stop(header_text(lines))),
        ),
        forall|i: int|
            0 <= i < lines.len() ==> is_trimmed((#[trigger] trimmed_pairs(lines)[i]).0)
                && is_trimmed(trimmed_pairs(lines)[i].1),
        distinct_keys(trimmed_pairs(lines)) ==> {
            &&& to_map(trimmed_pairs(lines)).dom().finite()
            &&& to_map(trimmed_pairs(lines)).dom().len() == lines.len()
            &&& forall|i: int|
                0 <= i < lines.len() ==> to_map(trimmed_pairs(lines)).contains_pair(
                    trim((#[trigger] lines[i]).0),
                    trim(lines[i].1),
                )
        },
{
    lemma_section_of_text(false, lines);
    assert(Seq::<u8>::empty() + header_text(lines) =~= header_text(lines));
    assert forall|i: int| 0 <= i < lines.len() implies is_trimmed(
        (#[trigger] trimmed_pairs(lines)[i]).0,
    ) && is_trimmed(trimmed_pairs(lines)[i].1) by {
        lemma_trim_is_trimmed(lines[i].0);
        lemma_trim_is_trimmed(lines[i].1);
    }
    if distinct_keys(trimmed_pairs(lines)) {
        lemma_to_map_len(trimmed_pairs(lines));
        assert forall|i: int| 0 <= i < lines.len() implies to_map(
            trimmed_pairs(lines),
        ).contains_pair(trim((#[trigger] lines[i]).0), trim(lines[i].1)) by {
            lemma_to_map_entry(trimmed_pairs(lines), i);
        }
    }
}

/// Behind the path of a request line, the rest of the line is nine bytes
/// long, and its line break comes next.
proof fn lemma_request_line_end(method: HttpMethod, path: Seq<u8>, rest: Seq<u8>)
    requires
        method != HttpMethod::Unsupported,
    ensures
        first_at(
            (request_line(method, path) + rest).skip(method.token().len() + 1 + path.len() as int),
            0,
            Stop::LineEnd,
        ) == 9,
        (request_line(method, path) + rest).skip(method.token().len() + 1 + path.len() + 9 as int)
            == ascii("\r\n") + rest,
        request_line(method, path).len() == method.token().len() + 1 + path.len() + 11,
{
    reveal_strlit("GET");
    reveal_strlit("POST");
    reveal_strlit(" HTTP/1.1\r\n");
    reveal_strlit("\r\n");
    let s = request_line(method, path) + rest;
    let tail = ascii(" HTTP/1.1\r\n");
    let at = method.token().len() + 1 + path.len() as int;
    let u = s.skip(at);
    assert(u =~= tail + rest);
    assert(forall|i: int| 0 <= i < 9 ==> !Stop::LineEnd.holds(#[trigger] u[i]));
    assert(u[9] == 13);
    lemma_first_at_unique(u, 0, Stop::LineEnd, 9);
    assert(s.skip(at + 9) =~= ascii("\r\n") + rest);
}

/// The header section of a header text that stands between a line break
/// and a blank line holds the trimmed pairs of its lines in order, and
/// stops before the blank line, whatever follows it.
#[verifier::rlimit(30)]
proof fn lemma_section_before_blank(lines: Seq<(Seq<u8>, Seq<u8>)>, rest: Seq<u8>)
    requires
        forall|i: int| 0 <= i < lines.len() ==> is_header_pair((#[trigger] lines[i]).0, lines[i].1),
    ensures
        header_section(ascii("\r\n") + header_text(lines) + ascii("\r\n") + rest, 0) == Some(
            (trimmed_pairs(lines), header_text(lines).len() as int),
        ),
    decreases lines.len(),
{
    reveal_strlit("\r\n");
    let u = ascii("\r\n") + header_text(lines) + ascii("\r\n") + rest;
    if lines.len() == 0 {
        reveal(header_section);
        assert(u =~= ascii("\r\n") + ascii("\r\n") + rest);
        assert(line_break_len(u, 0) == 2);
        assert(is_line_end(u[2]));
        assert(trimmed_pairs(lines) =~= Seq::empty());
    } else {
        let key = lines[0].0;
        let value = lines[0].1;
        let others = lines.drop_first();
        let content = key + ascii(": ") + value;
        let n = content.len() as int;
        assert(is_header_pair(key, value));
        lemma_line_entry(key, value);
        assert(content.len() >= 2) by {
            reveal_strlit(": ");
        }
        let next = ascii("\r\n") + header_text(others) + ascii("\r\n") + rest;
        assert(u =~= ascii("\r\n") + content + next);
        assert(u.subrange(2, 2 + n) =~= content);
        assert(u.skip(2 + n) =~= next);
        assert(u[2 + n] == next[0] && u[2 + n + 1] == next[1]);
        assert forall|i: int| 0 <= i < others.len() implies is_header_pair(
            (#[trigger] others[i]).0,
            others[i].1,
        ) by {
            assert(others[i] == lines[i + 1]);
        }
        lemma_section_before_blank(others, rest);
        lemma_section_step(u, 2, content);
        assert(seq![(trim(key), trim(value))] + trimmed_pairs(others) =~= trimmed_pairs(lines))
            by {
            assert forall|i: int| 0 <= i < others.len() implies trimmed_pairs(others)[i]
                == trimmed_pairs(lines)[i + 1] by {
                assert(others[i] == lines[i + 1]);
            }
        }
    }
}

/// A header text behind a line break ends with a line break.
proof fn lemma_text_ends_with_break(lines: Seq<(Seq<u8>, Seq<u8>)>)
    ensures
        (ascii("\r\n") + header_text(lines)).len() >= 2,
        (ascii("\r\n") + header_text(lines))[header_text(lines).len() as int] == 13,
        (ascii("\r\n") + header_text(lines))[header_text(lines).len() as int + 1] == 10,
    decreases lines.len(),
{
    reveal_strlit("\r\n");
    if lines.len() > 0 {
        let others = lines.drop_first();
        lemma_text_ends_with_break(others);
        let line = header_line(lines[0].0, lines[0].1);
        let t = ascii("\r\n") + header_text(lines);
        let o = ascii("\r\n") + header_text(others);
        let n = line.len() as int;
        assert(n >= 2);
        assert(line[n - 2] == 13 && line[n - 1] == 10);
        assert(header_text(lines) =~= line + header_text(others));
        assert(forall|i: int| 2 <= i < o.len() ==> o[i] == t[i + n]);
        assert(t[n] == line[n - 2]);
        assert(t[n + 1] == line[n - 1]);
    }
}

/// A request as it is written: the request line, the header lines, a blank
/// line, and the body.
pub open spec fn request_text(
    method: HttpMethod,
    path: Seq<u8>,
    lines: Seq<(Seq<u8>, Seq<u8>)>,
    body: Seq<u8>,
) -> Seq<u8> {
    request_line(method, path) + header_text(lines) + ascii("\r\n") + body
}

/// The number of bytes that the request of a request text takes: all of
/// them where it has a body, and all up to the line break before the blank
/// line where it has none.
pub open spec fn request_end(
    method: HttpMethod,
    path: Seq<u8>,
    lines: Seq<(Seq<u8>, Seq<u8>)>,
    body: Seq<u8>,
) -> int {
    if body.len() > 0 {
        request_text(method, path, lines, body).len() as int
    } else {
        request_line(method, path).len() + header_text(lines).len() - 2
    }
}

/// Behind a header text that follows a line break, the blank line and
/// what follows it are left.
proof fn lemma_skip_to_blank(lines: Seq<(Seq<u8>, Seq<u8>)>, after: Seq<u8>)
    ensures
        (ascii("\r\n") + header_text(lines) + ascii("\r\n") + after).skip(
            header_text(lines).len() as int,
        ) == ascii("\r\n") + ascii("\r\n") + after,
{
    reveal_strlit("\r\n");
    lemma_text_ends_with_break(lines);
    let w = ascii("\r\n") + header_text(lines) + ascii("\r\n") + after;
    let d = header_text(lines).len() as int;
    let front = ascii("\r\n") + header_text(lines);
    assert(w[d] == front[d]);
    assert(w[d + 1] == front[d + 1]);
    assert(w.skip(d) =~= ascii("\r\n") + ascii("\r\n") + after);
}

/// Skipping twice is skipping once.
proof fn lemma_skip_twice(s: Seq<u8>, i: int, j: int)
    requires
        0 <= i,
        0 <= j,
        i + j <= s.len(),
    ensures
        s.skip(i).skip(j) == s.skip(i + j),
{
    assert(s.skip(i).skip(j) =~= s.skip(i + j));
}

/// What stands behind the request line of a written request.
pub open spec fn behind_request_line(lines: Seq<(Seq<u8>, Seq<u8>)>, after: Seq<u8>) -> Seq<u8> {
    header_text(lines) + ascii("\r\n") + after
}

/// The header section of a written request, read where it stands, and the
/// blank line behind it.
#[verifier::rlimit(30)]
proof fn lemma_request_headers(
    method: HttpMethod,
    path: Seq<u8>,
    lines: Seq<(Seq<u8>, Seq<u8>)>,
    after: Seq<u8>,
)
    requires
        method != HttpMethod::Unsupported,
        forall|i: int| 0 <= i < lines.len() ==> is_header_pair((#[trigger] lines[i]).0, lines[i].1),
    ensures
        ({
            let s = request_line(method, path) + behind_request_line(lines, after);
            let at = method.token().len() + 1 + path.len() + 9 as int;
            let d = header_text(lines).len() as int;
            &&& first_at(s.skip(at - 9), 0, Stop::LineEnd) == 9
            &&& header_section(s.skip(at), 0) == Some((trimmed_pairs(lines), d))
            &&& s.skip(at + d) == ascii("\r\n") + ascii("\r\n") + after
        }),
{
    let rest = behind_request_line(lines, after);
    let s = request_line(method, path) + rest;
    let at = method.token().len() + 1 + path.len() + 9 as int;
    let d = header_text(lines).len() as int;
    lemma_request_line_end(method, path, rest);
    let w = ascii("\r\n") + header_text(lines) + ascii("\r\n") + after;
    assert(ascii("\r\n") + rest == w) by {
        assert(ascii("\r\n") + rest =~= w);
    }
    lemma_section_before_blank(lines, after);
    lemma_skip_to_blank(lines, after);
    assert(s.len() >= at + d) by {
        assert(s.skip(at).len() == w.len());
        assert(w.len() >= d);
    }
    lemma_skip_twice(s, at, d);
}

/// The parts of a written request, each read where it stands.
#[verifier::rlimit(30)]
proof fn lemma_request_parts(
    method: HttpMethod,
    path: Seq<u8>,
    lines: Seq<(Seq<u8>, Seq<u8>)>,
    after: Seq<u8>,
)
    requires
        method != HttpMethod::Unsupported,
        is_plain_path(path),
        forall|i: int| 0 <= i < lines.len() ==> is_header_pair((#[trigger] lines[i]).0, lines[i].1),
    ensures
        ({
            let s = request_line(method, path) + behind_request_line(lines, after);
            let a = method.token().len() as int;
            let b = 1 + path.len() as int;
            let d = header_text(lines).len() as int;
            &&& method_spec(s) == Ok::<_, ParseError>((method, a))
            &&& path_spec(s.skip(a)) == Ok::<_, ParseError>((path, b))
            &&& first_at(s.skip(a + b), 0, Stop::LineEnd) == 9
            &&& headers_spec(s.skip(a + b + 9)) == Ok::<_, ParseError>((trimmed_pairs(lines), d))
            &&& s.skip(a + b + 9 + d) == ascii("\r\n") + ascii("\r\n") + after
        }),
{
    lemma_request_line_parts(method, path, behind_request_line(lines, after));
    lemma_request_headers(method, path, lines, after);
}

/// The body behind a blank line.
proof fn lemma_body_behind_blank(body: Seq<u8>, tail: Seq<u8>, n: nat)
    ensures
        body_spec(ascii("\r\n") + ascii("\r\n") + body + tail, n) == (if n <= body.len()
            + tail.len() {
            Ok::<_, ParseError>(((body + tail).subrange(0, n as int), 4 + n as int))
        } else {
            Err::<(Seq<u8>, int), _>(ParseError::IncompleteBody)
        }),
{
    reveal_strlit("\r\n");
    let x = ascii("\r\n") + ascii("\r\n") + body + tail;
    assert(line_break_len(x, 0) == 2);
    assert(line_break_len(x, 2) == 2);
    if n <= body.len() + tail.len() {
        assert(x.subrange(4, 4 + n as int) =~= (body + tail).subrange(0, n as int));
    }
}

/// A request whose parts are read, put together.
proof fn lemma_request_of_parts(
    s: Seq<u8>,
    method: HttpMethod,
    a: int,
    path: Seq<u8>,
    b: int,
    entries: Seq<(Seq<u8>, Seq<u8>)>,
    d: int,
    body: Seq<u8>,
    e: int,
)
    requires
        method_spec(s) == Ok::<_, ParseError>((method, a)),
        path_spec(s.skip(a)) == Ok::<_, ParseError>((path, b)),
        headers_spec(s.skip(a + b + first_at(s.skip(a + b), 0, Stop::LineEnd))) == Ok::<
            _,
            ParseError,
        >((entries, d)),
        content_length(to_map(entries)) == body.len(),
        body.len() > 0 ==> body_spec(
            s.skip(a + b + first_at(s.skip(a + b), 0, Stop::LineEnd) + d),
            body.len(),
        ) == Ok::<_, ParseError>((body, e)),
    ensures
        request_spec(s) == Ok::<_, ParseError>(
            (
                RequestView { method, path, headers: to_map(entries), body },
                a + b + first_at(s.skip(a + b), 0, Stop::LineEnd) + d + (if body.len() > 0 {
                    e
                } else {
                    0
                }),
            ),
        ),
{
    reveal(request_spec);
    if body.len() == 0 {
        assert(body =~= Seq::empty());
    }
}

/// A written request is read back as it was written, whatever follows it
/// in the buffer: the verb and the path as supplied, the mapping of the
/// trimmed header pairs, and as body exactly the bytes behind the blank
/// line, as many as the headers announce.
#[verifier::rlimit(30)]
pub proof fn lemma_request_recovered(
    method: HttpMethod,
    path: Seq<u8>,
    lines: Seq<(Seq<u8>, Seq<u8>)>,
    body: Seq<u8>,
    tail: Seq<u8>,
)
    requires
        method != HttpMethod::Unsupported,
        is_plain_path(path),
        forall|i: int| 0 <= i < lines.len() ==> is_header_pair((#[trigger] lines[i]).0, lines[i].1),
        body.len() == content_length(to_map(trimmed_pairs(lines))),
    ensures
        request_spec(request_text(method, path, lines, body) + tail) == Ok::<_, ParseError>(
            (
                RequestView { method, path, headers: to_map(trimmed_pairs(lines)), body },
                request_end(method, path, lines, body),
            ),
        ),
{
    let s = request_text(method, path, lines, body) + tail;
    let after = body + tail;
    assert(s == request_line(method, path) + behind_request_line(lines, after)) by {
        assert(s =~= request_line(method, path) + behind_request_line(lines, after));
    }
    lemma_request_parts(method, path, lines, after);
    lemma_request_line_end(method, path, behind_request_line(lines, after));
    lemma_body_behind_blank(body, tail, body.len());
    assert(ascii("\r\n") + ascii("\r\n") + after == ascii("\r\n") + ascii("\r\n") + body + tail)
        by {
        assert(ascii("\r\n") + ascii("\r\n") + after =~= ascii("\r\n") + ascii("\r\n") + body
            + tail);
    }
    assert(after.subrange(0, body.len() as int) == body) by {
        assert(after.subrange(0, body.len() as int) =~= body);
    }
    lemma_request_of_parts(
        s,
        method,
        method.token().len() as int,
        path,
        1 + path.len() as int,
        trimmed_pairs(lines),
        header_text(lines).len() as int,
        body,
        4 + body.len() as int,
    );
    assert(request_text(method, path, lines, body).len() == request_line(method, path).len()
        + header_text(lines).len() + 2 + body.len()) by {
        reveal_strlit("\r\n");
    }
}

/// A request whose buffer ends before the announced body is complete is
/// rejected.
pub proof fn lemma_short_body_rejected(
    method: HttpMethod,
    path: Seq<u8>,
    lines: Seq<(Seq<u8>, Seq<u8>)>,
    body: Seq<u8>,
)
    requires
        method != HttpMethod::Unsupported,
        is_plain_path(path),
        forall|i: int| 0 <= i < lines.len() ==> is_header_pair((#[trigger] lines[i]).0, lines[i].1),
        body.len() < content_length(to_map(trimmed_pairs(lines))),
    ensures
        request_spec(request_text(method, path, lines, body)) == Err::<(RequestView, int), _>(
            ParseError::IncompleteBody,
        ),
{
    reveal(request_spec);
    let s = request_text(method, path, lines, body);
    assert(s == request_line(method, path) + behind_request_line(lines, body)) by {
        assert(s =~= request_line(method, path) + behind_request_line(lines, body));
    }
    lemma_request_parts(method, path, lines, body);
    lemma_body_behind_blank(body, Seq::empty(), content_length(to_map(trimmed_pairs(lines))));
    assert(ascii("\r\n") + ascii("\r\n") + body + Seq::<u8>::empty() =~= ascii("\r\n") + ascii(
        "\r\n",
    ) + body);
}

/// A request holds a body exactly where its headers announce one, and the
/// body is as long as announced.
pub proof fn lemma_body_as_announced(s: Seq<u8>)
    ensures
        match request_spec(s) {
            Ok((request, _)) => request.body.len() == content_length(request.headers),
            Err(_) => true,
        },
{
    reveal(request_spec);
}

/// The header lines of a response, as pairs of key and value.
pub open spec fn response_pairs(v: ResponseView) -> Seq<(Seq<u8>, Seq<u8>)> {
    (if v.content_type != ContentType::Absent {
        seq![(ascii("Content-Type"), v.content_type.wire_name())]
    } else {
        Seq::empty()
    }) + (if v.body.len() > 0 {
        seq![(ascii("Content-Length"), decimal_digits(v.body.len()))]
    } else {
        Seq::empty()
    })
}

/// The header text of one pair is its header line.
proof fn lemma_text_of_one(pair: (Seq<u8>, Seq<u8>))
    ensures
        header_text(seq![pair]) == header_line(pair.0, pair.1),
{
    let lines = seq![pair];
    assert(lines.drop_first() =~= Seq::empty());
    assert(header_text(lines.drop_first()) =~= Seq::<u8>::empty());
    assert(header_text(lines) =~= header_line(pair.0, pair.1));
}

/// The header text of two pairs is their header lines in order.
proof fn lemma_text_of_two(first: (Seq<u8>, Seq<u8>), second: (Seq<u8>, Seq<u8>))
    ensures
        header_text(seq![first, second]) == header_line(first.0, first.1) + header_line(
            second.0,
            second.1,
        ),
{
    let lines = seq![first, second];
    assert(lines.drop_first() =~= seq![second]);
    lemma_text_of_one(second);
}

/// The header lines of a response are the header text of its pairs.
proof fn lemma_response_text(v: ResponseView)
    ensures
        header_text(response_pairs(v)) == content_type_line(v) + content_length_line(v),
{
    reveal_strlit("Content-Type");
    reveal_strlit("Content-Type: ");
    reveal_strlit("Content-Length");
    reveal_strlit("Content-Length: ");
    reveal_strlit(": ");
    let kind = (ascii("Content-Type"), v.content_type.wire_name());
    let length = (ascii("Content-Length"), decimal_digits(v.body.len()));
    assert(ascii("Content-Type") + ascii(": ") =~= ascii("Content-Type: "));
    assert(ascii("Content-Length") + ascii(": ") =~= ascii("Content-Length: "));
    if v.content_type != ContentType::Absent {
        assert(header_line(kind.0, kind.1) == content_type_line(v));
        if v.body.len() > 0 {
            assert(header_line(length.0, length.1) == content_length_line(v));
            assert(response_pairs(v) =~= seq![kind, length]);
            lemma_text_of_two(kind, length);
        } else {
            assert(response_pairs(v) =~= seq![kind]);
            lemma_text_of_one(kind);
            assert(content_type_line(v) + content_length_line(v) =~= content_type_line(v));
        }
    } else {
        if v.body.len() > 0 {
            assert(header_line(length.0, length.1) == content_length_line(v));
            assert(response_pairs(v) =~= seq![length]);
            lemma_text_of_one(length);
            assert(content_type_line(v) + content_length_line(v) =~= content_length_line(v));
        } else {
            assert(response_pairs(v) =~= Seq::empty());
            assert(content_type_line(v) + content_length_line(v) =~= Seq::<u8>::empty());
        }
    }
}

/// The pairs of a response can be written as header lines, and trimming
/// leaves them as they are.
proof fn lemma_response_pairs(v: ResponseView)
    ensures
        forall|i: int|
            0 <= i < response_pairs(v).len() ==> is_header_pair(
                (#[trigger] response_pairs(v)[i]).0,
                response_pairs(v)[i].1,
            ),
        trimmed_pairs(response_pairs(v)) == response_pairs(v),
{
    reveal_strlit("Content-Type");
    reveal_strlit("Content-Length");
    reveal_strlit("text/plain");
    reveal_strlit("application/octet-stream");
    lemma_decimal_round_trip(v.body.len());
    let digits = decimal_digits(v.body.len());
    assert(is_digit(digits[0]) && is_digit(digits.last()));
    assert(is_header_pair(ascii("Content-Length"), digits)) by {
        assert forall|i: int| 0 <= i < digits.len() implies !is_line_end(#[trigger] digits[i]) by {
            assert(is_digit(digits[i]));
        }
    }
    assert(trim(digits) == digits);
    assert(trim(ascii("Content-Length")) == ascii("Content-Length"));
    assert(trim(ascii("Content-Type")) == ascii("Content-Type"));
    if v.content_type != ContentType::Absent {
        let name = v.content_type.wire_name();
        assert(is_header_pair(ascii("Content-Type"), name));
        assert(trim(name) == name);
    }
    let pairs = response_pairs(v);
    assert forall|i: int| 0 <= i < pairs.len() implies is_header_pair(
        (#[trigger] pairs[i]).0,
        pairs[i].1,
    ) && (trim(pairs[i].0), trim(pairs[i].1)) == pairs[i] by {}
    assert(trimmed_pairs(pairs) =~= pairs);
}

/// The header lines of a response, read as header lines are read in a
/// request, announce exactly the number of bytes of its body: the
/// `Content-Length` entry holds that number where the body is not empty,
/// and is missing where it is.
pub proof fn lemma_response_length_read_back(v: ResponseView)
    ensures
        headers_spec(content_type_line(v) + content_length_line(v)) == Ok::<_, ParseError>(
            (response_pairs(v), text_stop(content_type_line(v) + content_length_line(v))),
        ),
        content_length(to_map(response_pairs(v))) == v.body.len(),
{
    lemma_response_text(v);
    lemma_response_pairs(v);
    lemma_headers_recovered(response_pairs(v));
    reveal_strlit("Content-Type");
    reveal_strlit("Content-Length");
    lemma_decimal_round_trip(v.body.len());
    let kind = (ascii("Content-Type"), v.content_type.wire_name());
    let length = (ascii("Content-Length"), decimal_digits(v.body.len()));
    assert(ascii("Content-Type").len() != ascii("Content-Length").len());
    let none = Seq::<(Seq<u8>, Seq<u8>)>::empty();
    assert(to_map(none) =~= Map::empty());
    assert(seq![kind].drop_last() =~= none);
    assert(seq![length].drop_last() =~= none);
    assert(seq![kind, length].drop_last() =~= seq![kind]);
    if v.content_type != ContentType::Absent {
        if v.body.len() > 0 {
            assert(response_pairs(v) =~= seq![kind, length]);
        } else {
            assert(response_pairs(v) =~= seq![kind]);
        }
    } else {
        if v.body.len() > 0 {
            assert(response_pairs(v) =~= seq![length]);
        } else {
            assert(response_pairs(v) =~= none);
        }
    }
}

} // verus!
