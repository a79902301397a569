//! Reading a request off the bytes of a connection: lines up to the empty
//! line that ends the head, then as many bytes of payload as the head
//! announces.

use vstd::prelude::*;
use vstd::slice::slice_subrange;
use vstd::utf8::{decode_utf8, valid_utf8};
use crate::body::{crlf, Body};
use crate::headers::{block_entries, content_length_of, texts, Headers};
use crate::request::{
    all_trimmed, parse_request_line, request_line, trim_lines, ParseError, Request, RequestView,
};
use crate::text::append_bytes;

verus! {

/// `std::str::from_utf8` of the standard library, which accepts exactly the
/// byte sequences that are UTF-8 and reads them as the characters they
/// encode.
#[verifier::external_body]
pub(crate) fn decode_text(bytes: &[u8]) -> (r: Option<String>)
    ensures
        match r {
            Some(text) => valid_utf8(bytes@) && text@ == decode_utf8(bytes@),
            None => !valid_utf8(bytes@),
        },
{
    match std::str::from_utf8(bytes) {
        Ok(text) => Some(text.to_owned()),
        Err(_) => None,
    }
}

/// The position after the first line feed at or after `i`.
pub open spec fn line_end(input: Seq<u8>, i: int) -> Option<int>
    decreases input.len() - i,
{
    if i < 0 || i >= input.len() {
        None
    } else if input[i] == 10u8 {
        Some(i + 1)
    } else {
        line_end(input, i + 1)
    }
}

/// A line ends after it starts and within the input.
pub proof fn lemma_line_end_bounds(input: Seq<u8>, i: int)
    ensures
        line_end(input, i) matches Some(e) ==> 0 <= i < e <= input.len(),
    decreases input.len() - i,
{
    if 0 <= i < input.len() && input[i] != 10u8 {
        lemma_line_end_bounds(input, i + 1);
    }
}

/// Finds the end of the line that starts at `i`.
pub fn find_line_end(input: &[u8], i: usize) -> (r: Option<usize>)
    ensures
        match r {
            Some(e) => line_end(input@, i as int) == Some(e as int) && i < e <= input@.len(),
            None => line_end(input@, i as int) is None,
        },
{
    if i > input.len() {
        return None;
    }
    let mut j: usize = i;
    while j < input.len()
        invariant
            i <= j <= input@.len(),
            line_end(input@, i as int) == line_end(input@, j as int),
        decreases input@.len() - j,
    {
        if input[j] == 10u8 {
            return Some(j + 1);
        }
        j += 1;
    }
    None
}

/// Whether `line` is the one that ends the head: a line terminator and
/// nothing else.
pub fn is_crlf(line: &[u8]) -> (r: bool)
    ensures
        r == (line@ == crlf()),
{
    if line.len() == 2 && line[0] == 13u8 && line[1] == 10u8 {
        assert(line@ =~= crlf());
        true
    } else {
        assert(crlf().len() == 2 && crlf()[0] == 13u8 && crlf()[1] == 10u8);
        false
    }
}

/// The outcome of reading header lines: the lines and where the payload
/// starts, or why the reading failed.
pub type Lines = Result<(Seq<Seq<char>>, int), ParseError>;

/// `rest` with the lines `before` put in front.
pub open spec fn after(before: Seq<Seq<char>>, rest: Lines) -> Lines {
    match rest {
        Ok((more, end)) => Ok((before + more, end)),
        Err(e) => Err(e),
    }
}

/// The header lines from position `i` on, each with its terminator, up to
/// the line that ends the head, and the position after that line. The bytes
/// may end before the head does, and a line may fail to be UTF-8; whichever
/// comes first decides.
pub open spec fn header_texts(input: Seq<u8>, i: int) -> Lines
    decreases input.len() - i,
    via header_texts_decreases
{
    match line_end(input, i) {
        None => Err(ParseError::UnexpectedEnd),
        Some(e) => {
            if input.subrange(i, e) == crlf() {
                Ok((Seq::empty(), e))
            } else if !valid_utf8(input.subrange(i, e)) {
                Err(ParseError::InvalidEncoding)
            } else {
                after(seq![decode_utf8(input.subrange(i, e))], header_texts(input, e))
            }
        },
    }
}

/// The rest of the head is shorter than the head.
#[via_fn]
proof fn header_texts_decreases(input: Seq<u8>, i: int) {
    lemma_line_end_bounds(input, i);
}

/// Reads header lines from position `start` on.
pub fn read_header_lines(input: &[u8], start: usize) -> (r: Result<(Vec<String>, usize), ParseError>)
    ensures
        match r {
            Ok((lines, end)) => header_texts(input@, start as int) == Ok::<_, ParseError>(
                (texts(lines@), end as int),
            ) && start < end <= input@.len(),
            Err(e) => header_texts(input@, start as int) == Err::<(Seq<Seq<char>>, int), _>(e),
        },
{
    let mut lines: Vec<String> = Vec::new();
    let mut i: usize = start;
    proof {
        assert(texts(lines@) =~= Seq::<Seq<char>>::empty());
        match header_texts(input@, start as int) {
            Ok((more, end)) => {
                assert(Seq::<Seq<char>>::empty() + more =~= more);
            },
            Err(_) => {},
        }
    }
    loop
        invariant
            start <= i,
            lines@.len() > 0 ==> i <= input@.len(),
            lines@.len() > 0 ==> start < i,
            header_texts(input@, start as int) == after(
                texts(lines@),
                header_texts(input@, i as int),
            ),
        decreases input@.len() + 1 - i,
    {
        match find_line_end(input, i) {
            None => {
                return Err(ParseError::UnexpectedEnd);
            },
            Some(e) => {
                let raw = slice_subrange(input, i, e);
                if is_crlf(raw) {
                    proof {
                        assert(texts(lines@) + Seq::<Seq<char>>::empty() =~= texts(lines@));
                    }
                    return Ok((lines, e));
                }
                match decode_text(raw) {
                    None => {
                        return Err(ParseError::InvalidEncoding);
                    },
                    Some(text) => {
                        let ghost before = texts(lines@);
                        lines.push(text);
                        proof {
                            assert(texts(lines@) =~= before + seq![text@]);
                            match header_texts(input@, e as int) {
                                Ok((more, end)) => {
                                    assert(before + (seq![text@] + more) =~= (before + seq![
                                        text@,
                                    ]) + more);
                                },
                                Err(_) => {},
                            }
                        }
                        i = e;
                    },
                }
            },
        }
    }
}

/// How many bytes of payload the headers announce: the number under
/// `content-length`, or none where that header is missing or does not read
/// as a number.
pub open spec fn payload_len(headers: &Headers) -> usize {
    match headers.content_length() {
        Some(n) => n,
        None => 0,
    }
}

/// How many bytes of payload the headers announce.
pub fn body_length(headers: &Headers) -> (n: usize)
    ensures
        n == payload_len(headers),
{
    match headers.get_content_length() {
        Some(n) => n,
        None => 0,
    }
}

/// The request that `input` begins with. The first line gives method, path
/// and version; the lines after it, each taken without its trailing white
/// space, give the headers; the payload is as many bytes after the head as
/// the headers announce, whatever they hold. Bytes after the payload are
/// not looked at.
pub open spec fn parsed(input: Seq<u8>) -> Result<RequestView, ParseError> {
    match line_end(input, 0) {
        None => Err(ParseError::UnexpectedEnd),
        Some(e) => {
            let first = input.subrange(0, e);
            if !valid_utf8(first) {
                Err(ParseError::InvalidEncoding)
            } else {
                match request_line(decode_utf8(first)) {
                    Err(err) => Err(err),
                    Ok((method, path, version)) => match header_texts(input, e) {
                        Err(err) => Err(err),
                        Ok((lines, body_start)) => {
                            let headers = block_entries(all_trimmed(lines));
                            let n: int = match content_length_of(headers) {
                                Some(n) => n as int,
                                None => 0,
                            };
                            if body_start + n > input.len() {
                                Err(ParseError::UnexpectedEnd)
                            } else {
                                Ok(
                                    RequestView {
                                        method,
                                        path,
                                        version,
                                        headers,
                                        body: input.subrange(body_start, body_start + n),
                                    },
                                )
                            }
                        },
                    },
                }
            }
        },
    }
}

/// Reads the request that `input` begins with.
pub fn parse_request(input: &[u8]) -> (r: Result<Request, ParseError>)
    ensures
        match r {
            Ok(request) => parsed(input@) == Ok::<_, ParseError>(request@)
                && request.headers.wf(),
            Err(e) => parsed(input@) == Err::<RequestView, _>(e),
        },
{
    let e = match find_line_end(input, 0) {
        Some(e) => e,
        None => {
            return Err(ParseError::UnexpectedEnd);
        },
    };
    let first = match decode_text(slice_subrange(input, 0, e)) {
        Some(text) => text,
        None => {
            return Err(ParseError::InvalidEncoding);
        },
    };
    let (method, path, version) = match parse_request_line(first.as_str()) {
        Ok(parts) => parts,
        Err(err) => {
            return Err(err);
        },
    };
    let (lines, body_start) = match read_header_lines(input, e) {
        Ok(found) => found,
        Err(err) => {
            return Err(err);
        },
    };
    let headers = Headers::from(trim_lines(&lines));
    let n = body_length(&headers);
    if n > input.len() - body_start {
        return Err(ParseError::UnexpectedEnd);
    }
    let mut body: Vec<u8> = Vec::new();
    append_bytes(&mut body, slice_subrange(input, body_start, body_start + n));
    assert(body@ =~= input@.subrange(body_start as int, body_start + n));
    Ok(Request::new(method, path, version, headers, Body(body)))
}

/// Bytes that arrive later do not move the end of a line that is complete.
pub proof fn lemma_line_end_extends(input: Seq<u8>, more: Seq<u8>, i: int)
    requires
        line_end(input, i) is Some,
    ensures
        line_end(input + more, i) == line_end(input, i),
    decreases input.len() - i,
{
    if 0 <= i < input.len() {
        assert((input + more)[i] == input[i]);
        if input[i] != 10u8 {
            lemma_line_end_extends(input, more, i + 1);
        }
    }
}

/// The head ends after it starts and within the input.
pub proof fn lemma_header_texts_bounds(input: Seq<u8>, i: int)
    ensures
        header_texts(input, i) matches Ok((_, end)) ==> 0 <= i < end <= input.len(),
    decreases input.len() - i,
{
    lemma_line_end_bounds(input, i);
    match line_end(input, i) {
        None => {},
        Some(e) => {
            let raw = input.subrange(i, e);
            if raw != crlf() && valid_utf8(raw) {
                lemma_header_texts_bounds(input, e);
            }
        },
    }
}

/// Bytes that arrive later do not change header lines that were read to
/// their end, nor an encoding error that was met.
pub proof fn lemma_header_texts_extends(input: Seq<u8>, more: Seq<u8>, i: int)
    requires
        header_texts(input, i) != Err::<(Seq<Seq<char>>, int), _>(ParseError::UnexpectedEnd),
    ensures
        header_texts(input + more, i) == header_texts(input, i),
    decreases input.len() - i,
{
    lemma_line_end_bounds(input, i);
    match line_end(input, i) {
        None => {},
        Some(e) => {
            lemma_line_end_extends(input, more, i);
            let raw = input.subrange(i, e);
            assert((input + more).subrange(i, e) =~= raw);
            if raw != crlf() && valid_utf8(raw) {
                lemma_header_texts_extends(input, more, e);
            }
        },
    }
}

/// What was read from a connection stays as it is when more bytes arrive:
/// unless the bytes so far end before the request does, the request, or the
/// error, is the same with any bytes after them.
pub proof fn lemma_parsed_extends(input: Seq<u8>, more: Seq<u8>)
    requires
        parsed(input) != Err::<RequestView, _>(ParseError::UnexpectedEnd),
    ensures
        parsed(input + more) == parsed(input),
{
    lemma_line_end_bounds(input, 0);
    match line_end(input, 0) {
        None => {},
        Some(e) => {
            lemma_line_end_extends(input, more, 0);
            let first = input.subrange(0, e);
            assert((input + more).subrange(0, e) =~= first);
            if valid_utf8(first) && request_line(decode_utf8(first)) is Ok {
                lemma_header_texts_bounds(input, e);
                lemma_header_texts_extends(input, more, e);
                match header_texts(input, e) {
                    Err(_) => {},
                    Ok((lines, body_start)) => {
                        let headers = block_entries(all_trimmed(lines));
                        let n: int = match content_length_of(headers) {
                            Some(n) => n as int,
                            None => 0,
                        };
                        if body_start + n <= input.len() {
                            assert((input + more).subrange(body_start, body_start + n)
                                =~= input.subrange(body_start, body_start + n));
                        }
                    },
                }
            }
        },
    }
}

} // verus!
