//! Requests and the reading of their first line.

use vstd::prelude::*;
use crate::body::Body;
use crate::headers::{texts, Entry, Headers};
use crate::text::{
    is_space, lemma_spaces_run, lemma_word_run, occurs, same_text, scan_spaces, scan_word,
    to_chars, trim_end, trimmed, word, word_start,
};

verus! {

/// Why a request could not be read.
#[derive(Clone, Copy, Debug, PartialEq, Eq, Structural)]
pub enum ParseError {
    /// The first line has fewer than three words.
    MalformedRequestLine,
    /// The first word of the first line is no method that is served.
    UnknownMethod,
    /// The bytes end before the request does.
    UnexpectedEnd,
    /// A line of the head is not UTF-8.
    InvalidEncoding,
}

impl ParseError {
    /// A short description of the error.
    pub open spec fn text(self) -> Seq<char> {
        match self {
            ParseError::MalformedRequestLine => "malformed request line"@,
            ParseError::UnknownMethod => "invalid method"@,
            ParseError::UnexpectedEnd => "request ends early"@,
            ParseError::InvalidEncoding => "request head is not valid UTF-8"@,
        }
    }

    /// A short description of the error.
    pub fn message(&self) -> (r: &'static str)
        ensures
            r@ == self.text(),
    {
        match self {
            ParseError::MalformedRequestLine => "malformed request line",
            ParseError::UnknownMethod => "invalid method",
            ParseError::UnexpectedEnd => "request ends early",
            ParseError::InvalidEncoding => "request head is not valid UTF-8",
        }
    }
}

/// The methods that are served.
#[derive(Clone, Copy, Debug, PartialEq, Eq, Structural)]
pub enum Method {
    Get,
    Post,
}

impl Method {
    /// The method that a word of the request line names.
    pub open spec fn of_token(s: Seq<char>) -> Option<Method> {
        if s == "GET"@ {
            Some(Method::Get)
        } else if s == "POST"@ {
            Some(Method::Post)
        } else {
            None
        }
    }

    /// Reads a method: `GET` or `POST`, in capitals, and nothing else.
    pub fn from_str(s: &str) -> (r: Result<Method, ParseError>)
        ensures
            match r {
                Ok(m) => Method::of_token(s@) == Some(m),
                Err(e) => Method::of_token(s@) is None && e == ParseError::UnknownMethod,
            },
    {
        if same_text(s, "GET") {
            Ok(Method::Get)
        } else if same_text(s, "POST") {
            Ok(Method::Post)
        } else {
            Err(ParseError::UnknownMethod)
        }
    }
}

/// What the first line of a request holds, where it is well formed: the
/// method that its first word names, and its second and third word as they
/// stand.
pub open spec fn request_line(line: Seq<char>) -> Result<(Method, Seq<char>, Seq<char>), ParseError> {
    if word(line, 2) is None {
        Err(ParseError::MalformedRequestLine)
    } else {
        match Method::of_token(word(line, 0)->0) {
            Some(m) => Ok((m, word(line, 1)->0, word(line, 2)->0)),
            None => Err(ParseError::UnknownMethod),
        }
    }
}

/// Whether `s` is a word: not empty and free of white space.
pub open spec fn is_word(s: Seq<char>) -> bool {
    s.len() > 0 && forall|k: int| 0 <= k < s.len() ==> !is_space(#[trigger] s[k])
}

/// Whether `s` is white space throughout.
pub open spec fn is_blank(s: Seq<char>) -> bool {
    forall|k: int| 0 <= k < s.len() ==> is_space(#[trigger] s[k])
}

/// A line of exactly three words, however they are spaced, reads as these
/// three words: the second and the third are path and version as they
/// stand, and the first decides the method.
pub proof fn lemma_three_words(
    lead: Seq<char>,
    method: Seq<char>,
    gap1: Seq<char>,
    path: Seq<char>,
    gap2: Seq<char>,
    version: Seq<char>,
    tail: Seq<char>,
)
    requires
        is_word(method),
        is_word(path),
        is_word(version),
        is_blank(lead),
        is_blank(tail),
        is_blank(gap1) && gap1.len() > 0,
        is_blank(gap2) && gap2.len() > 0,
    ensures
        ({
            let line = lead + method + gap1 + path + gap2 + version + tail;
            &&& word(line, 0) == Some(method)
            &&& word(line, 1) == Some(path)
            &&& word(line, 2) == Some(version)
            &&& word(line, 3) is None
            &&& request_line(line) == match Method::of_token(method) {
                Some(m) => Ok::<_, ParseError>((m, path, version)),
                None => Err(ParseError::UnknownMethod),
            }
        }),
{
    let line = lead + method + gap1 + path + gap2 + version + tail;
    let a0 = lead.len() as int;
    let b0 = a0 + method.len();
    let a1 = b0 + gap1.len();
    let b1 = a1 + path.len();
    let a2 = b1 + gap2.len();
    let b2 = a2 + version.len();
    let n = b2 + tail.len();
    assert(line.len() == n);
    assert forall|k: int| 0 <= k < a0 implies is_space(#[trigger] line[k]) by {
        assert(line[k] == lead[k]);
    }
    assert forall|k: int| a0 <= k < b0 implies !is_space(#[trigger] line[k]) by {
        assert(line[k] == method[k - a0]);
    }
    assert forall|k: int| b0 <= k < a1 implies is_space(#[trigger] line[k]) by {
        assert(line[k] == gap1[k - b0]);
    }
    assert forall|k: int| a1 <= k < b1 implies !is_space(#[trigger] line[k]) by {
        assert(line[k] == path[k - a1]);
    }
    assert forall|k: int| b1 <= k < a2 implies is_space(#[trigger] line[k]) by {
        assert(line[k] == gap2[k - b1]);
    }
    assert forall|k: int| a2 <= k < b2 implies !is_space(#[trigger] line[k]) by {
        assert(line[k] == version[k - a2]);
    }
    assert forall|k: int| b2 <= k < n implies is_space(#[trigger] line[k]) by {
        assert(line[k] == tail[k - b2]);
    }
    lemma_spaces_run(line, 0, a0);
    lemma_word_run(line, a0, b0);
    lemma_spaces_run(line, b0, a1);
    lemma_word_run(line, a1, b1);
    lemma_spaces_run(line, b1, a2);
    lemma_word_run(line, a2, b2);
    lemma_spaces_run(line, b2, n);
    assert(word_start(line, 0) == a0);
    assert(word_start(line, 1) == a1) by {
        reveal_with_fuel(word_start, 2);
    }
    assert(word_start(line, 2) == a2) by {
        reveal_with_fuel(word_start, 3);
    }
    assert(word_start(line, 3) == n) by {
        reveal_with_fuel(word_start, 4);
    }
    assert(line.subrange(a0, b0) =~= method);
    assert(line.subrange(a1, b1) =~= path);
    assert(line.subrange(a2, b2) =~= version);
}

/// Reads method, path and version off the first line of a request. Words
/// after the third are not looked at.
pub fn parse_request_line(line: &str) -> (r: Result<(Method, String, String), ParseError>)
    ensures
        match r {
            Ok((m, p, v)) => request_line(line@) == Ok::<_, ParseError>((m, p@, v@)),
            Err(e) => request_line(line@) == Err::<(Method, Seq<char>, Seq<char>), _>(e),
        },
{
    let chars = to_chars(line);
    let n: usize = chars.len();
    let a0 = scan_spaces(&chars, 0);
    let b0 = scan_word(&chars, a0);
    let a1 = scan_spaces(&chars, b0);
    let b1 = scan_word(&chars, a1);
    let a2 = scan_spaces(&chars, b1);
    let b2 = scan_word(&chars, a2);
    proof {
        assert(word_start(line@, 0) == a0);
        assert(word_start(line@, 1) == a1) by {
            reveal_with_fuel(word_start, 2);
        }
        assert(word_start(line@, 2) == a2) by {
            reveal_with_fuel(word_start, 3);
        }
    }
    if a2 >= n {
        return Err(ParseError::MalformedRequestLine);
    }
    let method = Method::from_str(line.substring_char(a0, b0))?;
    let path = line.substring_char(a1, b1).to_owned();
    let version = line.substring_char(a2, b2).to_owned();
    Ok((method, path, version))
}

/// A parsed request.
#[derive(Debug)]
pub struct Request {
    pub method: Method,
    pub path: String,
    pub version: String,
    pub headers: Headers,
    pub body: Body,
}

/// What a request holds, as plain values.
pub struct RequestView {
    pub method: Method,
    pub path: Seq<char>,
    pub version: Seq<char>,
    pub headers: Seq<Entry>,
    pub body: Seq<u8>,
}

impl View for Request {
    type V = RequestView;

    open spec fn view(&self) -> RequestView {
        RequestView {
            method: self.method,
            path: self.path@,
            version: self.version@,
            headers: self.headers.entries(),
            body: self.body@,
        }
    }
}

impl Request {
    /// A request of these parts.
    pub fn new(method: Method, path: String, version: String, headers: Headers, body: Body) -> (r:
        Request)
        ensures
            r.method == method,
            r.path == path,
            r.version == version,
            r.headers == headers,
            r.body == body,
    {
        Request { method, path, version, headers, body }
    }

    /// Whether the request names gzip among the codings it accepts.
    pub open spec fn accepts_gzip(&self) -> bool {
        self.headers@.contains_key("accept-encoding"@) && occurs(
            self.headers@["accept-encoding"@],
            "gzip"@,
        )
    }

    /// Whether the value under `accept-encoding` holds `gzip` somewhere.
    pub fn is_gzip_encoding(&self) -> (r: bool)
        ensures
            r == self.accepts_gzip(),
    {
        match self.headers.get_accept_encoding() {
            Some(encoding) => crate::text::contains(encoding.as_str(), "gzip"),
            None => false,
        }
    }
}

/// Each line without its trailing white space.
pub open spec fn all_trimmed(lines: Seq<Seq<char>>) -> Seq<Seq<char>> {
    lines.map_values(|l: Seq<char>| trimmed(l))
}

/// Removes the trailing white space of each line.
pub fn trim_lines(lines: &Vec<String>) -> (r: Vec<String>)
    ensures
        texts(r@) == all_trimmed(texts(lines@)),
{
    let mut out: Vec<String> = Vec::new();
    let mut i: usize = 0;
    while i < lines.len()
        invariant
            i <= lines@.len(),
            out@.len() == i,
            forall|j: int| 0 <= j < i ==> (#[trigger] out@[j])@ == trimmed(lines@[j]@),
        decreases lines@.len() - i,
    {
        out.push(trim_end(lines[i].as_str()));
        i += 1;
    }
    assert(texts(out@) =~= all_trimmed(texts(lines@)));
    out
}

} // verus!
