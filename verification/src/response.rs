//! Responses: how they are built, compressed and written out as bytes.

use std::io::Write;
use flate2::write::GzEncoder;
use flate2::Compression;
use vstd::prelude::*;
use crate::body::{crlf, Body};
use crate::headers::{
    as_map, content_length_of, distinct_names, lemma_put, put, ContentEncoding, ContentType, Entry,
    Headers,
};
use crate::request::Request;
use crate::text::{
    append_bytes, append_text, bytes_of, decimal, lemma_decimal_round_trip, lowercase_of,
};

verus! {

/// The outcome that a response reports.
#[derive(Clone, Copy, Debug, PartialEq, Eq, Structural)]
pub enum Status {
    Okay,
    NotFound,
    Created,
    InternalServerError,
}

impl Status {
    /// The three-digit code.
    pub open spec fn code_spec(self) -> u16 {
        match self {
            Status::Okay => 200,
            Status::NotFound => 404,
            Status::Created => 201,
            Status::InternalServerError => 500,
        }
    }

    /// Code and reason phrase as they stand in the status line.
    pub open spec fn text(self) -> Seq<char> {
        match self {
            Status::Okay => "200 OK"@,
            Status::NotFound => "404 Not Found"@,
            Status::Created => "201 Created"@,
            Status::InternalServerError => "500 Internal Server Error"@,
        }
    }

    /// The three-digit code.
    #[verifier::when_used_as_spec(code_spec)]
    pub fn code(self) -> (r: u16)
        ensures
            r == self.code_spec(),
    {
        match self {
            Status::Okay => 200,
            Status::NotFound => 404,
            Status::Created => 201,
            Status::InternalServerError => 500,
        }
    }

    /// Code and reason phrase as they stand in the status line.
    pub fn as_str(&self) -> (r: &'static str)
        ensures
            r@ == self.text(),
    {
        match self {
            Status::Okay => "200 OK",
            Status::NotFound => "404 Not Found",
            Status::Created => "201 Created",
            Status::InternalServerError => "500 Internal Server Error",
        }
    }

    /// Code and reason phrase as they stand in the status line, owned.
    pub fn to_string(&self) -> (r: String)
        ensures
            r@ == self.text(),
    {
        self.as_str().to_owned()
    }
}

/// What a response holds, as plain values.
pub struct ResponseView {
    pub version: Seq<char>,
    pub status: Status,
    pub headers: Seq<Entry>,
    pub body: Seq<u8>,
}

impl ResponseView {
    /// With `body` as a payload of the given type, and its length recorded.
    pub open spec fn with_body(self, content_type: ContentType, body: Seq<u8>) -> ResponseView {
        ResponseView {
            headers: put(
                put(self.headers, "content-type"@, content_type.wire()),
                "content-length"@,
                decimal(body.len()),
            ),
            body,
            ..self
        }
    }

    /// With `compressed` in the place of the payload, marked as gzip, and
    /// the length of `compressed` recorded.
    pub open spec fn with_gzip_body(self, compressed: Seq<u8>) -> ResponseView {
        ResponseView {
            headers: put(
                put(self.headers, "content-encoding"@, ContentEncoding::Gzip.wire()),
                "content-length"@,
                decimal(compressed.len()),
            ),
            body: compressed,
            ..self
        }
    }

    /// The header lines, each with its terminator.
    pub open spec fn header_lines(headers: Seq<Entry>) -> Seq<u8>
        decreases headers.len(),
    {
        if headers.len() == 0 {
            Seq::empty()
        } else {
            Self::header_lines(headers.drop_last()) + bytes_of(headers.last().0) + seq![58u8, 32u8]
                + bytes_of(headers.last().1) + crlf()
        }
    }

    /// Status line, header lines and the empty line that ends them.
    pub open spec fn head(self) -> Seq<u8> {
        bytes_of(self.version) + seq![32u8] + bytes_of(self.status.text()) + crlf()
            + Self::header_lines(self.headers) + crlf()
    }

    /// The response as it goes over the wire: the head, then the payload
    /// byte for byte.
    pub open spec fn wire(self) -> Seq<u8> {
        self.head() + self.body
    }
}

/// The header lines, where there are any, end with a line terminator.
pub proof fn lemma_header_lines_end(headers: Seq<Entry>)
    requires
        headers.len() > 0,
    ensures
        ResponseView::header_lines(headers).len() >= 2,
        ResponseView::header_lines(headers).skip(ResponseView::header_lines(headers).len() - 2)
            == crlf(),
{
    let all = ResponseView::header_lines(headers);
    assert(all.skip(all.len() - 2) =~= crlf());
}

/// What is written out ends with the payload, byte for byte, and what
/// stands before the payload ends with an empty line.
pub proof fn lemma_wire_ends_with_body(r: ResponseView)
    ensures
        r.wire().len() == r.head().len() + r.body.len(),
        r.wire().skip(r.head().len() as int) == r.body,
        r.wire().take(r.head().len() as int) == r.head(),
        r.head().len() >= 4,
        r.head().skip(r.head().len() - 4) == crlf() + crlf(),
{
    let head = r.head();
    assert(r.wire().skip(head.len() as int) =~= r.body);
    assert(r.wire().take(head.len() as int) =~= head);
    let lines = ResponseView::header_lines(r.headers);
    if r.headers.len() > 0 {
        lemma_header_lines_end(r.headers);
        assert(lines.skip(lines.len() - 2) == crlf());
        assert(head.skip(head.len() - 4) =~= lines.skip(lines.len() - 2) + crlf());
    } else {
        assert(head.skip(head.len() - 4) =~= crlf() + crlf());
    }
}

/// The length that is recorded when a payload is installed is the length of
/// that payload, whatever the headers held before.
pub proof fn lemma_length_matches_body(r: ResponseView, content_type: ContentType, body: Seq<u8>)
    requires
        distinct_names(r.headers),
        body.len() <= usize::MAX,
    ensures
        distinct_names(r.with_body(content_type, body).headers),
        content_length_of(r.with_body(content_type, body).headers) == Some(body.len() as usize),
        as_map(r.with_body(content_type, body).headers).contains_key("content-type"@),
        as_map(r.with_body(content_type, body).headers)["content-type"@] == content_type.wire(),
        r.with_body(content_type, body).body == body,
{
    reveal_strlit("content-type");
    reveal_strlit("content-length");
    assert("content-type"@ != "content-length"@) by {
        assert("content-type"@.len() != "content-length"@.len());
    }
    lemma_put(r.headers, "content-type"@, content_type.wire());
    lemma_put(
        put(r.headers, "content-type"@, content_type.wire()),
        "content-length"@,
        decimal(body.len()),
    );
    lemma_decimal_round_trip(body.len() as usize);
}

/// After compression the recorded length is the length of the compressed
/// payload, and the response is marked as gzip.
pub proof fn lemma_length_matches_gzip_body(r: ResponseView, compressed: Seq<u8>)
    requires
        distinct_names(r.headers),
        compressed.len() <= usize::MAX,
    ensures
        distinct_names(r.with_gzip_body(compressed).headers),
        content_length_of(r.with_gzip_body(compressed).headers) == Some(compressed.len() as usize),
        as_map(r.with_gzip_body(compressed).headers).contains_key("content-encoding"@),
        as_map(r.with_gzip_body(compressed).headers)["content-encoding"@]
            == ContentEncoding::Gzip.wire(),
        r.with_gzip_body(compressed).body == compressed,
{
    reveal_strlit("content-encoding");
    reveal_strlit("content-length");
    assert("content-encoding"@ != "content-length"@) by {
        assert("content-encoding"@.len() != "content-length"@.len());
    }
    lemma_put(r.headers, "content-encoding"@, ContentEncoding::Gzip.wire());
    lemma_put(
        put(r.headers, "content-encoding"@, ContentEncoding::Gzip.wire()),
        "content-length"@,
        decimal(compressed.len()),
    );
    lemma_decimal_round_trip(compressed.len() as usize);
}

/// What a negotiation leaves: where the request accepts gzip and the
/// encoder delivered, the payload is the encoder's stream, the response is
/// marked as gzip and the recorded length is the length of the stream; in
/// every other case the response is as it was.
pub proof fn lemma_negotiated(before: ResponseView, accepts_gzip: bool, compressed: Option<Seq<u8>>)
    requires
        distinct_names(before.headers),
        compressed matches Some(stream) ==> stream.len() <= usize::MAX,
    ensures
        !(accepts_gzip && compressed is Some) ==> Response::negotiated(
            before,
            accepts_gzip,
            compressed,
        ) == before,
        accepts_gzip && compressed is Some ==> ({
            let after = Response::negotiated(before, accepts_gzip, compressed);
            &&& after.body == compressed->0
            &&& after.status == before.status
            &&& after.version == before.version
            &&& as_map(after.headers).contains_key("content-encoding"@)
            &&& as_map(after.headers)["content-encoding"@] == ContentEncoding::Gzip.wire()
            &&& content_length_of(after.headers) == Some(compressed->0.len() as usize)
        }),
{
    if accepts_gzip && compressed is Some {
        lemma_length_matches_gzip_body(before, compressed->0);
    }
}

/// What the gzip encoder makes of `data` at its default level: the stream,
/// or nothing where the encoder reports an error.
pub uninterp spec fn gzip_of(data: Seq<u8>) -> Option<Seq<u8>>;

/// Runs `data` through `flate2::write::GzEncoder` at `Compression::default()`
/// into a `Vec` and hands back what `finish` returns, or nothing where
/// `write_all` or `finish` reports an error. The outcome is taken as a
/// function of `data` alone: the header that the encoder writes holds no
/// time stamp and a fixed operating-system byte.
#[verifier::external_body]
pub(crate) fn gzip(data: &[u8]) -> (r: Option<Vec<u8>>)
    ensures
        match r {
            Some(v) => gzip_of(data@) == Some(v@),
            None => gzip_of(data@) is None,
        },
{
    let mut encoder = GzEncoder::new(Vec::new(), Compression::default());
    match encoder.write_all(data) {
        Ok(()) => encoder.finish().ok(),
        Err(_) => None,
    }
}

/// A response under construction.
#[derive(Debug)]
pub struct Response {
    pub version: String,
    pub status: Status,
    pub headers: Headers,
    pub body: Body,
}

impl View for Response {
    type V = ResponseView;

    open spec fn view(&self) -> ResponseView {
        ResponseView {
            version: self.version@,
            status: self.status,
            headers: self.headers.entries(),
            body: self.body@,
        }
    }
}

impl Response {
    /// No header name is stored twice.
    pub open spec fn wf(&self) -> bool {
        self.headers.wf()
    }

    /// A response with status 200, no headers and no payload.
    pub fn new() -> (r: Response)
        ensures
            r.wf(),
            r@ == (ResponseView {
                version: "HTTP/1.1"@,
                status: Status::Okay,
                headers: Seq::empty(),
                body: Seq::empty(),
            }),
    {
        Response {
            version: "HTTP/1.1".to_owned(),
            status: Status::Okay,
            headers: Headers::new(),
            body: Body::new(),
        }
    }

    /// Replaces the status.
    pub fn set_status(&mut self, status: Status)
        ensures
            final(self).wf() == old(self).wf(),
            final(self)@ == (ResponseView { status, ..old(self)@ }),
    {
        self.status = status;
    }

    /// Stores `value` under the lowercase form of `key`.
    pub fn set_header(&mut self, key: String, value: String)
        ensures
            final(self).wf(),
            final(self)@ == (ResponseView {
                headers: put(old(self)@.headers, lowercase_of(key@), value@),
                ..old(self)@
            }),
    {
        self.headers.set(key, value);
    }

    /// Installs `body` as plain text and records its length.
    pub fn set_plain_text_body(&mut self, body: Body)
        ensures
            final(self).wf(),
            final(self)@ == old(self)@.with_body(ContentType::PlainText, body@),
    {
        self.headers.set_content_type(ContentType::PlainText);
        self.headers.set_content_length(body.len());
        self.body = body;
    }

    /// Installs `body` as binary content and records its length.
    pub fn set_file_body(&mut self, body: Body)
        ensures
            final(self).wf(),
            final(self)@ == old(self)@.with_body(ContentType::OctetStream, body@),
    {
        self.headers.set_content_type(ContentType::OctetStream);
        self.headers.set_content_length(body.len());
        self.body = body;
    }

    /// Puts `compressed` in the place of the payload, marks the response as
    /// gzip and records the length of `compressed`.
    pub fn set_gzip_body(&mut self, compressed: Vec<u8>)
        ensures
            final(self).wf(),
            final(self)@ == old(self)@.with_gzip_body(compressed@),
    {
        self.headers.set_content_encoding(ContentEncoding::Gzip);
        self.headers.set_content_length(compressed.len());
        self.body = Body(compressed);
    }

    /// What the response becomes once the encoder has run, or has not:
    /// the payload is replaced where the request accepts gzip and the
    /// encoder delivered, and nothing changes otherwise.
    pub open spec fn negotiated(
        before: ResponseView,
        accepts_gzip: bool,
        compressed: Option<Seq<u8>>,
    ) -> ResponseView {
        match compressed {
            Some(bytes) if accepts_gzip => before.with_gzip_body(bytes),
            _ => before,
        }
    }

    /// Finishes the negotiation with what the encoder delivered.
    pub fn apply_compressed(&mut self, accepts_gzip: bool, compressed: Option<Vec<u8>>)
        ensures
            final(self).wf(),
            final(self)@ == Self::negotiated(
                old(self)@,
                accepts_gzip,
                match compressed {
                    Some(v) => Some(v@),
                    None => None,
                },
            ),
    {
        proof {
            use_type_invariant(&self.headers);
        }
        if accepts_gzip {
            match compressed {
                Some(bytes) => {
                    self.set_gzip_body(bytes);
                },
                None => {},
            }
        }
    }

    /// Compresses the payload where the request accepts gzip: the payload
    /// becomes the encoder's stream of the old payload, the response is
    /// marked as gzip and the length of the stream is recorded. To be called
    /// once for a response: a second call would compress the stream again.
    /// Where the request does not accept gzip, or the encoder reports an
    /// error, the response stays as it is.
    pub fn apply_compression(&mut self, request: &Request)
        ensures
            final(self).wf(),
            final(self)@ == Self::negotiated(
                old(self)@,
                request.accepts_gzip(),
                gzip_of(old(self)@.body),
            ),
    {
        proof {
            use_type_invariant(&self.headers);
        }
        if !request.is_gzip_encoding() {
            return ;
        }
        let compressed = gzip(self.body.0.as_slice());
        self.apply_compressed(true, compressed);
    }

    /// The response as it goes over the wire.
    pub fn to_bytes(&self) -> (r: Vec<u8>)
        ensures
            r@ == self@.wire(),
    {
        let mut buffer: Vec<u8> = Vec::new();
        append_text(&mut buffer, self.version.as_str());
        buffer.push(32u8);
        append_text(&mut buffer, self.status.as_str());
        buffer.push(13u8);
        buffer.push(10u8);
        let ghost line = bytes_of(self.version@) + seq![32u8] + bytes_of(self.status.text())
            + crlf();
        let ghost entries = self.headers.entries();
        assert(buffer@ =~= line);
        assert(entries.take(0) =~= Seq::<Entry>::empty());
        assert(buffer@ =~= line + ResponseView::header_lines(entries.take(0)));
        let n: usize = self.headers.len();
        let mut i: usize = 0;
        while i < n
            invariant
                i <= n,
                n == entries.len(),
                entries == self.headers.entries(),
                buffer@ == line + ResponseView::header_lines(entries.take(i as int)),
            decreases n - i,
        {
            let ghost before = buffer@;
            append_text(&mut buffer, self.headers.name_at(i).as_str());
            buffer.push(58u8);
            buffer.push(32u8);
            append_text(&mut buffer, self.headers.value_at(i).as_str());
            buffer.push(13u8);
            buffer.push(10u8);
            proof {
                let e = entries[i as int];
                assert(entries.take(i + 1).drop_last() =~= entries.take(i as int));
                assert(entries.take(i + 1).last() == e);
                assert(buffer@ =~= before + bytes_of(e.0) + seq![58u8, 32u8] + bytes_of(e.1)
                    + crlf());
                assert(buffer@ =~= line + ResponseView::header_lines(entries.take(i + 1)));
            }
            i += 1;
        }
        assert(entries.take(n as int) =~= entries);
        buffer.push(13u8);
        buffer.push(10u8);
        assert(buffer@ =~= self@.head());
        append_bytes(&mut buffer, self.body.0.as_slice());
        buffer
    }
}

} // verus!
