//! The payload of a request or a response: raw bytes.

use vstd::prelude::*;
use crate::headers::texts;
use crate::text::{append_bytes, append_text, bytes_of};

verus! {

/// Carriage return and line feed, the line terminator of the wire format.
pub open spec fn crlf() -> Seq<u8> {
    seq![13u8, 10u8]
}

/// The encodings of `lines` with a line terminator between each two.
pub open spec fn joined(lines: Seq<Seq<char>>) -> Seq<u8>
    decreases lines.len(),
{
    if lines.len() == 0 {
        Seq::empty()
    } else if lines.len() == 1 {
        bytes_of(lines[0])
    } else {
        joined(lines.drop_last()) + crlf() + bytes_of(lines.last())
    }
}

/// An owned sequence of raw bytes.
#[derive(Debug)]
pub struct Body(pub Vec<u8>);

impl View for Body {
    type V = Seq<u8>;

    open spec fn view(&self) -> Seq<u8> {
        self.0@
    }
}

impl Body {
    /// The empty payload.
    pub fn new() -> (r: Body)
        ensures
            r@ == Seq::<u8>::empty(),
    {
        Body(Vec::new())
    }

    /// The UTF-8 encoding of `s`.
    pub fn from_str(s: &str) -> (r: Body)
        ensures
            r@ == bytes_of(s@),
    {
        let mut body = Body::new();
        body.push_str(s);
        assert(body@ =~= bytes_of(s@));
        body
    }

    /// The lines joined by line terminators, none after the last.
    pub fn from_lines(lines: Vec<String>) -> (r: Body)
        ensures
            r@ == joined(texts(lines@)),
    {
        let mut buffer: Vec<u8> = Vec::new();
        let ghost all = texts(lines@);
        let mut i: usize = 0;
        assert(all.take(0) =~= Seq::<Seq<char>>::empty());
        while i < lines.len()
            invariant
                i <= lines@.len(),
                all == texts(lines@),
                buffer@ == joined(all.take(i as int)),
            decreases lines@.len() - i,
        {
            assert(all.take(i + 1).drop_last() =~= all.take(i as int));
            assert(all.take(i + 1).last() == lines@[i as int]@);
            if i > 0 {
                buffer.push(13u8);
                buffer.push(10u8);
                assert(buffer@ =~= joined(all.take(i as int)) + crlf());
            } else {
                assert(buffer@ + bytes_of(all[0]) =~= bytes_of(all[0]));
            }
            append_text(&mut buffer, lines[i].as_str());
            i += 1;
        }
        assert(all.take(i as int) =~= all);
        Body(buffer)
    }

    /// Appends the UTF-8 encoding of `s`.
    pub fn push_str(&mut self, s: &str)
        ensures
            final(self)@ == old(self)@ + bytes_of(s@),
    {
        append_text(&mut self.0, s);
    }

    /// How many bytes the payload holds.
    pub fn len(&self) -> (n: usize)
        ensures
            n == self@.len(),
    {
        self.0.len()
    }

    /// A copy of the payload.
    pub fn duplicate(&self) -> (r: Body)
        ensures
            r@ == self@,
    {
        let mut bytes: Vec<u8> = Vec::new();
        append_bytes(&mut bytes, self.0.as_slice());
        assert(bytes@ =~= self@);
        Body(bytes)
    }
}

} // verus!
