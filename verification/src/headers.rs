//! The header map: names are folded to lowercase when stored and when looked
//! up, values are kept as given.

use vstd::prelude::*;
use crate::text::{
    decimal, header_name, header_value, lowercase_of, parse_decimal, parse_usize, split_header,
    split_header_line,
    to_lowercase, usize_to_string,
};

verus! {

/// A media type that a response body can be labelled with.
#[derive(Clone, Copy, Debug, PartialEq, Eq, Structural)]
pub enum ContentType {
    PlainText,
    OctetStream,
}

impl ContentType {
    /// The value as it stands on the wire.
    pub open spec fn wire(self) -> Seq<char> {
        match self {
            ContentType::PlainText => "text/plain"@,
            ContentType::OctetStream => "application/octet-stream"@,
        }
    }

    /// The value as it stands on the wire.
    pub fn as_str(&self) -> (r: &'static str)
        ensures
            r@ == self.wire(),
    {
        match self {
            ContentType::PlainText => "text/plain",
            ContentType::OctetStream => "application/octet-stream",
        }
    }

    /// The value as it stands on the wire, owned.
    pub fn to_string(&self) -> (r: String)
        ensures
            r@ == self.wire(),
    {
        self.as_str().to_owned()
    }
}

/// A coding that a response body can be sent in.
#[derive(Clone, Copy, Debug, PartialEq, Eq, Structural)]
pub enum ContentEncoding {
    Gzip,
}

impl ContentEncoding {
    /// The value as it stands on the wire.
    pub open spec fn wire(self) -> Seq<char> {
        match self {
            ContentEncoding::Gzip => "gzip"@,
        }
    }

    /// The value as it stands on the wire.
    pub fn as_str(&self) -> (r: &'static str)
        ensures
            r@ == self.wire(),
    {
        match self {
            ContentEncoding::Gzip => "gzip",
        }
    }

    /// The value as it stands on the wire, owned.
    pub fn to_string(&self) -> (r: String)
        ensures
            r@ == self.wire(),
    {
        self.as_str().to_owned()
    }
}

/// A header as a pair of name and value.
pub type Entry = (Seq<char>, Seq<char>);

/// Whether some entry of `es` has the name `name`.
pub open spec fn has_name(es: Seq<Entry>, name: Seq<char>) -> bool {
    exists|i: int| 0 <= i < es.len() && (#[trigger] es[i]).0 == name
}

/// The position of an entry of `es` with the name `name`.
pub open spec fn position_of(es: Seq<Entry>, name: Seq<char>) -> int {
    choose|i: int| 0 <= i < es.len() && (#[trigger] es[i]).0 == name
}

/// No name occurs twice in `es`.
pub open spec fn distinct_names(es: Seq<Entry>) -> bool {
    forall|i: int, j: int|
        0 <= i < es.len() && 0 <= j < es.len() && (#[trigger] es[i]).0 == (#[trigger] es[j]).0
            ==> i == j
}

/// `es` with `name` bound to `value`: in the place of the entry with that
/// name if there is one, else at the end.
pub open spec fn put(es: Seq<Entry>, name: Seq<char>, value: Seq<char>) -> Seq<Entry> {
    if has_name(es, name) {
        es.update(position_of(es, name), (name, value))
    } else {
        es.push((name, value))
    }
}

/// The mapping from names to values that `es` lists.
pub open spec fn as_map(es: Seq<Entry>) -> Map<Seq<char>, Seq<char>> {
    Map::new(|name: Seq<char>| has_name(es, name), |name: Seq<char>| es[position_of(es, name)].1)
}

/// Binding a name keeps the names distinct and inserts into the mapping.
pub proof fn lemma_put(es: Seq<Entry>, name: Seq<char>, value: Seq<char>)
    requires
        distinct_names(es),
    ensures
        distinct_names(put(es, name, value)),
        as_map(put(es, name, value)) == as_map(es).insert(name, value),
{
    let after = put(es, name, value);
    let p = position_of(es, name);
    assert forall|k: Seq<char>| has_name(after, k) <==> (k == name || has_name(es, k)) by {
        if has_name(after, k) {
            let i = position_of(after, k);
            if k != name {
                assert(es[i].0 == k);
            }
        }
        if k == name {
            if has_name(es, name) {
                assert(after[p].0 == name);
            } else {
                assert(after[es.len() as int].0 == name);
            }
        } else if has_name(es, k) {
            let i = position_of(es, k);
            assert(after[i].0 == k);
        }
    }
    assert forall|i: int, j: int|
        0 <= i < after.len() && 0 <= j < after.len() && (#[trigger] after[i]).0 == (
        #[trigger] after[j]).0 implies i == j by {
        if has_name(es, name) {
            if i != p && j != p {
                assert(es[i].0 == es[j].0);
            } else if i != p {
                assert(es[i].0 == es[p].0);
            } else if j != p {
                assert(es[j].0 == es[p].0);
            }
        } else {
            if i < es.len() && j < es.len() {
                assert(es[i].0 == es[j].0);
            } else if i < es.len() {
                assert(es[i].0 == name);
            } else if j < es.len() {
                assert(es[j].0 == name);
            }
        }
    }
    assert forall|k: Seq<char>| has_name(after, k) implies as_map(after)[k] == as_map(es).insert(
        name,
        value,
    )[k] by {
        let i = position_of(after, k);
        if k == name {
            if has_name(es, name) {
                assert(after[p].0 == name);
                assert(i == p);
            } else {
                assert(after[es.len() as int].0 == name);
                assert(i == es.len());
            }
        } else {
            assert(es[i].0 == k);
            let j = position_of(es, k);
            assert(after[j].0 == k);
            assert(i == j);
        }
    }
    assert(as_map(after) =~= as_map(es).insert(name, value));
}

/// The position of the first empty line at or after `i`, or the number of
/// lines when none is empty.
pub open spec fn block_end(lines: Seq<Seq<char>>, i: int) -> int
    decreases lines.len() - i,
{
    if 0 <= i < lines.len() && lines[i].len() > 0 {
        block_end(lines, i + 1)
    } else {
        i
    }
}

/// The headers that `lines` give, read in order: a line with a separator
/// binds the lowercase form of its name to its value, any other line is
/// passed over.
pub open spec fn entries_of(lines: Seq<Seq<char>>) -> Seq<Entry>
    decreases lines.len(),
{
    if lines.len() == 0 {
        Seq::empty()
    } else {
        let before = entries_of(lines.drop_last());
        match split_header(lines.last()) {
            Some((name, value)) => put(before, lowercase_of(name), value),
            None => before,
        }
    }
}

/// The headers of a block of lines that ends before its first empty line.
pub open spec fn block_entries(lines: Seq<Seq<char>>) -> Seq<Entry> {
    entries_of(lines.take(block_end(lines, 0)))
}

/// The names that a list of lines gives are distinct.
pub proof fn lemma_entries_distinct(lines: Seq<Seq<char>>)
    ensures
        distinct_names(entries_of(lines)),
    decreases lines.len(),
{
    if lines.len() > 0 {
        lemma_entries_distinct(lines.drop_last());
        match split_header(lines.last()) {
            Some((name, value)) => {
                lemma_put(entries_of(lines.drop_last()), lowercase_of(name), value);
            },
            None => {},
        }
    }
}

/// A value that was stored under one spelling of a name is found under
/// every spelling with the same lowercase form.
pub proof fn lemma_lookup_after_store(
    es: Seq<Entry>,
    stored_as: Seq<char>,
    value: Seq<char>,
    asked_as: Seq<char>,
)
    requires
        distinct_names(es),
        lowercase_of(stored_as) == lowercase_of(asked_as),
    ensures
        as_map(put(es, lowercase_of(stored_as), value)).contains_key(lowercase_of(asked_as)),
        as_map(put(es, lowercase_of(stored_as), value))[lowercase_of(asked_as)] == value,
{
    lemma_put(es, lowercase_of(stored_as), value);
}

/// The header of line `i` is found under the lowercase form of its name,
/// with its value, unless a later line gives the same name again.
pub proof fn lemma_line_lookup(lines: Seq<Seq<char>>, i: int)
    requires
        0 <= i < lines.len(),
        split_header(lines[i]) is Some,
        forall|j: int|
            i < j < lines.len() && split_header(#[trigger] lines[j]) is Some ==> lowercase_of(header_name(lines[j])) != lowercase_of(header_name(lines[i])),
    ensures
        as_map(entries_of(lines)).contains_key(lowercase_of(header_name(lines[i]))),
        as_map(entries_of(lines))[lowercase_of(header_name(lines[i]))] == header_value(lines[i]),
    decreases lines.len(),
{
    let before = lines.drop_last();
    lemma_entries_distinct(before);
    if i == lines.len() - 1 {
        let (name, value) = split_header(lines[i])->0;
        lemma_put(entries_of(before), lowercase_of(name), value);
    } else {
        assert(before[i] == lines[i]);
        assert forall|j: int|
            i < j < before.len() && split_header(#[trigger] before[j]) is Some implies lowercase_of(header_name(before[j])) != lowercase_of(header_name(before[i])) by {
            assert(before[j] == lines[j]);
        }
        lemma_line_lookup(before, i);
        match split_header(lines.last()) {
            Some((name, value)) => {
                assert(lines[lines.len() - 1] == lines.last());
                lemma_put(entries_of(before), lowercase_of(name), value);
            },
            None => {},
        }
    }
}

/// The first empty line at or after `i` is not before `i` nor beyond the
/// last line, and no line between the two is empty.
pub proof fn lemma_block_end(lines: Seq<Seq<char>>, i: int)
    requires
        0 <= i <= lines.len(),
    ensures
        i <= block_end(lines, i) <= lines.len(),
        forall|j: int| i <= j < block_end(lines, i) ==> (#[trigger] lines[j]).len() > 0,
        block_end(lines, i) == lines.len() || lines[block_end(lines, i)].len() == 0,
    decreases lines.len() - i,
{
    if i < lines.len() && lines[i].len() > 0 {
        lemma_block_end(lines, i + 1);
    }
}

/// Headers are found whatever case their names have on the wire: in a
/// block of lines, the header of line `i`, which stands before the first
/// empty line, is found under every spelling `asked_as` of its name that
/// has the same lowercase form, unless a later line of the block gives
/// that name again.
pub proof fn lemma_block_lookup(lines: Seq<Seq<char>>, i: int, asked_as: Seq<char>)
    requires
        0 <= i < block_end(lines, 0),
        split_header(lines[i]) is Some,
        lowercase_of(asked_as) == lowercase_of(header_name(lines[i])),
        forall|j: int|
            i < j < block_end(lines, 0) && split_header(#[trigger] lines[j]) is Some
                ==> lowercase_of(header_name(lines[j])) != lowercase_of(header_name(lines[i])),
    ensures
        as_map(block_entries(lines)).contains_key(lowercase_of(asked_as)),
        as_map(block_entries(lines))[lowercase_of(asked_as)] == header_value(lines[i]),
{
    lemma_block_end(lines, 0);
    let block = lines.take(block_end(lines, 0));
    assert(block[i] == lines[i]);
    assert forall|j: int|
        i < j < block.len() && split_header(#[trigger] block[j]) is Some implies lowercase_of(header_name(block[j])) != lowercase_of(header_name(block[i])) by {
        assert(block[j] == lines[j]);
    }
    lemma_line_lookup(block, i);
}

/// The character sequences of a list of strings.
pub open spec fn texts(lines: Seq<String>) -> Seq<Seq<char>> {
    lines.map_values(|l: String| l@)
}

/// The number that `es` give under `content-length`, where there is one
/// that reads as an unsigned decimal.
pub open spec fn content_length_of(es: Seq<Entry>) -> Option<usize> {
    if as_map(es).contains_key("content-length"@) {
        parse_decimal(as_map(es)["content-length"@])
    } else {
        None
    }
}

/// A collection of headers in which no name occurs twice.
#[derive(Debug)]
pub struct Headers {
    entries: Vec<(String, String)>,
}

impl View for Headers {
    type V = Map<Seq<char>, Seq<char>>;

    /// The mapping from stored names to values.
    open spec fn view(&self) -> Map<Seq<char>, Seq<char>> {
        as_map(self.entries())
    }
}

impl Headers {
    /// The headers in the order in which their names were first stored.
    pub closed spec fn entries(&self) -> Seq<Entry> {
        self.entries@.map_values(|e: (String, String)| (e.0@, e.1@))
    }

    /// No name is stored twice. This holds of every collection.
    #[verifier::type_invariant]
    pub open spec fn wf(&self) -> bool {
        distinct_names(self.entries())
    }

    /// An empty collection.
    pub fn new() -> (r: Headers)
        ensures
            r.wf(),
            r.entries() == Seq::<Entry>::empty(),
            r@ == Map::<Seq<char>, Seq<char>>::empty(),
    {
        let r = Headers { entries: Vec::new() };
        assert(r.entries() =~= Seq::<Entry>::empty());
        assert(r@ =~= Map::<Seq<char>, Seq<char>>::empty());
        r
    }

    /// Reads a block of header lines up to its first empty line. A line
    /// without a separator is passed over.
    pub fn from(lines: Vec<String>) -> (r: Headers)
        ensures
            r.wf(),
            r.entries() == block_entries(texts(lines@)),
    {
        let mut headers = Headers::new();
        let ghost all = texts(lines@);
        let mut i: usize = 0;
        assert(all.take(0) =~= Seq::<Seq<char>>::empty());
        while i < lines.len()
            invariant
                i <= lines@.len(),
                all == texts(lines@),
                headers.wf(),
                headers.entries() == entries_of(all.take(i as int)),
                block_end(all, 0) == block_end(all, i as int),
            ensures
                headers.wf(),
                i <= lines@.len(),
                headers.entries() == entries_of(all.take(i as int)),
                block_end(all, 0) == i,
            decreases lines@.len() - i,
        {
            let line: &str = lines[i].as_str();
            assert(line@ == all[i as int]);
            if line.is_empty() {
                break ;
            }
            assert(all.take(i + 1).drop_last() =~= all.take(i as int));
            assert(all.take(i + 1).last() == all[i as int]);
            match split_header_line(line) {
                Some((name, value)) => {
                    headers.set(name, value);
                },
                None => {},
            }
            i += 1;
        }
        headers
    }

    /// How many headers are stored.
    pub fn len(&self) -> (n: usize)
        ensures
            n == self.entries().len(),
    {
        self.entries.len()
    }

    /// The name of the `i`-th header.
    pub fn name_at(&self, i: usize) -> (r: &String)
        requires
            i < self.entries().len(),
        ensures
            r@ == self.entries()[i as int].0,
    {
        &self.entries[i].0
    }

    /// The value of the `i`-th header.
    pub fn value_at(&self, i: usize) -> (r: &String)
        requires
            i < self.entries().len(),
        ensures
            r@ == self.entries()[i as int].1,
    {
        &self.entries[i].1
    }

    /// Where `name` is stored as it stands.
    fn position(&self, name: &str) -> (r: Option<usize>)
        ensures
            match r {
                Some(i) => i < self.entries().len() && self.entries()[i as int].0 == name@
                    && has_name(self.entries(), name@) && position_of(self.entries(), name@) == i,
                None => !has_name(self.entries(), name@),
            },
    {
        proof {
            use_type_invariant(self);
        }
        let mut i: usize = 0;
        while i < self.entries.len()
            invariant
                i <= self.entries@.len(),
                self.wf(),
                forall|j: int| 0 <= j < i ==> (#[trigger] self.entries()[j]).0 != name@,
            decreases self.entries@.len() - i,
        {
            if crate::text::same_text(self.entries[i].0.as_str(), name) {
                proof {
                    let es = self.entries();
                    assert(es[i as int].0 == name@);
                    assert(has_name(es, name@));
                    let p = position_of(es, name@);
                    assert(es[p].0 == es[i as int].0);
                }
                return Some(i);
            }
            i += 1;
        }
        None
    }

    /// Looks `name` up as it stands, without folding its case.
    pub(crate) fn get_exact(&self, name: &str) -> (r: Option<&String>)
        ensures
            match r {
                Some(v) => self@.contains_key(name@) && self@[name@] == v@,
                None => !self@.contains_key(name@),
            },
    {
        match self.position(name) {
            Some(i) => Some(&self.entries[i].1),
            None => None,
        }
    }

    /// Stores `value` under `name` as it stands, without folding its case.
    pub(crate) fn set_exact(&mut self, name: String, value: String)
        ensures
            final(self).wf(),
            final(self).entries() == put(old(self).entries(), name@, value@),
            final(self)@ == old(self)@.insert(name@, value@),
    {
        proof {
            use_type_invariant(&*self);
            lemma_put(self.entries(), name@, value@);
        }
        let found = self.position(name.as_str());
        let mut entries: Vec<(String, String)> = Vec::new();
        core::mem::swap(&mut self.entries, &mut entries);
        match found {
            Some(i) => {
                entries.set(i, (name, value));
            },
            None => {
                entries.push((name, value));
            },
        }
        assert(entries@.map_values(|e: (String, String)| (e.0@, e.1@)) =~= put(
            old(self).entries(),
            name@,
            value@,
        ));
        self.entries = entries;
    }

    /// Stores `value` under the lowercase form of `key`, in the place of an
    /// earlier value under that name if there is one.
    pub fn set(&mut self, key: String, value: String)
        ensures
            final(self).wf(),
            final(self).entries() == put(old(self).entries(), lowercase_of(key@), value@),
            final(self)@ == old(self)@.insert(lowercase_of(key@), value@),
    {
        let name = to_lowercase(key.as_str());
        self.set_exact(name, value);
    }

    /// The value stored under the lowercase form of `key`.
    pub fn get(&self, key: &str) -> (r: Option<&String>)
        ensures
            match r {
                Some(v) => self@.contains_key(lowercase_of(key@)) && self@[lowercase_of(key@)]
                    == v@,
                None => !self@.contains_key(lowercase_of(key@)),
            },
    {
        let name = to_lowercase(key);
        self.get_exact(name.as_str())
    }

    /// Stores the media type under `content-type`.
    pub fn set_content_type(&mut self, content_type: ContentType)
        ensures
            final(self).wf(),
            final(self).entries() == put(
                old(self).entries(),
                "content-type"@,
                content_type.wire(),
            ),
            final(self)@ == old(self)@.insert("content-type"@, content_type.wire()),
    {
        self.set_exact("content-type".to_owned(), content_type.to_string());
    }

    /// Stores `length` in decimal under `content-length`.
    pub fn set_content_length(&mut self, length: usize)
        ensures
            final(self).wf(),
            final(self).entries() == put(
                old(self).entries(),
                "content-length"@,
                decimal(length as nat),
            ),
            final(self)@ == old(self)@.insert("content-length"@, decimal(length as nat)),
    {
        self.set_exact("content-length".to_owned(), usize_to_string(length));
    }

    /// The number under `content-length`, where there is one that reads as
    /// an unsigned decimal.
    pub open spec fn content_length(&self) -> Option<usize> {
        content_length_of(self.entries())
    }

    /// The number under `content-length`.
    pub fn get_content_length(&self) -> (r: Option<usize>)
        ensures
            r == self.content_length(),
    {
        match self.get_exact("content-length") {
            Some(v) => parse_usize(v.as_str()),
            None => None,
        }
    }

    /// Stores the coding under `content-encoding`.
    pub fn set_content_encoding(&mut self, encoding: ContentEncoding)
        ensures
            final(self).wf(),
            final(self).entries() == put(old(self).entries(), "content-encoding"@, encoding.wire()),
            final(self)@ == old(self)@.insert("content-encoding"@, encoding.wire()),
    {
        self.set_exact("content-encoding".to_owned(), encoding.to_string());
    }

    /// The value under `accept-encoding`, as it was stored.
    pub fn get_accept_encoding(&self) -> (r: Option<&String>)
        ensures
            match r {
                Some(v) => self@.contains_key("accept-encoding"@) && self@["accept-encoding"@]
                    == v@,
                None => !self@.contains_key("accept-encoding"@),
            },
    {
        self.get_exact("accept-encoding")
    }

    /// The value under `user-agent`, as it was stored.
    pub fn get_user_agent(&self) -> (r: Option<&String>)
        ensures
            match r {
                Some(v) => self@.contains_key("user-agent"@) && self@["user-agent"@] == v@,
                None => !self@.contains_key("user-agent"@),
            },
    {
        self.get_exact("user-agent")
    }
}

} // verus!
