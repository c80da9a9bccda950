//! Runs of bytes of one class, the building block of the markup scanners.

use vstd::prelude::*;

use crate::text::stands_at;

verus! {

/// A class of bytes.
#[derive(Debug, Clone, Copy, PartialEq, Eq, Structural)]
pub enum ByteClass {
    /// ASCII white space.
    Space,
    /// ASCII white space or a slash.
    SpaceOrSlash,
    /// ASCII white space or a comma.
    SpaceOrComma,
    /// What an element name is made of.
    TagName,
    /// What an attribute name is made of.
    AttributeName,
    /// Anything but a slash or a closing angle bracket.
    NotTagClose,
    /// Anything but one byte.
    Not(u8),
    Letter,
    Digit,
}

pub open spec fn is_space(byte: u8) -> bool {
    byte == 0x20 || byte == 0x09 || byte == 0x0a || byte == 0x0c || byte == 0x0d
}

impl ByteClass {
    pub open spec fn holds(self, byte: u8) -> bool {
        match self {
            ByteClass::Space => is_space(byte),
            ByteClass::SpaceOrSlash => is_space(byte) || byte == 0x2f,
            ByteClass::SpaceOrComma => is_space(byte) || byte == 0x2c,
            ByteClass::TagName => !is_space(byte) && byte != 0x2f && byte != 0x3e,
            ByteClass::AttributeName => !is_space(byte) && byte != 0x3d && byte != 0x2f && byte
                != 0x3e,
            ByteClass::NotTagClose => byte != 0x2f && byte != 0x3e,
            ByteClass::Not(other) => byte != other,
            ByteClass::Letter => 0x41 <= byte <= 0x5a || 0x61 <= byte <= 0x7a,
            ByteClass::Digit => 0x30 <= byte <= 0x39,
        }
    }

    fn accepts(self, byte: u8) -> (res: bool)
        ensures
            res == self.holds(byte),
    {
        let space = byte == 0x20 || byte == 0x09 || byte == 0x0a || byte == 0x0c || byte == 0x0d;
        match self {
            ByteClass::Space => space,
            ByteClass::SpaceOrSlash => space || byte == 0x2f,
            ByteClass::SpaceOrComma => space || byte == 0x2c,
            ByteClass::TagName => !space && byte != 0x2f && byte != 0x3e,
            ByteClass::AttributeName => !space && byte != 0x3d && byte != 0x2f && byte != 0x3e,
            ByteClass::NotTagClose => byte != 0x2f && byte != 0x3e,
            ByteClass::Not(other) => byte != other,
            ByteClass::Letter => (0x41 <= byte && byte <= 0x5a) || (0x61 <= byte && byte <= 0x7a),
            ByteClass::Digit => 0x30 <= byte && byte <= 0x39,
        }
    }
}

/// Where the run of bytes of `class` that starts at `from` ends.
pub open spec fn run_end(bytes: Seq<u8>, from: int, class: ByteClass) -> int
    decreases bytes.len() - from,
{
    if from < bytes.len() && class.holds(bytes[from]) {
        run_end(bytes, from + 1, class)
    } else {
        from
    }
}

/// A run ends no earlier than it starts, holds bytes of its class only, and is
/// followed by a byte of another class or by nothing.
pub proof fn lemma_run_end(bytes: Seq<u8>, from: int, class: ByteClass)
    ensures
        from <= run_end(bytes, from, class),
        from <= bytes.len() ==> run_end(bytes, from, class) <= bytes.len(),
        from > bytes.len() ==> run_end(bytes, from, class) == from,
        forall|i: int| from <= i < run_end(bytes, from, class) ==> class.holds(#[trigger] bytes[i]),
        run_end(bytes, from, class) < bytes.len() ==> !class.holds(
            bytes[run_end(bytes, from, class)],
        ),
        from < bytes.len() && class.holds(bytes[from]) ==> from < run_end(bytes, from, class),
    decreases bytes.len() - from,
{
    if from < bytes.len() && class.holds(bytes[from]) {
        lemma_run_end(bytes, from + 1, class);
    }
}

/// A run is where its class holds, so what is known to be one is the one.
pub proof fn lemma_run_end_is(bytes: Seq<u8>, from: int, class: ByteClass, end: int)
    requires
        from <= end <= bytes.len(),
        forall|i: int| from <= i < end ==> class.holds(#[trigger] bytes[i]),
        end < bytes.len() ==> !class.holds(bytes[end]),
    ensures
        run_end(bytes, from, class) == end,
    decreases end - from,
{
    if from < end {
        assert(class.holds(bytes[from]));
        lemma_run_end_is(bytes, from + 1, class, end);
    }
}

/// A run that ends in front of something else ends there whatever follows.
pub proof fn lemma_run_in_front(front: Seq<u8>, back: Seq<u8>, from: int, class: ByteClass)
    requires
        0 <= from,
        run_end(front, from, class) < front.len(),
    ensures
        run_end(front + back, from, class) == run_end(front, from, class),
    decreases front.len() - from,
{
    lemma_run_end(front, from, class);
    assert((front + back)[from] == front[from]);
    if class.holds(front[from]) {
        lemma_run_in_front(front, back, from + 1, class);
    }
}

/// What stands in front of a run does not matter to it.
pub proof fn lemma_run_behind(front: Seq<u8>, back: Seq<u8>, from: int, class: ByteClass)
    requires
        0 <= from,
    ensures
        run_end(front + back, front.len() + from, class) == front.len() + run_end(
            back,
            from,
            class,
        ),
    decreases back.len() - from,
{
    if from < back.len() {
        assert((front + back)[front.len() + from] == back[from]);
        if class.holds(back[from]) {
            lemma_run_behind(front, back, from + 1, class);
        }
    }
}

/// A run that does not end in front goes on behind it.
pub proof fn lemma_run_goes_on(front: Seq<u8>, back: Seq<u8>, from: int, class: ByteClass)
    requires
        0 <= from <= front.len(),
        run_end(front, from, class) >= front.len(),
    ensures
        run_end(front + back, from, class) == front.len() + run_end(back, 0, class),
    decreases front.len() - from,
{
    if from < front.len() {
        assert((front + back)[from] == front[from]);
        assert(class.holds(front[from]));
        lemma_run_goes_on(front, back, from + 1, class);
    } else {
        lemma_run_behind(front, back, 0, class);
    }
}

/// Where the run of bytes of `class` that starts at `from` ends.
pub fn skip_run(bytes: &[u8], from: usize, class: ByteClass) -> (res: usize)
    ensures
        res == run_end(bytes@, from as int, class),
        from <= res,
        from <= bytes@.len() ==> res <= bytes@.len(),
{
    let mut at: usize = from;
    while at < bytes.len() && class.accepts(bytes[at])
        invariant
            from <= at,
            from <= bytes@.len() ==> at <= bytes@.len(),
            run_end(bytes@, from as int, class) == run_end(bytes@, at as int, class),
        decreases bytes@.len() - at,
    {
        at = at + 1;
    }
    at
}

// ---------------------------------------------------------------------------
// ASCII texts
// ---------------------------------------------------------------------------

/// The bytes of an ASCII text.
pub open spec fn ascii(text: Seq<char>) -> Seq<u8> {
    text.map_values(|c: char| c as u8)
}

/// The bytes of an ASCII text.
pub fn ascii_bytes(text: &str) -> (res: Vec<u8>)
    ensures
        res@ == ascii(text@),
{
    let mut res: Vec<u8> = Vec::new();
    for c in it: text.chars()
        invariant
            res@ == ascii(it.seq()).take(it.index()),
            it.seq() == text@,
    {
        res.push(c as u8);
    }
    assert(res@ =~= ascii(text@));
    res
}

/// Whether `part` stands in `bytes` from `from` on.
pub fn bytes_stand_at(bytes: &[u8], part: &[u8], from: usize) -> (res: bool)
    requires
        from <= bytes@.len(),
    ensures
        res == stands_at(bytes@, part@, from as int),
{
    if part.len() > bytes.len() - from {
        return false;
    }
    let len: usize = bytes.len();
    for i in 0..part.len()
        invariant
            len == bytes@.len(),
            from + part@.len() <= len,
            forall|k: int| 0 <= k < i ==> bytes@[from + k] == part@[k],
    {
        if bytes[from + i] != part[i] {
            assert(bytes@.subrange(from as int, from + part@.len())[i as int] != part@[i as int]);
            return false;
        }
    }
    assert(bytes@.subrange(from as int, from + part@.len()) =~= part@);
    true
}

/// Whether the bytes from `from` up to `to` are `part`.
pub fn range_is(bytes: &[u8], from: usize, to: usize, part: &[u8]) -> (res: bool)
    requires
        from <= to <= bytes@.len(),
    ensures
        res == (bytes@.subrange(from as int, to as int) == part@),
{
    if part.len() != to - from {
        return false;
    }
    bytes_stand_at(bytes, part, from)
}

/// The last place at or before `from` where `part` stands.
pub open spec fn last_at(bytes: Seq<u8>, part: Seq<u8>, from: int) -> Option<int>
    decreases from + 1,
{
    if from < 0 {
        None
    } else if stands_at(bytes, part, from) {
        Some(from)
    } else {
        last_at(bytes, part, from - 1)
    }
}

/// The last place where `part` stands in `bytes`.
pub fn rfind(bytes: &[u8], part: &[u8]) -> (res: Option<usize>)
    ensures
        match res {
            Some(at) => last_at(bytes@, part@, bytes@.len() as int) == Some(at as int),
            None => last_at(bytes@, part@, bytes@.len() as int) is None,
        },
        res matches Some(at) ==> at + part@.len() <= bytes@.len(),
{
    let mut from: usize = bytes.len();
    loop
        invariant
            from <= bytes@.len(),
            last_at(bytes@, part@, bytes@.len() as int) == last_at(bytes@, part@, from as int),
        decreases from,
    {
        if bytes_stand_at(bytes, part, from) {
            return Some(from);
        }
        if from == 0 {
            assert(last_at(bytes@, part@, -1) is None);
            return None;
        }
        from = from - 1;
    }
}

/// What the classes of bytes are: white space is the five ASCII characters for it, letters and
/// digits are those of ASCII, and names end at white space and at the marks of a tag.
pub proof fn law_classes_are_what_they_are_called(byte: u8)
    ensures
        ByteClass::Space.holds(byte) <==> byte == 9 || byte == 10 || byte == 12 || byte == 13
            || byte == 32,
        ByteClass::SpaceOrComma.holds(byte) <==> ByteClass::Space.holds(byte) || byte == 44,
        ByteClass::SpaceOrSlash.holds(byte) <==> ByteClass::Space.holds(byte) || byte == 47,
        ByteClass::TagName.holds(byte) <==> !ByteClass::Space.holds(byte) && byte != 47 && byte
            != 62,
        ByteClass::AttributeName.holds(byte) <==> ByteClass::TagName.holds(byte) && byte != 61,
        ByteClass::NotTagClose.holds(byte) <==> byte != 47 && byte != 62,
        ByteClass::Letter.holds(byte) <==> 65 <= byte <= 90 || 97 <= byte <= 122,
        ByteClass::Digit.holds(byte) <==> 48 <= byte <= 57,
        forall|other: u8| #[trigger] ByteClass::Not(other).holds(byte) <==> byte != other,
{
}

/// The last place where a part stands is a place where it stands, and it stands nowhere behind
/// it; there is none only if it stands nowhere.
pub proof fn law_the_last_place_is_last(bytes: Seq<u8>, part: Seq<u8>, from: int)
    ensures
        match last_at(bytes, part, from) {
            Some(at) => 0 <= at <= from && bytes.skip(at).len() >= part.len()
                && bytes.subrange(at, at + part.len()) == part && forall|i: int|
                at < i <= from ==> !#[trigger] stands_at(bytes, part, i),
            None => forall|i: int| 0 <= i <= from ==> !#[trigger] stands_at(bytes, part, i),
        },
    decreases from + 1,
{
    if from >= 0 {
        if !stands_at(bytes, part, from) {
            law_the_last_place_is_last(bytes, part, from - 1);
        }
    }
}

} // verus!
