//! Text as sequences of characters.

use vstd::prelude::*;

verus! {

/// `String::push`: appends one character at the end.
pub assume_specification[ String::push ](s: &mut String, c: char)
    ensures
        final(s)@ == old(s)@.push(c),
;

/// `String::push_str`: appends a text at the end.
pub assume_specification[ String::push_str ](s: &mut String, text: &str)
    ensures
        final(s)@ == old(s)@ + text@,
;

/// The characters of a string, in order.
pub fn chars_of(s: &str) -> (res: Vec<char>)
    ensures
        res@ == s@,
{
    let mut res: Vec<char> = Vec::new();
    for c in it: s.chars()
        invariant
            res@ == it.seq().take(it.index()),
            it.seq() == s@,
    {
        res.push(c);
    }
    res
}

/// The string made of the given characters.
pub fn string_of(chars: &[char]) -> (res: String)
    ensures
        res@ == chars@,
{
    let mut res: String = String::new();
    for i in 0..chars.len()
        invariant
            res@ == chars@.take(i as int),
    {
        res.push(chars[i]);
    }
    res
}

/// Whether two texts are the same.
pub fn same_text(a: &str, b: &str) -> (res: bool)
    ensures
        res == (a@ == b@),
{
    let left = a.to_owned();
    let right = b.to_owned();
    left == right
}

// ---------------------------------------------------------------------------
// Prefixes and search
// ---------------------------------------------------------------------------

/// Whether `part` stands in `s` from `from` on.
pub open spec fn stands_at<A>(s: Seq<A>, part: Seq<A>, from: int) -> bool {
    from + part.len() <= s.len() && s.subrange(from, from + part.len()) == part
}

/// Whether `part` stands in `s` from `from` on.
pub fn text_stands_at(s: &[char], part: &[char], from: usize) -> (res: bool)
    requires
        from <= s@.len(),
    ensures
        res == stands_at(s@, part@, from as int),
{
    if part.len() > s.len() - from {
        return false;
    }
    let len: usize = s.len();
    for i in 0..part.len()
        invariant
            len == s@.len(),
            from + part@.len() <= len,
            forall|k: int| 0 <= k < i ==> s@[from + k] == part@[k],
    {
        if s[from + i] != part[i] {
            assert(s@.subrange(from as int, from + part@.len())[i as int] != part@[i as int]);
            return false;
        }
    }
    assert(s@.subrange(from as int, from + part@.len()) =~= part@);
    true
}

/// What follows `prefix` in `s`, if `s` starts with it.
pub open spec fn after_prefix(s: Seq<char>, prefix: Seq<char>) -> Option<Seq<char>> {
    if stands_at(s, prefix, 0) {
        Some(s.skip(prefix.len() as int))
    } else {
        None
    }
}

/// What follows `prefix` in `s`, if `s` starts with it.
pub fn strip_prefix(s: &[char], prefix: &str) -> (res: Option<Vec<char>>)
    ensures
        match res {
            Some(rest) => after_prefix(s@, prefix@) == Some(rest@),
            None => after_prefix(s@, prefix@) is None,
        },
{
    let wanted = chars_of(prefix);
    if !text_stands_at(s, wanted.as_slice(), 0) {
        return None;
    }
    let rest = copy_range(s, wanted.len(), s.len());
    assert(rest@ =~= s@.skip(prefix@.len() as int));
    Some(rest)
}

/// The elements from `from` up to `to`.
pub fn copy_range<A: Copy>(s: &[A], from: usize, to: usize) -> (res: Vec<A>)
    requires
        from <= to <= s@.len(),
    ensures
        res@ == s@.subrange(from as int, to as int),
{
    let mut res: Vec<A> = Vec::new();
    for i in from..to
        invariant
            from <= to <= s@.len(),
            res@ == s@.subrange(from as int, i as int),
    {
        res.push(s[i]);
    }
    res
}

/// Appends the elements from `from` up to `to`.
pub fn append_range<A: Copy>(out: &mut Vec<A>, s: &[A], from: usize, to: usize)
    requires
        from <= to <= s@.len(),
    ensures
        final(out)@ == old(out)@ + s@.subrange(from as int, to as int),
{
    let ghost before = out@;
    for i in from..to
        invariant
            from <= to <= s@.len(),
            out@ == before + s@.subrange(from as int, i as int),
    {
        out.push(s[i]);
    }
}

// ---------------------------------------------------------------------------
// Character classes
// ---------------------------------------------------------------------------

/// Whether `c` has the Unicode property White_Space.
pub open spec fn is_white_space(c: char) -> bool {
    let code = c as u32;
    ||| 0x09 <= code <= 0x0d
    ||| code == 0x20
    ||| code == 0x85
    ||| code == 0xa0
    ||| code == 0x1680
    ||| 0x2000 <= code <= 0x200a
    ||| code == 0x2028
    ||| code == 0x2029
    ||| code == 0x202f
    ||| code == 0x205f
    ||| code == 0x3000
}

/// Whether `c` has the Unicode property White_Space.
pub fn white_space(c: char) -> (res: bool)
    ensures
        res == is_white_space(c),
{
    let code: u32 = c as u32;
    (0x09 <= code && code <= 0x0d) || code == 0x20 || code == 0x85 || code == 0xa0 || code == 0x1680
        || (0x2000 <= code && code <= 0x200a) || code == 0x2028 || code == 0x2029 || code == 0x202f
        || code == 0x205f || code == 0x3000
}

/// `s` without the white space at its start.
pub open spec fn trimmed_start(s: Seq<char>) -> Seq<char>
    decreases s.len(),
{
    if s.len() > 0 && is_white_space(s[0]) {
        trimmed_start(s.skip(1))
    } else {
        s
    }
}

/// `s` without the white space at its end.
pub open spec fn trimmed_end(s: Seq<char>) -> Seq<char>
    decreases s.len(),
{
    if s.len() > 0 && is_white_space(s.last()) {
        trimmed_end(s.drop_last())
    } else {
        s
    }
}

/// `s` without the white space around it.
pub open spec fn trimmed(s: Seq<char>) -> Seq<char> {
    trimmed_end(trimmed_start(s))
}

/// `s` without the white space at its start.
pub fn trim_start(s: &[char]) -> (res: Vec<char>)
    ensures
        res@ == trimmed_start(s@),
{
    let mut from: usize = 0;
    assert(s@.skip(0) =~= s@);
    while from < s.len() && white_space(s[from])
        invariant
            from <= s@.len(),
            trimmed_start(s@) == trimmed_start(s@.skip(from as int)),
        decreases s@.len() - from,
    {
        assert(s@.skip(from as int).skip(1) =~= s@.skip(from + 1));
        from = from + 1;
    }
    let res = copy_range(s, from, s.len());
    assert(res@ =~= s@.skip(from as int));
    res
}

/// `s` without the white space at its end.
pub fn trim_end(s: &[char]) -> (res: Vec<char>)
    ensures
        res@ == trimmed_end(s@),
{
    let mut to: usize = s.len();
    assert(s@.take(to as int) =~= s@);
    while to > 0 && white_space(s[to - 1])
        invariant
            to <= s@.len(),
            trimmed_end(s@) == trimmed_end(s@.take(to as int)),
        decreases to,
    {
        assert(s@.take(to as int).drop_last() =~= s@.take(to - 1));
        to = to - 1;
    }
    let res = copy_range(s, 0, to);
    assert(res@ =~= s@.take(to as int));
    res
}

/// `s` without the white space around it.
pub fn trim(s: &[char]) -> (res: Vec<char>)
    ensures
        res@ == trimmed(s@),
{
    let started = trim_start(s);
    trim_end(started.as_slice())
}

/// An ASCII capital letter as a small one; any other character as it is.
pub open spec fn lower(c: char) -> char {
    if 'A' <= c <= 'Z' {
        (c as u32 + 32) as char
    } else {
        c
    }
}

/// Whether two texts are the same but for the case of ASCII letters.
pub open spec fn same_but_case(a: Seq<char>, b: Seq<char>) -> bool {
    a.map_values(|c: char| lower(c)) == b.map_values(|c: char| lower(c))
}

fn lower_char(c: char) -> (res: char)
    ensures
        res == lower(c),
{
    if 'A' <= c && c <= 'Z' {
        (c as u8 + 32) as char
    } else {
        c
    }
}

/// A text with small letters for ASCII capital letters.
pub fn lower_text(s: &str) -> (res: String)
    ensures
        res@ == s@.map_values(|c: char| lower(c)),
{
    let chars = chars_of(s);
    let mut res: String = String::new();
    let ghost goal = s@.map_values(|c: char| lower(c));
    for i in 0..chars.len()
        invariant
            chars@ == s@,
            goal == s@.map_values(|c: char| lower(c)),
            res@ == goal.take(i as int),
    {
        res.push(lower_char(chars[i]));
    }
    assert(res@ =~= goal);
    res
}

/// Whether two texts are the same but for the case of ASCII letters.
pub fn eq_ignore_case(a: &str, b: &str) -> (res: bool)
    ensures
        res == same_but_case(a@, b@),
{
    let left = chars_of(a);
    let right = chars_of(b);
    let ghost low_left = a@.map_values(|c: char| lower(c));
    let ghost low_right = b@.map_values(|c: char| lower(c));
    if left.len() != right.len() {
        assert(low_left.len() != low_right.len());
        return false;
    }
    for i in 0..left.len()
        invariant
            left@ == a@,
            right@ == b@,
            left@.len() == right@.len(),
            low_left == a@.map_values(|c: char| lower(c)),
            low_right == b@.map_values(|c: char| lower(c)),
            forall|k: int| 0 <= k < i ==> lower(left@[k]) == lower(right@[k]),
    {
        if lower_char(left[i]) != lower_char(right[i]) {
            assert(low_left[i as int] != low_right[i as int]);
            return false;
        }
    }
    assert(low_left =~= low_right);
    true
}

// ---------------------------------------------------------------------------
// Parts of a text
// ---------------------------------------------------------------------------

/// Whether `part` stands somewhere in `s`.
pub open spec fn holds_part(s: Seq<char>, part: Seq<char>) -> bool {
    exists|i: int| 0 <= i <= s.len() && #[trigger] stands_at(s, part, i)
}

/// Whether `part` stands somewhere in `s`.
pub fn contains_part(s: &[char], part: &[char]) -> (res: bool)
    ensures
        res == holds_part(s@, part@),
{
    let len: usize = s.len();
    let mut i: usize = 0;
    while i <= len
        invariant
            len == s@.len(),
            i <= len + 1,
            forall|k: int| 0 <= k < i ==> !#[trigger] stands_at(s@, part@, k),
        decreases len + 1 - i,
    {
        if text_stands_at(s, part, i) {
            return true;
        }
        if i == len {
            return false;
        }
        i = i + 1;
    }
    false
}

/// Where `part` first stands at or after `from`.
pub open spec fn first_at(s: Seq<char>, part: Seq<char>, from: int) -> Option<int>
    decreases s.len() + 1 - from,
{
    if from > s.len() {
        None
    } else if stands_at(s, part, from) {
        Some(from)
    } else {
        first_at(s, part, from + 1)
    }
}

/// Where `part` first stands in `s`.
pub fn find_part(s: &[char], part: &[char]) -> (res: Option<usize>)
    ensures
        match res {
            Some(at) => first_at(s@, part@, 0) == Some(at as int) && at + part@.len() <= s@.len(),
            None => first_at(s@, part@, 0) is None,
        },
{
    let len: usize = s.len();
    let mut i: usize = 0;
    loop
        invariant
            len == s@.len(),
            i <= len,
            first_at(s@, part@, 0) == first_at(s@, part@, i as int),
        decreases len - i,
    {
        if text_stands_at(s, part, i) {
            return Some(i);
        }
        if i == len {
            assert(first_at(s@, part@, i + 1) is None);
            return None;
        }
        i = i + 1;
    }
}

/// Whether `s` ends with `part`.
pub fn ends_with(s: &[char], part: &str) -> (res: bool)
    ensures
        res == (part@.len() <= s@.len() && stands_at(s@, part@, s@.len() - part@.len())),
{
    let wanted = chars_of(part);
    if wanted.len() > s.len() {
        return false;
    }
    text_stands_at(s, wanted.as_slice(), s.len() - wanted.len())
}

/// Where `c` first stands at or after `from`; the end of `s` if it does not.
pub open spec fn first_of(s: Seq<char>, c: char, from: int) -> int
    decreases s.len() - from,
{
    if from < s.len() && s[from] != c {
        first_of(s, c, from + 1)
    } else {
        from
    }
}

/// The parts of `s` from `from` on, between the separators `c`.
pub open spec fn split_from(s: Seq<char>, c: char, from: int) -> Seq<Seq<char>>
    decreases s.len() - from,
{
    let at = first_of(s, c, from);
    if from < 0 || at >= s.len() {
        seq![s.subrange(from, s.len() as int)]
    } else {
        proof {
            lemma_first_of(s, c, from);
        }
        seq![s.subrange(from, at)] + split_from(s, c, at + 1)
    }
}

pub proof fn lemma_first_of(s: Seq<char>, c: char, from: int)
    ensures
        from <= first_of(s, c, from),
        from <= s.len() ==> first_of(s, c, from) <= s.len(),
        forall|i: int| from <= i < first_of(s, c, from) ==> s[i] != c,
        first_of(s, c, from) < s.len() ==> s[first_of(s, c, from)] == c,
    decreases s.len() - from,
{
    if from < s.len() && s[from] != c {
        lemma_first_of(s, c, from + 1);
    }
}

/// Where `c` first stands at or after `from`; the end of `s` if it does not.
pub fn find_char(s: &[char], c: char, from: usize) -> (res: usize)
    requires
        from <= s@.len(),
    ensures
        res == first_of(s@, c, from as int),
        from <= res <= s@.len(),
{
    let mut at: usize = from;
    while at < s.len() && s[at] != c
        invariant
            from <= at <= s@.len(),
            first_of(s@, c, from as int) == first_of(s@, c, at as int),
        decreases s@.len() - at,
    {
        at = at + 1;
    }
    at
}

pub open spec fn parts_of(parts: Seq<Vec<char>>) -> Seq<Seq<char>> {
    parts.map_values(|part: Vec<char>| part@)
}

/// The parts of `s` between the separators `c`.
pub fn split(s: &[char], c: char) -> (res: Vec<Vec<char>>)
    ensures
        parts_of(res@) == split_from(s@, c, 0),
{
    let mut res: Vec<Vec<char>> = Vec::new();
    let mut from: usize = 0;
    let ghost goal = split_from(s@, c, 0);
    assert(parts_of(res@) + goal =~= goal);
    loop
        invariant
            from <= s@.len(),
            goal == split_from(s@, c, 0),
            parts_of(res@) + split_from(s@, c, from as int) == goal,
        decreases s@.len() - from,
    {
        let at: usize = find_char(s, c, from);
        let ghost before = parts_of(res@);
        let part = copy_range(s, from, at);
        res.push(part);
        assert(parts_of(res@) =~= before.push(part@));
        if at == s.len() {
            assert(parts_of(res@) =~= goal);
            return res;
        }
        proof {
            let rest = split_from(s@, c, at + 1);
            assert(parts_of(res@) + rest =~= before + (seq![part@] + rest));
        }
        from = at + 1;
    }
}

/// The lines of `s` from `from` on. A line ends with a line feed, or a carriage return
/// and a line feed, or with the text.
pub open spec fn lines_from(s: Seq<char>, from: int) -> Seq<Seq<char>>
    decreases s.len() - from,
{
    let at = first_of(s, '\n', from);
    if from < 0 || from >= s.len() {
        Seq::empty()
    } else if at >= s.len() {
        seq![s.subrange(from, s.len() as int)]
    } else {
        proof {
            lemma_first_of(s, '\n', from);
        }
        let end = if at > from && s[at - 1] == '\r' {
            at - 1
        } else {
            at
        };
        seq![s.subrange(from, end)] + lines_from(s, at + 1)
    }
}

/// The lines of `s`.
pub fn lines(s: &[char]) -> (res: Vec<Vec<char>>)
    ensures
        parts_of(res@) == lines_from(s@, 0),
{
    let mut res: Vec<Vec<char>> = Vec::new();
    let mut from: usize = 0;
    let ghost goal = lines_from(s@, 0);
    assert(parts_of(res@) + goal =~= goal);
    loop
        invariant
            from <= s@.len(),
            goal == lines_from(s@, 0),
            parts_of(res@) + lines_from(s@, from as int) == goal,
        decreases s@.len() - from,
    {
        if from == s.len() {
            assert(parts_of(res@) =~= goal);
            return res;
        }
        let at: usize = find_char(s, '\n', from);
        let ghost before = parts_of(res@);
        if at == s.len() {
            let part = copy_range(s, from, at);
            res.push(part);
            assert(parts_of(res@) =~= before.push(part@));
            assert(parts_of(res@) =~= goal);
            return res;
        }
        let end: usize = if at > from && s[at - 1] == '\r' {
            at - 1
        } else {
            at
        };
        let part = copy_range(s, from, end);
        res.push(part);
        proof {
            let rest = lines_from(s@, at + 1);
            assert(parts_of(res@) =~= before.push(part@));
            assert(parts_of(res@) + rest =~= before + (seq![part@] + rest));
        }
        from = at + 1;
    }
}

/// Where the first white space stands at or after `from`; the end of `s` if there is
/// none.
pub open spec fn word_end(s: Seq<char>, from: int) -> int
    decreases s.len() - from,
{
    if from < s.len() && !is_white_space(s[from]) {
        word_end(s, from + 1)
    } else {
        from
    }
}

/// The first word of `s`.
pub open spec fn first_word(s: Seq<char>) -> Option<Seq<char>> {
    let start = trimmed_start(s);
    if start.len() == 0 {
        None
    } else {
        Some(start.take(word_end(start, 0)))
    }
}

/// The first word of `s`.
pub fn find_first_word(s: &[char]) -> (res: Option<Vec<char>>)
    ensures
        match res {
            Some(word) => first_word(s@) == Some(word@),
            None => first_word(s@) is None,
        },
{
    let start = trim_start(s);
    if start.len() == 0 {
        return None;
    }
    let mut end: usize = 0;
    while end < start.len() && !white_space(start[end])
        invariant
            end <= start@.len(),
            word_end(start@, 0) == word_end(start@, end as int),
        decreases start@.len() - end,
    {
        end = end + 1;
    }
    let word = copy_range(start.as_slice(), 0, end);
    assert(word@ =~= start@.take(end as int));
    Some(word)
}

/// The second word of `s`.
pub open spec fn second_word(s: Seq<char>) -> Option<Seq<char>> {
    let start = trimmed_start(s);
    first_word(start.skip(word_end(start, 0)))
}

/// The second word of `s`.
pub fn find_second_word(s: &[char]) -> (res: Option<Vec<char>>)
    ensures
        match res {
            Some(word) => second_word(s@) == Some(word@),
            None => second_word(s@) is None,
        },
{
    let start = trim_start(s);
    let mut end: usize = 0;
    while end < start.len() && !white_space(start[end])
        invariant
            end <= start@.len(),
            word_end(start@, 0) == word_end(start@, end as int),
        decreases start@.len() - end,
    {
        end = end + 1;
    }
    let rest = copy_range(start.as_slice(), end, start.len());
    assert(rest@ =~= start@.skip(end as int));
    find_first_word(rest.as_slice())
}

/// Where the last word of a text without white space at its end starts.
pub open spec fn word_start(s: Seq<char>, end: int) -> int
    decreases end,
{
    if end > 0 && !is_white_space(s[end - 1]) {
        word_start(s, end - 1)
    } else {
        end
    }
}

/// The last word of `s`.
pub open spec fn last_word(s: Seq<char>) -> Option<Seq<char>> {
    let end = trimmed_end(s);
    if end.len() == 0 {
        None
    } else {
        Some(end.skip(word_start(end, end.len() as int)))
    }
}

/// The last word of `s`.
pub fn find_last_word(s: &[char]) -> (res: Option<Vec<char>>)
    ensures
        match res {
            Some(word) => last_word(s@) == Some(word@),
            None => last_word(s@) is None,
        },
{
    let end = trim_end(s);
    if end.len() == 0 {
        return None;
    }
    let mut start: usize = end.len();
    while start > 0 && !white_space(end[start - 1])
        invariant
            start <= end@.len(),
            word_start(end@, end@.len() as int) == word_start(end@, start as int),
        decreases start,
    {
        start = start - 1;
    }
    let word = copy_range(end.as_slice(), start, end.len());
    assert(word@ =~= end@.skip(start as int));
    Some(word)
}

/// `s` up to `end` with `by` in place of every `c`.
pub open spec fn replaced(s: Seq<char>, c: char, by: Seq<char>, end: int) -> Seq<char>
    decreases end,
{
    if end <= 0 {
        Seq::empty()
    } else if s[end - 1] == c {
        replaced(s, c, by, end - 1) + by
    } else {
        replaced(s, c, by, end - 1).push(s[end - 1])
    }
}

/// `s` with `by` in place of every `c`.
pub fn replace_char(s: &str, c: char, by: &str) -> (res: String)
    ensures
        res@ == replaced(s@, c, by@, s@.len() as int),
{
    let chars = chars_of(s);
    let mut res: String = String::new();
    for i in 0..chars.len()
        invariant
            chars@ == s@,
            res@ == replaced(s@, c, by@, i as int),
    {
        if chars[i] == c {
            res.push_str(by);
        } else {
            res.push(chars[i]);
        }
    }
    res
}

// ---------------------------------------------------------------------------
// Escaped texts
// ---------------------------------------------------------------------------

/// `s` with every character in its code.
pub open spec fn encoded(s: Seq<char>, code: spec_fn(char) -> Seq<char>) -> Seq<char>
    decreases s.len(),
{
    if s.len() == 0 {
        Seq::empty()
    } else {
        code(s[0]) + encoded(s.skip(1), code)
    }
}

/// Whether the first character of an encoded text can be told.
pub open spec fn is_readable(code: spec_fn(char) -> Seq<char>) -> bool {
    &&& forall|c: char| (#[trigger] code(c)).len() > 0
    &&& forall|c: char, d: char, x: Seq<char>, y: Seq<char>|
        #![trigger code(c) + x, code(d) + y]
        code(c) + x == code(d) + y ==> c == d
}

/// Texts that differ are encoded differently.
pub proof fn lemma_encoding_is_one_to_one(
    a: Seq<char>,
    b: Seq<char>,
    code: spec_fn(char) -> Seq<char>,
)
    requires
        is_readable(code),
        encoded(a, code) == encoded(b, code),
    ensures
        a == b,
    decreases a.len(),
{
    if a.len() == 0 {
        if b.len() > 0 {
            assert(code(b[0]).len() > 0);
            assert(encoded(b, code).len() > 0);
        }
        assert(a =~= b);
    } else {
        assert(code(a[0]).len() > 0);
        assert(encoded(a, code).len() > 0);
        assert(b.len() > 0);
        let x = encoded(a.skip(1), code);
        let y = encoded(b.skip(1), code);
        assert(code(a[0]) + x == code(b[0]) + y);
        assert(a[0] == b[0]);
        let n = code(a[0]).len() as int;
        assert(x =~= (code(a[0]) + x).skip(n));
        assert(y =~= (code(b[0]) + y).skip(n));
        lemma_encoding_is_one_to_one(a.skip(1), b.skip(1), code);
        assert(a =~= seq![a[0]] + a.skip(1));
        assert(b =~= seq![b[0]] + b.skip(1));
    }
}

// ---------------------------------------------------------------------------
// Decimal numbers
// ---------------------------------------------------------------------------

/// The character of a decimal digit.
pub open spec fn digit_char(d: nat) -> char {
    ('0' as u32 + d) as char
}

pub open spec fn is_digit(c: char) -> bool {
    '0' <= c <= '9'
}

/// The decimal digits of `n`, without leading zeros.
pub open spec fn decimal(n: nat) -> Seq<char>
    decreases n,
{
    if n < 10 {
        seq![digit_char(n)]
    } else {
        decimal(n / 10).push(digit_char(n % 10))
    }
}

/// The decimal digits of `n`, with a sign in front of a negative number.
pub open spec fn decimal_int(n: int) -> Seq<char> {
    if n < 0 {
        seq!['-'] + decimal((-n) as nat)
    } else {
        decimal(n as nat)
    }
}

/// `s` with zeros in front up to a length of `width`.
pub open spec fn zero_padded(s: Seq<char>, width: nat) -> Seq<char> {
    if s.len() >= width {
        s
    } else {
        Seq::new((width - s.len()) as nat, |i: int| '0') + s
    }
}

/// The number that decimal digits stand for.
pub open spec fn digits_value(s: Seq<char>) -> nat
    decreases s.len(),
{
    if s.len() == 0 {
        0
    } else {
        digits_value(s.drop_last()) * 10 + (s.last() as nat - '0' as nat) as nat
    }
}

pub open spec fn all_digits(s: Seq<char>) -> bool {
    forall|i: int| 0 <= i < s.len() ==> is_digit(#[trigger] s[i])
}

/// The number that one or more digits stand for, up to `max`.
pub open spec fn digits_number(s: Seq<char>, max: nat) -> Option<nat> {
    if s.len() > 0 && all_digits(s) && digits_value(s) <= max {
        Some(digits_value(s))
    } else {
        None
    }
}

/// An unsigned number up to `max`: an optional plus sign, then digits.
pub open spec fn unsigned_number(s: Seq<char>, max: nat) -> Option<nat> {
    if s.len() > 0 && s[0] == '+' {
        digits_number(s.skip(1), max)
    } else {
        digits_number(s, max)
    }
}

/// A 32-bit signed number: an optional sign, then digits.
pub open spec fn signed_number(s: Seq<char>) -> Option<int> {
    if s.len() > 0 && s[0] == '-' {
        match digits_number(s.skip(1), 0x8000_0000) {
            Some(value) => Some(-(value as int)),
            None => None,
        }
    } else {
        match unsigned_number(s, 0x7fff_ffff) {
            Some(value) => Some(value as int),
            None => None,
        }
    }
}

fn exec_digit_char(d: u64) -> (res: char)
    requires
        d < 10,
    ensures
        res == digit_char(d as nat),
{
    if d == 0 {
        '0'
    } else if d == 1 {
        '1'
    } else if d == 2 {
        '2'
    } else if d == 3 {
        '3'
    } else if d == 4 {
        '4'
    } else if d == 5 {
        '5'
    } else if d == 6 {
        '6'
    } else if d == 7 {
        '7'
    } else if d == 8 {
        '8'
    } else {
        '9'
    }
}

/// The decimal digits of `n`.
pub fn decimal_chars(n: u64) -> (res: Vec<char>)
    ensures
        res@ == decimal(n as nat),
    decreases n,
{
    if n < 10 {
        let mut res: Vec<char> = Vec::new();
        res.push(exec_digit_char(n));
        assert(res@ =~= decimal(n as nat));
        res
    } else {
        let mut res = decimal_chars(n / 10);
        res.push(exec_digit_char(n % 10));
        res
    }
}

/// Appends the decimal digits of `n`.
pub fn push_decimal(out: &mut String, n: u64)
    ensures
        final(out)@ == old(out)@ + decimal(n as nat),
{
    let digits = decimal_chars(n);
    out.push_str(string_of(digits.as_slice()).as_str());
}

/// Appends the decimal digits of `n`, with a sign in front of a negative number.
pub fn push_decimal_int(out: &mut String, n: i32)
    ensures
        final(out)@ == old(out)@ + decimal_int(n as int),
{
    if n < 0 {
        out.push('-');
        let magnitude: i64 = -(n as i64);
        push_decimal(out, magnitude as u64);
        assert(out@ =~= old(out)@ + decimal_int(n as int));
    } else {
        push_decimal(out, n as u64);
    }
}

/// Reads the digits from `from` on as a number up to `max`.
fn read_digits(s: &[char], from: usize, max: u64) -> (res: Option<u64>)
    requires
        from <= s@.len(),
    ensures
        match res {
            Some(value) => digits_number(s@.skip(from as int), max as nat) == Some(value as nat),
            None => digits_number(s@.skip(from as int), max as nat) is None,
        },
{
    let ghost digits = s@.skip(from as int);
    if from == s.len() {
        return None;
    }
    let mut value: u64 = 0;
    for i in from..s.len()
        invariant
            from < s@.len(),
            digits == s@.skip(from as int),
            forall|k: int| 0 <= k < i - from ==> is_digit(#[trigger] digits[k]),
            value == digits_value(digits.take(i - from)),
            value <= max,
    {
        let c = s[i];
        assert(digits[i - from] == c);
        if c < '0' || '9' < c {
            return None;
        }
        let digit: u64 = (c as u32 - '0' as u32) as u64;
        let ghost longer = digits.take(i + 1 - from);
        proof {
            assert(longer.drop_last() =~= digits.take(i - from));
            assert(longer.last() == c);
            lemma_digits_value_grows(digits, i + 1 - from, digits.len() as int);
            assert(digits.take(digits.len() as int) =~= digits);
        }
        if value > max / 10 {
            assert(value * 10 > max);
            return None;
        }
        if digit > max || value * 10 > max - digit {
            return None;
        }
        value = value * 10 + digit;
    }
    assert(digits.take(digits.len() as int) =~= digits);
    Some(value)
}

proof fn lemma_digits_value_grows(s: Seq<char>, shorter: int, longer: int)
    requires
        0 <= shorter <= longer <= s.len(),
    ensures
        digits_value(s.take(shorter)) <= digits_value(s.take(longer)),
    decreases longer - shorter,
{
    if shorter < longer {
        lemma_digits_value_grows(s, shorter, longer - 1);
        assert(s.take(longer).drop_last() =~= s.take(longer - 1));
    }
}

/// Reads an unsigned number up to `max`.
pub fn read_unsigned(s: &[char], max: u64) -> (res: Option<u64>)
    ensures
        match res {
            Some(value) => unsigned_number(s@, max as nat) == Some(value as nat),
            None => unsigned_number(s@, max as nat) is None,
        },
{
    if s.len() > 0 && s[0] == '+' {
        read_digits(s, 1, max)
    } else {
        assert(s@.skip(0) =~= s@);
        read_digits(s, 0, max)
    }
}

/// Reads a 32-bit signed number.
pub fn read_i32(s: &[char]) -> (res: Option<i32>)
    ensures
        match res {
            Some(value) => signed_number(s@) == Some(value as int),
            None => signed_number(s@) is None,
        },
{
    if s.len() > 0 && s[0] == '-' {
        match read_digits(s, 1, 0x8000_0000) {
            Some(value) => {
                let signed: i64 = -(value as i64);
                Some(signed as i32)
            },
            None => None,
        }
    } else {
        match read_unsigned(s, 0x7fff_ffff) {
            Some(value) => Some(value as i32),
            None => None,
        }
    }
}

proof fn lemma_digit_char(d: nat)
    requires
        d < 10,
    ensures
        is_digit(digit_char(d)),
        digit_char(d) as nat - '0' as nat == d,
{
}

/// The decimal digits of a number are digits, and stand for it.
pub proof fn lemma_decimal(n: nat)
    ensures
        decimal(n).len() > 0,
        all_digits(decimal(n)),
        digits_value(decimal(n)) == n,
    decreases n,
{
    if n < 10 {
        lemma_digit_char(n);
        assert(decimal(n).drop_last() =~= Seq::<char>::empty());
        assert(digits_value(Seq::<char>::empty()) == 0);
    } else {
        lemma_decimal(n / 10);
        lemma_digit_char(n % 10);
        assert(decimal(n).drop_last() =~= decimal(n / 10));
    }
}

/// Reading the decimal digits of a number gives the number back.
pub proof fn law_decimal_reads_back(n: nat, max: nat)
    requires
        n <= max,
    ensures
        unsigned_number(decimal(n), max) == Some(n),
        digits_number(decimal(n), max) == Some(n),
{
    lemma_decimal(n);
    assert(is_digit(decimal(n)[0]));
}

/// Reading a number back that was padded with zeros gives the number.
pub proof fn law_padded_decimal_reads_back(n: nat, width: nat, max: nat)
    requires
        n <= max,
    ensures
        unsigned_number(zero_padded(decimal(n), width), max) == Some(n),
{
    lemma_decimal(n);
    let digits = decimal(n);
    let padded = zero_padded(digits, width);
    if digits.len() < width {
        lemma_leading_zeros((width - digits.len()) as nat, digits);
        assert(is_digit(padded[0]));
    } else {
        assert(is_digit(digits[0]));
    }
}

proof fn lemma_leading_zeros(zeros: nat, s: Seq<char>)
    requires
        all_digits(s),
    ensures
        all_digits(Seq::new(zeros, |i: int| '0') + s),
        digits_value(Seq::new(zeros, |i: int| '0') + s) == digits_value(s),
    decreases zeros + s.len(),
{
    let all = Seq::new(zeros, |i: int| '0') + s;
    if s.len() > 0 {
        lemma_leading_zeros(zeros, s.drop_last());
        assert(all.drop_last() =~= Seq::new(zeros, |i: int| '0') + s.drop_last());
        assert(all.last() == s.last());
        assert(is_digit(s.last()));
        assert forall|i: int| 0 <= i < all.len() implies is_digit(#[trigger] all[i]) by {
            if i >= zeros {
                assert(all[i] == s[i - zeros]);
            }
        }
    } else if zeros > 0 {
        lemma_leading_zeros((zeros - 1) as nat, s);
        assert(all.drop_last() =~= Seq::new((zeros - 1) as nat, |i: int| '0') + s);
        assert(all.last() == '0');
        assert forall|i: int| 0 <= i < all.len() implies is_digit(#[trigger] all[i]) by {}
    }
}

/// Reading the decimal form of a 32-bit signed number gives the number back.
pub proof fn law_decimal_int_reads_back(n: int)
    requires
        i32::MIN <= n <= i32::MAX,
    ensures
        signed_number(decimal_int(n)) == Some(n),
{
    if n < 0 {
        lemma_decimal((-n) as nat);
        assert(decimal_int(n).skip(1) =~= decimal((-n) as nat));
    } else {
        law_decimal_reads_back(n as nat, 0x7fff_ffff);
        lemma_decimal(n as nat);
        assert(is_digit(decimal(n as nat)[0]));
    }
}

// ---------------------------------------------------------------------------
// Wide texts
// ---------------------------------------------------------------------------

/// A character in units of sixteen bits: one, or two beyond the first plane.
pub open spec fn wide_code(c: char) -> Seq<u16> {
    let code = c as u32 as int;
    if code < 0x10000 {
        seq![code as u16]
    } else {
        seq![
            (0xd800 + (code - 0x10000) / 0x400) as u16,
            (0xdc00 + (code - 0x10000) % 0x400) as u16,
        ]
    }
}

/// The first `end` characters in units of sixteen bits.
pub open spec fn wide(s: Seq<char>, end: int) -> Seq<u16>
    decreases end,
{
    if end <= 0 {
        Seq::empty()
    } else {
        wide(s, end - 1) + wide_code(s[end - 1])
    }
}

/// A text in units of sixteen bits, with a zero at its end.
pub fn wide_null(value: &str) -> (res: Vec<u16>)
    ensures
        res@ == wide(value@, value@.len() as int).push(0),
{
    let chars = chars_of(value);
    let mut res: Vec<u16> = Vec::new();
    for i in 0..chars.len()
        invariant
            chars@ == value@,
            res@ == wide(value@, i as int),
    {
        let ghost before = res@;
        let code: u32 = chars[i] as u32;
        if code < 0x10000 {
            res.push(code as u16);
        } else {
            res.push((0xd800 + (code - 0x10000) / 0x400) as u16);
            res.push((0xdc00 + (code - 0x10000) % 0x400) as u16);
        }
        assert(res@ =~= before + wide_code(value@[i as int]));
    }
    res.push(0);
    res
}

// ---------------------------------------------------------------------------
// Parts, lines and words
// ---------------------------------------------------------------------------

/// Where a text first stands is the first place where it stands.
pub proof fn law_the_first_place_is_the_first(s: Seq<char>, part: Seq<char>, from: int)
    requires
        0 <= from,
    ensures
        match first_at(s, part, from) {
            Some(at) => from <= at && stands_at(s, part, at) && forall|i: int|
                from <= i < at ==> !#[trigger] stands_at(s, part, i),
            None => forall|i: int| from <= i ==> !#[trigger] stands_at(s, part, i),
        },
    decreases s.len() + 1 - from,
{
    if from <= s.len() && !stands_at(s, part, from) {
        law_the_first_place_is_the_first(s, part, from + 1);
    }
}

/// A text that stands at `at`, and at no place before, first stands there.
pub proof fn lemma_first_at_is(s: Seq<char>, part: Seq<char>, at: int)
    requires
        0 <= at,
        stands_at(s, part, at),
        forall|i: int| 0 <= i < at ==> !#[trigger] stands_at(s, part, i),
    ensures
        first_at(s, part, 0) == Some(at),
{
    law_the_first_place_is_the_first(s, part, 0);
}

/// A part of a text stands in it.
pub proof fn law_parts_stand_in_their_whole(front: Seq<char>, part: Seq<char>, back: Seq<char>)
    ensures
        stands_at(front + part + back, part, front.len() as int),
        holds_part(front + part + back, part),
{
    let whole = front + part + back;
    assert(whole.subrange(front.len() as int, (front.len() + part.len()) as int) =~= part);
}

proof fn lemma_first_of_behind(front: Seq<char>, back: Seq<char>, c: char, from: int)
    requires
        0 <= from,
    ensures
        first_of(front + back, c, front.len() + from) == front.len() + first_of(back, c, from),
    decreases back.len() - from,
{
    if from < back.len() {
        assert((front + back)[front.len() + from] == back[from]);
        if back[from] != c {
            lemma_first_of_behind(front, back, c, from + 1);
        }
    }
}

/// Where the first `c` stands if it stands at `at` and nowhere before.
pub proof fn lemma_first_of_is(s: Seq<char>, c: char, from: int, at: int)
    requires
        0 <= from <= at <= s.len(),
        forall|i: int| from <= i < at ==> s[i] != c,
        at < s.len() ==> s[at] == c,
    ensures
        first_of(s, c, from) == at,
{
    lemma_first_of(s, c, from);
    let found = first_of(s, c, from);
    if found < at {
        assert(s[found] != c);
    }
}

proof fn lemma_split_behind(front: Seq<char>, back: Seq<char>, c: char, from: int)
    requires
        0 <= from <= back.len(),
    ensures
        split_from(front + back, c, front.len() + from) == split_from(back, c, from),
    decreases back.len() - from,
{
    let whole = front + back;
    let shift = front.len() as int;
    let at = first_of(back, c, from);
    lemma_first_of(back, c, from);
    lemma_first_of_behind(front, back, c, from);
    if at >= back.len() {
        assert(whole.subrange(shift + from, whole.len() as int) =~= back.subrange(
            from,
            back.len() as int,
        ));
    } else {
        lemma_split_behind(front, back, c, at + 1);
        assert(whole.subrange(shift + from, shift + at) =~= back.subrange(from, at));
    }
}

/// A text without the separator is one part. With a separator behind it, it is the first part,
/// and the parts of what follows come after it.
pub proof fn law_splitting_loses_nothing(first: Seq<char>, c: char, rest: Seq<char>)
    requires
        forall|i: int| 0 <= i < first.len() ==> first[i] != c,
    ensures
        split_from(first, c, 0) == seq![first],
        split_from(first + seq![c] + rest, c, 0) == seq![first] + split_from(rest, c, 0),
{
    lemma_first_of_is(first, c, 0, first.len() as int);
    assert(first.subrange(0, first.len() as int) =~= first);
    let front = first + seq![c];
    let whole = front + rest;
    assert(whole =~= first + seq![c] + rest);
    assert(whole[first.len() as int] == c);
    assert forall|i: int| 0 <= i < first.len() implies whole[i] != c by {
        assert(whole[i] == first[i]);
    }
    lemma_first_of_is(whole, c, 0, first.len() as int);
    assert(whole.subrange(0, first.len() as int) =~= first);
    lemma_split_behind(front, rest, c, 0);
}

proof fn lemma_lines_behind(front: Seq<char>, back: Seq<char>, from: int)
    requires
        0 <= from <= back.len(),
        from == 0 ==> front.len() == 0 || front.last() == '\n',
    ensures
        lines_from(front + back, front.len() + from) == lines_from(back, from),
    decreases back.len() - from,
{
    let whole = front + back;
    let shift = front.len() as int;
    let at = first_of(back, '\n', from);
    lemma_first_of(back, '\n', from);
    lemma_first_of_behind(front, back, '\n', from);
    if from < back.len() {
        if at >= back.len() {
            assert(whole.subrange(shift + from, whole.len() as int) =~= back.subrange(
                from,
                back.len() as int,
            ));
        } else {
            lemma_lines_behind(front, back, at + 1);
            let end = if at > from && back[at - 1] == '\r' {
                at - 1
            } else {
                at
            };
            if at > from {
                assert(whole[shift + at - 1] == back[at - 1]);
            }
            assert(whole.subrange(shift + from, shift + end) =~= back.subrange(from, end));
        }
    }
}

/// What stands in front of the first line feed is the first line, without a carriage return at
/// its end, and the lines of what follows come after it. A text that ends with a line feed has
/// no further line.
pub proof fn law_lines_follow_each_other(line: Seq<char>, rest: Seq<char>)
    requires
        forall|i: int| 0 <= i < line.len() ==> line[i] != '\n',
        line.len() > 0 ==> line.last() != '\r',
    ensures
        lines_from(line + seq!['\n'] + rest, 0) == seq![line] + lines_from(rest, 0),
        lines_from(line + seq!['\r', '\n'] + rest, 0) == seq![line] + lines_from(rest, 0),
        line.len() > 0 ==> lines_from(line, 0) == seq![line],
        lines_from(Seq::empty(), 0) == Seq::<Seq<char>>::empty(),
{
    let front = line + seq!['\n'];
    let whole = line + seq!['\n'] + rest;
    assert(whole =~= front + rest);
    assert forall|i: int| 0 <= i < line.len() implies whole[i] != '\n' by {
        assert(whole[i] == line[i]);
    }
    lemma_first_of_is(whole, '\n', 0, line.len() as int);
    assert(whole.subrange(0, line.len() as int) =~= line);
    if line.len() > 0 {
        assert(whole[line.len() - 1] == line.last());
    }
    lemma_lines_behind(front, rest, 0);

    let other_front = line + seq!['\r', '\n'];
    let other = line + seq!['\r', '\n'] + rest;
    assert(other =~= other_front + rest);
    assert forall|i: int| 0 <= i < line.len() + 1 implies other[i] != '\n' by {
        if i < line.len() {
            assert(other[i] == line[i]);
        }
    }
    lemma_first_of_is(other, '\n', 0, (line.len() + 1) as int);
    assert(other.subrange(0, line.len() as int) =~= line);
    lemma_lines_behind(other_front, rest, 0);

    lemma_first_of_is(line, '\n', 0, line.len() as int);
    assert(line.subrange(0, line.len() as int) =~= line);
}

/// Whether `s` is a word: something, and no white space in it.
pub open spec fn is_word(s: Seq<char>) -> bool {
    s.len() > 0 && forall|i: int| 0 <= i < s.len() ==> !is_white_space(#[trigger] s[i])
}

/// Whether `s` is nothing but white space.
pub open spec fn is_blank(s: Seq<char>) -> bool {
    forall|i: int| 0 <= i < s.len() ==> is_white_space(#[trigger] s[i])
}

proof fn lemma_trimmed_start(blank: Seq<char>, rest: Seq<char>)
    requires
        is_blank(blank),
        rest.len() > 0 ==> !is_white_space(rest[0]),
    ensures
        trimmed_start(blank + rest) == rest,
    decreases blank.len(),
{
    if blank.len() > 0 {
        assert((blank + rest)[0] == blank[0]);
        assert((blank + rest).skip(1) =~= blank.skip(1) + rest);
        lemma_trimmed_start(blank.skip(1), rest);
    } else {
        assert(blank + rest =~= rest);
    }
}

proof fn lemma_trimmed_end(rest: Seq<char>, blank: Seq<char>)
    requires
        is_blank(blank),
        rest.len() > 0 ==> !is_white_space(rest.last()),
    ensures
        trimmed_end(rest + blank) == rest,
    decreases blank.len(),
{
    if blank.len() > 0 {
        assert((rest + blank).last() == blank.last());
        assert((rest + blank).drop_last() =~= rest + blank.drop_last());
        lemma_trimmed_end(rest, blank.drop_last());
    } else {
        assert(rest + blank =~= rest);
    }
}

/// White space around a text is left out, all of it and nothing else.
pub proof fn law_trimming_leaves_the_text(before: Seq<char>, text: Seq<char>, after: Seq<char>)
    requires
        is_blank(before),
        is_blank(after),
        text.len() > 0,
        !is_white_space(text[0]),
        !is_white_space(text.last()),
    ensures
        trimmed_start(before + text + after) == text + after,
        trimmed_end(before + text + after) == before + text,
        trimmed(before + text + after) == text,
        trimmed(before) == Seq::<char>::empty(),
{
    assert(before + text + after =~= before + (text + after));
    lemma_trimmed_start(before, text + after);
    lemma_trimmed_end(text, after);
    lemma_trimmed_end(before + text, after);
    assert(before + Seq::<char>::empty() =~= before);
    lemma_trimmed_start(before, Seq::empty());
}

proof fn lemma_word_end(word: Seq<char>, rest: Seq<char>, from: int)
    requires
        is_word(word),
        rest.len() > 0 ==> is_white_space(rest[0]),
        0 <= from <= word.len(),
    ensures
        word_end(word + rest, from) == word.len(),
    decreases word.len() - from,
{
    let whole = word + rest;
    if from < word.len() {
        assert(whole[from] == word[from]);
        lemma_word_end(word, rest, from + 1);
    } else if rest.len() > 0 {
        assert(whole[from] == rest[0]);
    }
}

proof fn lemma_word_start(rest: Seq<char>, word: Seq<char>, end: int)
    requires
        is_word(word),
        rest.len() > 0 ==> is_white_space(rest.last()),
        rest.len() <= end <= rest.len() + word.len(),
    ensures
        word_start(rest + word, end) == rest.len(),
    decreases end,
{
    let whole = rest + word;
    if end > rest.len() {
        assert(whole[end - 1] == word[end - 1 - rest.len()]);
        lemma_word_start(rest, word, end - 1);
    } else if rest.len() > 0 {
        assert(whole[end - 1] == rest.last());
    }
}

/// Words are what stands between white space: the first one, the second one and the last one
/// of a text are found, whatever white space is around them.
pub proof fn law_words_stand_between_white_space(
    before: Seq<char>,
    first: Seq<char>,
    gap: Seq<char>,
    second: Seq<char>,
    after: Seq<char>,
)
    requires
        is_blank(before),
        is_word(first),
        is_blank(gap),
        gap.len() > 0,
        is_word(second),
        is_blank(after),
    ensures
        ({
            let text = before + first + gap + second + after;
            &&& first_word(text) == Some(first)
            &&& second_word(text) == Some(second)
            &&& last_word(text) == Some(second)
        }),
        first_word(before) is None,
        first_word(before + first + after) == Some(first),
        last_word(before + first + after) == Some(first),
{
    let text = before + first + gap + second + after;
    let tail = gap + second + after;
    assert(text =~= before + (first + tail));
    lemma_trimmed_start(before, first + tail);
    lemma_word_end(first, tail, 0);
    assert((first + tail).take(first.len() as int) =~= first);
    assert((first + tail).skip(first.len() as int) =~= tail);
    assert(tail =~= gap + (second + after));
    lemma_trimmed_start(gap, second + after);
    lemma_word_end(second, after, 0);
    assert((second + after).take(second.len() as int) =~= second);

    let front = before + first + gap;
    assert(text =~= (front + second) + after);
    lemma_trimmed_end(front + second, after);
    assert(front.last() == gap.last());
    lemma_word_start(front, second, (front + second).len() as int);
    assert((front + second).skip(front.len() as int) =~= second);

    assert(before + Seq::<char>::empty() =~= before);
    lemma_trimmed_start(before, Seq::empty());
    let alone = before + first + after;
    assert(alone =~= before + (first + after));
    lemma_trimmed_start(before, first + after);
    lemma_word_end(first, after, 0);
    assert((first + after).take(first.len() as int) =~= first);
    lemma_trimmed_end(before + first, after);
    lemma_word_start(before, first, (before + first).len() as int);
    assert((before + first).skip(before.len() as int) =~= first);
}

/// Replacing a character works character by character: everything else stays, in its place.
pub proof fn law_replacing_works_one_by_one(s: Seq<char>, c: char, by: Seq<char>, more: char)
    ensures
        replaced(s.push(more), c, by, (s.len() + 1) as int) == replaced(s, c, by, s.len() as int) + if more
            == c {
            by
        } else {
            seq![more]
        },
        replaced(Seq::empty(), c, by, 0) == Seq::<char>::empty(),
        (forall|i: int| 0 <= i < s.len() ==> s[i] != c) ==> replaced(s, c, by, s.len() as int)
            == s,
{
    lemma_replaced_prefix(s, s.push(more), c, by, s.len() as int);
    assert(replaced(s.push(more), c, by, (s.len() + 1) as int) =~= replaced(s, c, by, s.len() as int)
        + if more == c {
        by
    } else {
        seq![more]
    });
    if forall|i: int| 0 <= i < s.len() ==> s[i] != c {
        lemma_nothing_replaced(s, c, by, s.len() as int);
        assert(s.take(s.len() as int) =~= s);
    }
}

proof fn lemma_replaced_prefix(a: Seq<char>, b: Seq<char>, c: char, by: Seq<char>, end: int)
    requires
        0 <= end <= a.len(),
        end <= b.len(),
        forall|i: int| 0 <= i < end ==> a[i] == b[i],
    ensures
        replaced(a, c, by, end) == replaced(b, c, by, end),
    decreases end,
{
    if end > 0 {
        lemma_replaced_prefix(a, b, c, by, end - 1);
    }
}

proof fn lemma_nothing_replaced(s: Seq<char>, c: char, by: Seq<char>, end: int)
    requires
        0 <= end <= s.len(),
        forall|i: int| 0 <= i < s.len() ==> s[i] != c,
    ensures
        replaced(s, c, by, end) == s.take(end),
    decreases end,
{
    if end > 0 {
        lemma_nothing_replaced(s, c, by, end - 1);
        assert(s.take(end) =~= s.take(end - 1).push(s[end - 1]));
    } else {
        assert(s.take(0) =~= Seq::<char>::empty());
    }
}

/// Two texts are the same but for case exactly if they are equally long and differ in the case
/// of ASCII letters only.
pub proof fn law_only_the_case_of_letters_is_ignored(a: Seq<char>, b: Seq<char>)
    ensures
        same_but_case(a, b) <==> a.len() == b.len() && forall|i: int|
            0 <= i < a.len() ==> {
                let x = #[trigger] a[i];
                let y = b[i];
                ||| x == y
                ||| 'A' <= x <= 'Z' && y as u32 == x as u32 + 32
                ||| 'A' <= y <= 'Z' && x as u32 == y as u32 + 32
            },
{
    let left = a.map_values(|c: char| lower(c));
    let right = b.map_values(|c: char| lower(c));
    if same_but_case(a, b) {
        assert(left.len() == a.len() && right.len() == b.len());
        assert forall|i: int| 0 <= i < a.len() implies {
            let x = #[trigger] a[i];
            let y = b[i];
            ||| x == y
            ||| 'A' <= x <= 'Z' && y as u32 == x as u32 + 32
            ||| 'A' <= y <= 'Z' && x as u32 == y as u32 + 32
        } by {
            assert(left[i] == right[i]);
            lemma_lower(a[i]);
            lemma_lower(b[i]);
        }
    } else if a.len() == b.len() && forall|i: int|
        0 <= i < a.len() ==> {
            let x = #[trigger] a[i];
            let y = b[i];
            ||| x == y
            ||| 'A' <= x <= 'Z' && y as u32 == x as u32 + 32
            ||| 'A' <= y <= 'Z' && x as u32 == y as u32 + 32
        } {
        assert forall|i: int| 0 <= i < a.len() implies left[i] == right[i] by {
            assert(a[i] == a[i]);
            lemma_lower(a[i]);
            lemma_lower(b[i]);
        }
        assert(left =~= right);
    }
}

proof fn lemma_lower(c: char)
    ensures
        'A' <= c <= 'Z' ==> lower(c) as u32 == c as u32 + 32,
        !('A' <= c <= 'Z') ==> lower(c) == c,
{
}

} // verus!
