//! The grammar of SVG transforms and coordinates.
//!
//! The scanners find the numbers in a text and say where the grammar is broken. The
//! values of the numbers come from outside, as bit patterns: a number that is not
//! finite is a fault that comes before every later one.

use vstd::prelude::*;

use crate::gap::{gap_within, is_gap_within};
use crate::measure::{finite, is_finite};
use crate::scan::{
    ascii, ascii_bytes, lemma_run_behind, lemma_run_end, lemma_run_goes_on, lemma_run_in_front,
    range_is, run_end, skip_run, ByteClass,
};
use crate::svg_tag::SvgFault;
use crate::text::copy_range;

verus! {

// ---------------------------------------------------------------------------
// Numbers
// ---------------------------------------------------------------------------

pub open spec fn is_sign(byte: u8) -> bool {
    byte == 0x2b || byte == 0x2d
}

/// Where the number that starts at `start` ends: an optional sign, digits with an
/// optional point among them, and an optional exponent.
pub open spec fn number_end(raw: Seq<u8>, start: int) -> Result<int, SvgFault> {
    let whole = if is_sign(raw[start]) {
        start + 1
    } else {
        start
    };
    let whole_end = run_end(raw, whole, ByteClass::Digit);
    let has_point = whole_end < raw.len() && raw[whole_end] == 0x2e;
    let fraction_end = if has_point {
        run_end(raw, whole_end + 1, ByteClass::Digit)
    } else {
        whole_end
    };
    if whole_end == whole && (!has_point || fraction_end == whole_end + 1) {
        Err(SvgFault::Number)
    } else if fraction_end < raw.len() && (raw[fraction_end] == 0x65 || raw[fraction_end]
        == 0x45) {
        let sign = fraction_end + 1;
        let exponent = if sign < raw.len() && is_sign(raw[sign]) {
            sign + 1
        } else {
            sign
        };
        let exponent_end = run_end(raw, exponent, ByteClass::Digit);
        if exponent_end == exponent {
            Err(SvgFault::Exponent)
        } else {
            Ok(exponent_end)
        }
    } else {
        Ok(fraction_end)
    }
}

/// A number goes forward and stays in the text.
pub proof fn lemma_number_end(raw: Seq<u8>, start: int)
    requires
        0 <= start < raw.len(),
    ensures
        number_end(raw, start) matches Ok(end) ==> start < end <= raw.len(),
{
    let whole = if is_sign(raw[start]) {
        start + 1
    } else {
        start
    };
    let whole_end = run_end(raw, whole, ByteClass::Digit);
    lemma_run_end(raw, whole, ByteClass::Digit);
    lemma_run_end(raw, whole_end + 1, ByteClass::Digit);
    let has_point = whole_end < raw.len() && raw[whole_end] == 0x2e;
    let fraction_end = if has_point {
        run_end(raw, whole_end + 1, ByteClass::Digit)
    } else {
        whole_end
    };
    lemma_run_end(raw, fraction_end + 1, ByteClass::Digit);
    lemma_run_end(raw, fraction_end + 2, ByteClass::Digit);
}

fn find_number_end(raw: &[u8], start: usize) -> (res: Result<usize, SvgFault>)
    requires
        start < raw@.len(),
    ensures
        match res {
            Ok(end) => number_end(raw@, start as int) == Ok::<_, SvgFault>(end as int) && start
                < end <= raw@.len(),
            Err(fault) => number_end(raw@, start as int) == Err::<int, _>(fault),
        },
{
    proof {
        lemma_number_end(raw@, start as int);
    }
    let whole: usize = if raw[start] == 0x2b || raw[start] == 0x2d {
        start + 1
    } else {
        start
    };
    let whole_end: usize = skip_run(raw, whole, ByteClass::Digit);
    let has_point = whole_end < raw.len() && raw[whole_end] == 0x2e;
    let fraction_end: usize = if has_point {
        skip_run(raw, whole_end + 1, ByteClass::Digit)
    } else {
        whole_end
    };
    if whole_end == whole && (!has_point || fraction_end == whole_end + 1) {
        return Err(SvgFault::Number);
    }
    if fraction_end < raw.len() && (raw[fraction_end] == 0x65 || raw[fraction_end] == 0x45) {
        let sign: usize = fraction_end + 1;
        let exponent: usize = if sign < raw.len() && (raw[sign] == 0x2b || raw[sign] == 0x2d) {
            sign + 1
        } else {
            sign
        };
        let exponent_end: usize = skip_run(raw, exponent, ByteClass::Digit);
        if exponent_end == exponent {
            return Err(SvgFault::Exponent);
        }
        return Ok(exponent_end);
    }
    Ok(fraction_end)
}

/// The texts of the numbers from `cursor` on, between white space and commas, up to
/// the first fault.
pub open spec fn numbers_from(raw: Seq<u8>, cursor: int) -> (Seq<Seq<u8>>, Option<SvgFault>)
    decreases raw.len() - cursor,
{
    let start = run_end(raw, cursor, ByteClass::SpaceOrComma);
    if cursor < 0 || start >= raw.len() {
        (Seq::empty(), None)
    } else {
        proof {
            lemma_run_end(raw, cursor, ByteClass::SpaceOrComma);
            lemma_number_end(raw, start);
        }
        match number_end(raw, start) {
            Err(fault) => (Seq::empty(), Some(fault)),
            Ok(end) => {
                let (rest, fault) = numbers_from(raw, end);
                (seq![raw.subrange(start, end)] + rest, fault)
            },
        }
    }
}

/// The numbers of a text.
pub struct NumberScan {
    /// The text of each number, in order.
    pub numbers: Vec<Vec<u8>>,
    /// What stopped the scan.
    pub fault: Option<SvgFault>,
}

/// The texts as mathematical sequences.
pub open spec fn texts(numbers: Seq<Vec<u8>>) -> Seq<Seq<u8>> {
    numbers.map_values(|number: Vec<u8>| number@)
}

/// Finds the numbers of `raw`, up to the first fault.
pub fn parse_svg_numbers(raw: &[u8]) -> (res: NumberScan)
    ensures
        (texts(res.numbers@), res.fault) == numbers_from(raw@, 0),
{
    let mut numbers: Vec<Vec<u8>> = Vec::new();
    let mut cursor: usize = 0;
    let ghost goal = numbers_from(raw@, 0);
    assert(texts(numbers@) + goal.0 =~= goal.0);
    loop
        invariant
            cursor <= raw@.len(),
            goal == numbers_from(raw@, 0),
            texts(numbers@) + numbers_from(raw@, cursor as int).0 == goal.0,
            numbers_from(raw@, cursor as int).1 == goal.1,
        decreases raw@.len() - cursor,
    {
        let start: usize = skip_run(raw, cursor, ByteClass::SpaceOrComma);
        if start >= raw.len() {
            assert(texts(numbers@) + Seq::<Seq<u8>>::empty() =~= texts(numbers@));
            return NumberScan { numbers, fault: None };
        }
        let ghost before = texts(numbers@);
        match find_number_end(raw, start) {
            Err(fault) => {
                assert(texts(numbers@) + Seq::<Seq<u8>>::empty() =~= texts(numbers@));
                return NumberScan { numbers, fault: Some(fault) };
            },
            Ok(end) => {
                numbers.push(copy_range(raw, start, end));
                assert(texts(numbers@) =~= before.push(raw@.subrange(start as int, end as int)));
                proof {
                    let rest = numbers_from(raw@, end as int).0;
                    assert(texts(numbers@) + rest =~= before + (seq![
                        raw@.subrange(start as int, end as int),
                    ] + rest));
                }
                cursor = end;
            },
        }
    }
}

/// What a text with one number is worth: the fault that comes first.
pub open spec fn single_fault(count: nat, fault: Option<SvgFault>, values: Seq<u64>) -> Option<
    SvgFault,
> {
    if exists|i: int| 0 <= i < values.len() && !finite(#[trigger] values[i]) {
        Some(SvgFault::NotFinite)
    } else if fault is Some {
        fault
    } else if count != 1 {
        Some(SvgFault::NotSingle)
    } else {
        None
    }
}

/// Whether one of the values is not finite.
pub fn any_not_finite(values: &[u64]) -> (res: bool)
    ensures
        res == exists|i: int| 0 <= i < values@.len() && !finite(#[trigger] values@[i]),
{
    for i in 0..values.len()
        invariant
            forall|k: int| 0 <= k < i ==> finite(#[trigger] values@[k]),
    {
        if !is_finite(values[i]) {
            return true;
        }
    }
    false
}

/// The value of a text that has to hold one number; `values` are the values of the
/// numbers of the scan.
pub fn parse_svg_number(scan: &NumberScan, values: &[u64]) -> (res: Result<u64, SvgFault>)
    requires
        values@.len() == scan.numbers@.len(),
    ensures
        match res {
            Ok(value) => single_fault(scan.numbers@.len(), scan.fault, values@) is None && value
                == values@[0],
            Err(fault) => single_fault(scan.numbers@.len(), scan.fault, values@) == Some(fault),
        },
{
    if any_not_finite(values) {
        return Err(SvgFault::NotFinite);
    }
    match scan.fault {
        Some(fault) => return Err(fault),
        None => {},
    }
    if values.len() != 1 {
        return Err(SvgFault::NotSingle);
    }
    Ok(values[0])
}

// ---------------------------------------------------------------------------
// Transforms
// ---------------------------------------------------------------------------

#[derive(Debug, Clone, Copy, PartialEq, Eq, Structural)]
pub enum TransformFunction {
    Matrix,
    Translate,
    Scale,
    Rotate,
    SkewX,
    SkewY,
}

/// A function of a transform with its number of arguments.
#[derive(Debug, Clone, Copy, PartialEq, Eq, Structural)]
pub struct TransformStep {
    pub function: TransformFunction,
    pub count: usize,
}

/// The function of that name that takes `count` arguments.
pub open spec fn function_named(name: Seq<u8>, count: nat) -> Option<TransformFunction> {
    if name == ascii("matrix"@) && count == 6 {
        Some(TransformFunction::Matrix)
    } else if name == ascii("translate"@) && 1 <= count <= 2 {
        Some(TransformFunction::Translate)
    } else if name == ascii("scale"@) && 1 <= count <= 2 {
        Some(TransformFunction::Scale)
    } else if name == ascii("rotate"@) && (count == 1 || count == 3) {
        Some(TransformFunction::Rotate)
    } else if name == ascii("skewX"@) && count == 1 {
        Some(TransformFunction::SkewX)
    } else if name == ascii("skewY"@) && count == 1 {
        Some(TransformFunction::SkewY)
    } else {
        None
    }
}

fn find_function(raw: &[u8], from: usize, to: usize, count: usize) -> (res: Option<
    TransformFunction,
>)
    requires
        from <= to <= raw@.len(),
    ensures
        res == function_named(raw@.subrange(from as int, to as int), count as nat),
{
    if count == 6 && range_is(raw, from, to, ascii_bytes("matrix").as_slice()) {
        return Some(TransformFunction::Matrix);
    }
    let few = count == 1 || count == 2;
    if few && range_is(raw, from, to, ascii_bytes("translate").as_slice()) {
        return Some(TransformFunction::Translate);
    }
    if few && range_is(raw, from, to, ascii_bytes("scale").as_slice()) {
        return Some(TransformFunction::Scale);
    }
    if (count == 1 || count == 3) && range_is(raw, from, to, ascii_bytes("rotate").as_slice()) {
        return Some(TransformFunction::Rotate);
    }
    if count == 1 && range_is(raw, from, to, ascii_bytes("skewX").as_slice()) {
        return Some(TransformFunction::SkewX);
    }
    if count == 1 && range_is(raw, from, to, ascii_bytes("skewY").as_slice()) {
        return Some(TransformFunction::SkewY);
    }
    None
}

/// What a transform is made of: its functions, the texts of all their numbers in
/// order, and the fault that ends it.
pub struct SpecTransform {
    pub steps: Seq<TransformStep>,
    pub numbers: Seq<Seq<u8>>,
    pub fault: Option<SvgFault>,
}

pub open spec fn only_fault(fault: SvgFault) -> SpecTransform {
    SpecTransform { steps: Seq::empty(), numbers: Seq::empty(), fault: Some(fault) }
}

/// The transform from `cursor` on.
pub open spec fn transform_from(raw: Seq<u8>, cursor: int) -> SpecTransform
    decreases raw.len() - cursor,
{
    let name = run_end(raw, cursor, ByteClass::SpaceOrComma);
    let name_end = run_end(raw, name, ByteClass::Letter);
    let opening = run_end(raw, name_end, ByteClass::Space);
    let closing = run_end(raw, opening + 1, ByteClass::Not(0x29u8));
    if cursor < 0 || name >= raw.len() {
        SpecTransform { steps: Seq::empty(), numbers: Seq::empty(), fault: None }
    } else if name_end == name {
        only_fault(SvgFault::TransformName)
    } else if opening >= raw.len() || raw[opening] != 0x28 {
        only_fault(SvgFault::TransformOpening)
    } else if closing >= raw.len() {
        only_fault(SvgFault::TransformClosing)
    } else {
        let (numbers, fault) = numbers_from(raw.subrange(opening + 1, closing), 0);
        if fault is Some {
            SpecTransform { steps: Seq::empty(), numbers, fault }
        } else {
            match function_named(raw.subrange(name, name_end), numbers.len()) {
                None => SpecTransform {
                    steps: Seq::empty(),
                    numbers,
                    fault: Some(SvgFault::TransformArguments),
                },
                Some(function) => {
                    proof {
                        lemma_run_end(raw, cursor, ByteClass::SpaceOrComma);
                        lemma_run_end(raw, name, ByteClass::Letter);
                        lemma_run_end(raw, name_end, ByteClass::Space);
                        lemma_run_end(raw, opening + 1, ByteClass::Not(0x29u8));
                    }
                    let rest = transform_from(raw, closing + 1);
                    SpecTransform {
                        steps: seq![TransformStep { function, count: numbers.len() as usize }]
                            + rest.steps,
                        numbers: numbers + rest.numbers,
                        fault: rest.fault,
                    }
                },
            }
        }
    }
}

// ---------------------------------------------------------------------------
// Transforms one after the other
// ---------------------------------------------------------------------------

/// The transform `first`, then `second`; its fault is that of `second`.
pub open spec fn one_after_the_other(first: SpecTransform, second: SpecTransform) -> SpecTransform {
    SpecTransform {
        steps: first.steps + second.steps,
        numbers: first.numbers + second.numbers,
        fault: second.fault,
    }
}

proof fn lemma_transform_behind(front: Seq<u8>, back: Seq<u8>, cursor: int)
    requires
        0 <= cursor <= back.len(),
    ensures
        transform_from(front + back, front.len() + cursor) == transform_from(back, cursor),
    decreases back.len() - cursor,
{
    let whole = front + back;
    let shift = front.len() as int;
    let name = run_end(back, cursor, ByteClass::SpaceOrComma);
    let name_end = run_end(back, name, ByteClass::Letter);
    let opening = run_end(back, name_end, ByteClass::Space);
    let closing = run_end(back, opening + 1, ByteClass::Not(0x29u8));
    lemma_run_end(back, cursor, ByteClass::SpaceOrComma);
    lemma_run_end(back, name, ByteClass::Letter);
    lemma_run_end(back, name_end, ByteClass::Space);
    lemma_run_end(back, opening + 1, ByteClass::Not(0x29u8));
    lemma_run_behind(front, back, cursor, ByteClass::SpaceOrComma);
    lemma_run_behind(front, back, name, ByteClass::Letter);
    lemma_run_behind(front, back, name_end, ByteClass::Space);
    lemma_run_behind(front, back, opening + 1, ByteClass::Not(0x29u8));
    if name < back.len() && opening < back.len() && closing < back.len() {
        assert(whole[shift + opening] == back[opening]);
        assert(whole.subrange(shift + opening + 1, shift + closing) =~= back.subrange(
            opening + 1,
            closing,
        ));
        assert(whole.subrange(shift + name, shift + name_end) =~= back.subrange(name, name_end));
        lemma_transform_behind(front, back, closing + 1);
    }
}

proof fn lemma_transforms_joined(first: Seq<u8>, second: Seq<u8>, cursor: int)
    requires
        0 <= cursor <= first.len(),
        transform_from(first, cursor).fault is None,
    ensures
        transform_from(first + seq![0x20u8] + second, cursor) == one_after_the_other(
            transform_from(first, cursor),
            transform_from(second, 0),
        ),
    decreases first.len() - cursor,
{
    let gap = seq![0x20u8];
    let back = gap + second;
    let whole = first + back;
    assert(first + gap + second =~= whole);
    let name = run_end(first, cursor, ByteClass::SpaceOrComma);
    let name_end = run_end(first, name, ByteClass::Letter);
    let opening = run_end(first, name_end, ByteClass::Space);
    let closing = run_end(first, opening + 1, ByteClass::Not(0x29u8));
    lemma_run_end(first, cursor, ByteClass::SpaceOrComma);
    lemma_run_end(first, name, ByteClass::Letter);
    lemma_run_end(first, name_end, ByteClass::Space);
    lemma_run_end(first, opening + 1, ByteClass::Not(0x29u8));
    let joined = one_after_the_other(transform_from(first, cursor), transform_from(second, 0));
    if name >= first.len() {
        lemma_run_goes_on(first, back, cursor, ByteClass::SpaceOrComma);
        lemma_run_behind(first, back, 0, ByteClass::SpaceOrComma);
        assert(transform_from(whole, cursor) == transform_from(whole, first.len() as int));
        lemma_transform_behind(first, back, 0);
        assert(back[0] == 0x20u8);
        assert(run_end(back, 0, ByteClass::SpaceOrComma) == run_end(
            back,
            1,
            ByteClass::SpaceOrComma,
        ));
        assert(transform_from(back, 0) == transform_from(back, 1));
        lemma_transform_behind(gap, second, 0);
        assert(joined.steps =~= transform_from(second, 0).steps);
        assert(joined.numbers =~= transform_from(second, 0).numbers);
    } else {
        lemma_run_in_front(first, back, cursor, ByteClass::SpaceOrComma);
        lemma_run_in_front(first, back, name, ByteClass::Letter);
        lemma_run_in_front(first, back, name_end, ByteClass::Space);
        lemma_run_in_front(first, back, opening + 1, ByteClass::Not(0x29u8));
        assert(whole[opening] == first[opening]);
        assert(whole.subrange(opening + 1, closing) =~= first.subrange(opening + 1, closing));
        assert(whole.subrange(name, name_end) =~= first.subrange(name, name_end));
        lemma_transforms_joined(first, second, closing + 1);
        assert(transform_from(whole, cursor).steps =~= joined.steps);
        assert(transform_from(whole, cursor).numbers =~= joined.numbers);
    }
}

/// A transform and another one, with a space between them, have the functions and the
/// numbers of the first, then those of the second.
pub proof fn law_transforms_follow_each_other(first: Seq<u8>, second: Seq<u8>)
    requires
        transform_from(first, 0).fault is None,
    ensures
        transform_from(first + seq![0x20u8] + second, 0) == one_after_the_other(
            transform_from(first, 0),
            transform_from(second, 0),
        ),
{
    lemma_transforms_joined(first, second, 0);
}

/// An empty text has no functions, no numbers and no fault.
pub proof fn law_an_empty_transform_does_nothing()
    ensures
        transform_from(Seq::empty(), 0) == (SpecTransform {
            steps: Seq::empty(),
            numbers: Seq::empty(),
            fault: None,
        }),
{
}

/// A transform as it was scanned.
pub struct TransformScan {
    pub steps: Vec<TransformStep>,
    /// The texts of all numbers, in order; each step takes as many as it counts.
    pub numbers: Vec<Vec<u8>>,
    /// What stopped the scan.
    pub fault: Option<SvgFault>,
}

impl TransformScan {
    pub open spec fn model(&self) -> SpecTransform {
        SpecTransform {
            steps: self.steps@,
            numbers: texts(self.numbers@),
            fault: self.fault,
        }
    }
}

/// Moves the numbers of `more` behind those of `numbers`.
fn append_numbers(numbers: &mut Vec<Vec<u8>>, more: Vec<Vec<u8>>)
    ensures
        texts(final(numbers)@) == texts(old(numbers)@) + texts(more@),
{
    let ghost before = texts(numbers@);
    let count: usize = more.len();
    for i in 0..count
        invariant
            count == more@.len(),
            texts(numbers@) == before + texts(more@).take(i as int),
    {
        let ghost so_far = texts(numbers@);
        numbers.push(copy_range(more[i].as_slice(), 0, more[i].len()));
        assert(numbers@.last()@ =~= more@[i as int]@);
        assert(texts(numbers@) =~= so_far.push(more@[i as int]@));
    }
    assert(texts(more@).take(count as int) =~= texts(more@));
}

/// Scans a transform: its functions, their numbers, and the first fault.
pub fn parse_svg_transform(raw: &[u8]) -> (res: TransformScan)
    ensures
        res.model() == transform_from(raw@, 0),
{
    let mut steps: Vec<TransformStep> = Vec::new();
    let mut numbers: Vec<Vec<u8>> = Vec::new();
    let mut cursor: usize = 0;
    let ghost goal = transform_from(raw@, 0);
    assert(steps@ + goal.steps =~= goal.steps);
    assert(texts(numbers@) + goal.numbers =~= goal.numbers);
    loop
        invariant
            cursor <= raw@.len(),
            goal == transform_from(raw@, 0),
            steps@ + transform_from(raw@, cursor as int).steps == goal.steps,
            texts(numbers@) + transform_from(raw@, cursor as int).numbers == goal.numbers,
            transform_from(raw@, cursor as int).fault == goal.fault,
        decreases raw@.len() - cursor,
    {
        let ghost rest = transform_from(raw@, cursor as int);
        let ghost steps_before = steps@;
        let ghost numbers_before = texts(numbers@);
        let name: usize = skip_run(raw, cursor, ByteClass::SpaceOrComma);
        if name >= raw.len() {
            assert(steps@ =~= goal.steps);
            assert(texts(numbers@) =~= goal.numbers);
            return TransformScan { steps, numbers, fault: None };
        }
        let name_end: usize = skip_run(raw, name, ByteClass::Letter);
        if name_end == name {
            assert(steps@ =~= goal.steps);
            assert(texts(numbers@) =~= goal.numbers);
            return TransformScan { steps, numbers, fault: Some(SvgFault::TransformName) };
        }
        let opening: usize = skip_run(raw, name_end, ByteClass::Space);
        if opening >= raw.len() || raw[opening] != 0x28 {
            assert(steps@ =~= goal.steps);
            assert(texts(numbers@) =~= goal.numbers);
            return TransformScan { steps, numbers, fault: Some(SvgFault::TransformOpening) };
        }
        let closing: usize = skip_run(raw, opening + 1, ByteClass::Not(0x29));
        if closing >= raw.len() {
            assert(steps@ =~= goal.steps);
            assert(texts(numbers@) =~= goal.numbers);
            return TransformScan { steps, numbers, fault: Some(SvgFault::TransformClosing) };
        }
        let inside = copy_range(raw, opening + 1, closing);
        let scan = parse_svg_numbers(inside.as_slice());
        let count: usize = scan.numbers.len();
        let ghost found = texts(scan.numbers@);
        append_numbers(&mut numbers, scan.numbers);
        match scan.fault {
            Some(fault) => {
                assert(steps@ =~= goal.steps);
                return TransformScan { steps, numbers, fault: Some(fault) };
            },
            None => {},
        }
        match find_function(raw, name, name_end, count) {
            None => {
                assert(steps@ =~= goal.steps);
                return TransformScan {
                    steps,
                    numbers,
                    fault: Some(SvgFault::TransformArguments),
                };
            },
            Some(function) => {
                let step = TransformStep { function, count };
                steps.push(step);
                proof {
                    let next = transform_from(raw@, closing + 1);
                    assert(rest.steps == seq![step] + next.steps);
                    assert(steps@ + next.steps =~= steps_before + rest.steps);
                    assert(texts(numbers@) + next.numbers =~= numbers_before + rest.numbers);
                }
                cursor = closing + 1;
            },
        }
    }
}

/// The fault of a transform, once the values of its numbers are known.
pub open spec fn transform_fault(fault: Option<SvgFault>, values: Seq<u64>) -> Option<SvgFault> {
    if exists|i: int| 0 <= i < values.len() && !finite(#[trigger] values[i]) {
        Some(SvgFault::NotFinite)
    } else {
        fault
    }
}

/// Whether a transform is sound; `values` are the values of its numbers.
pub fn check_transform(scan: &TransformScan, values: &[u64]) -> (res: Result<(), SvgFault>)
    requires
        values@.len() == scan.numbers@.len(),
    ensures
        match res {
            Ok(_) => transform_fault(scan.fault, values@) is None,
            Err(fault) => transform_fault(scan.fault, values@) == Some(fault),
        },
{
    if any_not_finite(values) {
        return Err(SvgFault::NotFinite);
    }
    match scan.fault {
        Some(fault) => Err(fault),
        None => Ok(()),
    }
}

// ---------------------------------------------------------------------------
// Numbers in the output
// ---------------------------------------------------------------------------

/// `s` without the zeros at its end.
pub open spec fn without_zeros(s: Seq<char>) -> Seq<char>
    decreases s.len(),
{
    if s.len() > 0 && s.last() == '0' {
        without_zeros(s.drop_last())
    } else {
        s
    }
}

/// The shortest form of a number written with a fixed number of decimals.
pub open spec fn short_number(fixed: Seq<char>) -> Seq<char> {
    let cut = if fixed.contains('.') {
        without_zeros(fixed)
    } else {
        fixed
    };
    let plain = if cut.len() > 0 && cut.last() == '.' {
        cut.drop_last()
    } else {
        cut
    };
    if plain == seq!['-', '0'] {
        seq!['0']
    } else {
        plain
    }
}

/// The shortest form of a number written with a fixed number of decimals.
pub fn format_svg_number(fixed: &[char]) -> (res: Vec<char>)
    ensures
        res@ == short_number(fixed@),
{
    let mut has_point = false;
    for i in 0..fixed.len()
        invariant
            has_point == exists|k: int| 0 <= k < i && fixed@[k] == '.',
    {
        if fixed[i] == '.' {
            has_point = true;
        }
    }
    assert(fixed@.take(fixed@.len() as int) =~= fixed@);
    let mut end: usize = fixed.len();
    if has_point {
        while end > 0 && fixed[end - 1] == '0'
            invariant
                end <= fixed@.len(),
                without_zeros(fixed@) == without_zeros(fixed@.take(end as int)),
            decreases end,
        {
            assert(fixed@.take(end as int).drop_last() =~= fixed@.take(end - 1));
            end = end - 1;
        }
    }
    let ghost cut = if has_point {
        without_zeros(fixed@)
    } else {
        fixed@
    };
    assert(cut == fixed@.take(end as int));
    if end > 0 && fixed[end - 1] == '.' {
        assert(fixed@.take(end as int).drop_last() =~= fixed@.take(end - 1));
        end = end - 1;
    }
    let res = copy_range(fixed, 0, end);
    assert(res@ =~= fixed@.take(end as int));
    if end == 2 && fixed[0] == '-' && fixed[1] == '0' {
        assert(res@ =~= seq!['-', '0']);
        let mut zero: Vec<char> = Vec::new();
        zero.push('0');
        assert(zero@ =~= seq!['0']);
        return zero;
    }
    proof {
        if res@ == seq!['-', '0'] {
            assert(res@.len() == 2);
            assert(res@[0] == '-' && res@[1] == '0');
        }
    }
    res
}

// ---------------------------------------------------------------------------
// Matrices
// ---------------------------------------------------------------------------

/// One.
pub const ONE: u64 = 0x3ff0_0000_0000_0000;

/// A billionth.
pub const BILLIONTH: u64 = 0x3e11_2e0b_e826_d695;

/// The matrix that changes nothing.
pub open spec fn identity() -> Seq<u64> {
    seq![ONE, 0u64, 0u64, ONE, 0u64, 0u64]
}

/// Whether a matrix changes next to nothing.
pub open spec fn is_identity(matrix: Seq<u64>) -> bool {
    forall|i: int| 0 <= i < 6 ==> gap_within(#[trigger] matrix[i], identity()[i], BILLIONTH)
}

/// Whether a matrix changes next to nothing.
pub fn matrix_is_identity(matrix: &[u64; 6]) -> (res: bool)
    ensures
        res == is_identity(matrix@),
{
    let expected: [u64; 6] = [ONE, 0, 0, ONE, 0, 0];
    assert(expected@ =~= identity());
    for i in 0..6usize
        invariant
            expected@ == identity(),
            forall|k: int|
                0 <= k < i ==> gap_within(#[trigger] matrix@[k], identity()[k], BILLIONTH),
    {
        if !is_gap_within(matrix[i], expected[i], BILLIONTH) {
            return false;
        }
    }
    true
}

/// Whether an image can stay where it is: neither what is around it nor its own transform
/// moves it.
pub fn keeps_place(around: &[u64; 6], own: &[u64; 6]) -> (res: bool)
    ensures
        res == (is_identity(around@) && is_identity(own@)),
{
    matrix_is_identity(around) && matrix_is_identity(own)
}

// ---------------------------------------------------------------------------
// What transforms and numbers say
// ---------------------------------------------------------------------------

/// A function is known by its name, and takes as many arguments as it is meant to: a matrix
/// six, a translation and a scaling one or two, a rotation one or three, a skew one.
pub proof fn law_functions_take_their_arguments(name: Seq<u8>, count: nat)
    ensures
        function_named(name, count) == Some(TransformFunction::Matrix) <==> name == ascii(
            "matrix"@,
        ) && count == 6,
        function_named(name, count) == Some(TransformFunction::Translate) <==> name == ascii(
            "translate"@,
        ) && (count == 1 || count == 2),
        function_named(name, count) == Some(TransformFunction::Scale) <==> name == ascii("scale"@)
            && (count == 1 || count == 2),
        function_named(name, count) == Some(TransformFunction::Rotate) <==> name == ascii(
            "rotate"@,
        ) && (count == 1 || count == 3),
        function_named(name, count) == Some(TransformFunction::SkewX) <==> name == ascii("skewX"@)
            && count == 1,
        function_named(name, count) == Some(TransformFunction::SkewY) <==> name == ascii("skewY"@)
            && count == 1,
{
    reveal_strlit("matrix");
    reveal_strlit("translate");
    reveal_strlit("scale");
    reveal_strlit("rotate");
    reveal_strlit("skewX");
    reveal_strlit("skewY");
    assert(ascii("matrix"@).len() == 6 && ascii("matrix"@)[0] == 0x6du8);
    assert(ascii("rotate"@).len() == 6 && ascii("rotate"@)[0] == 0x72u8);
    assert(ascii("translate"@).len() == 9);
    assert(ascii("scale"@).len() == 5 && ascii("scale"@)[1] == 0x63u8);
    assert(ascii("skewX"@).len() == 5 && ascii("skewX"@)[1] == 0x6bu8 && ascii("skewX"@)[4]
        == 0x58u8);
    assert(ascii("skewY"@).len() == 5 && ascii("skewY"@)[1] == 0x6bu8 && ascii("skewY"@)[4]
        == 0x59u8);
}

/// The numbers that the functions of a transform count are its numbers.
pub open spec fn counted(steps: Seq<TransformStep>) -> nat
    decreases steps.len(),
{
    if steps.len() == 0 {
        0
    } else {
        steps[0].count as nat + counted(steps.skip(1))
    }
}

/// A transform without a fault has exactly as many numbers as its functions take, so each
/// function has its own.
pub proof fn law_functions_share_the_numbers(raw: Seq<u8>, cursor: int)
    requires
        0 <= cursor <= raw.len() <= usize::MAX,
        transform_from(raw, cursor).fault is None,
    ensures
        counted(transform_from(raw, cursor).steps) == transform_from(raw, cursor).numbers.len(),
        forall|k: int|
            0 <= k < transform_from(raw, cursor).steps.len() ==> {
                let step = #[trigger] transform_from(raw, cursor).steps[k];
                1 <= step.count <= 6
            },
    decreases raw.len() - cursor,
{
    let name = run_end(raw, cursor, ByteClass::SpaceOrComma);
    let name_end = run_end(raw, name, ByteClass::Letter);
    let opening = run_end(raw, name_end, ByteClass::Space);
    let closing = run_end(raw, opening + 1, ByteClass::Not(0x29u8));
    lemma_run_end(raw, cursor, ByteClass::SpaceOrComma);
    lemma_run_end(raw, name, ByteClass::Letter);
    lemma_run_end(raw, name_end, ByteClass::Space);
    lemma_run_end(raw, opening + 1, ByteClass::Not(0x29u8));
    if name < raw.len() {
        let (numbers, _) = numbers_from(raw.subrange(opening + 1, closing), 0);
        let rest = transform_from(raw, closing + 1);
        let all = transform_from(raw, cursor);
        law_functions_share_the_numbers(raw, closing + 1);
        assert(all.steps.skip(1) =~= rest.steps);
        assert(all.steps[0].count == numbers.len());
        assert forall|k: int| 0 <= k < all.steps.len() implies {
            let step = #[trigger] all.steps[k];
            1 <= step.count <= 6
        } by {
            if k > 0 {
                assert(all.steps[k] == rest.steps[k - 1]);
            }
        }
    }
}

/// Whether `text` is a number: digits, with a sign in front or not.
pub open spec fn is_whole_number(text: Seq<u8>) -> bool {
    let from = if text.len() > 0 && is_sign(text[0]) {
        1int
    } else {
        0int
    };
    from < text.len() && forall|i: int|
        from <= i < text.len() ==> ByteClass::Digit.holds(#[trigger] text[i])
}

proof fn lemma_whole_number_end(text: Seq<u8>, rest: Seq<u8>)
    requires
        is_whole_number(text),
        rest.len() > 0 ==> ByteClass::SpaceOrComma.holds(rest[0]),
    ensures
        number_end(text + rest, 0) == Ok::<int, SvgFault>(text.len() as int),
{
    let raw = text + rest;
    let from = if is_sign(text[0]) {
        1int
    } else {
        0int
    };
    assert(raw[0] == text[0]);
    assert forall|i: int| from <= i < text.len() implies ByteClass::Digit.holds(
        #[trigger] raw[i],
    ) by {
        assert(raw[i] == text[i]);
    }
    if rest.len() > 0 {
        assert(raw[text.len() as int] == rest[0]);
    }
    crate::scan::lemma_run_end_is(raw, from, ByteClass::Digit, text.len() as int);
}

/// A whole number is read as it is written, and what follows it behind a space or a comma is
/// read after it.
pub proof fn law_numbers_are_read_one_by_one(text: Seq<u8>, gap: u8, rest: Seq<u8>)
    requires
        is_whole_number(text),
        ByteClass::SpaceOrComma.holds(gap),
    ensures
        numbers_from(text, 0) == (seq![text], None::<SvgFault>),
        numbers_from(text + seq![gap] + rest, 0) == (
            seq![text] + numbers_from(rest, 0).0,
            numbers_from(rest, 0).1,
        ),
{
    let front = text + seq![gap];
    let raw = text + seq![gap] + rest;
    assert(text + Seq::<u8>::empty() =~= text);
    lemma_whole_number_end(text, Seq::empty());
    assert(!ByteClass::SpaceOrComma.holds(text[0])) by {
        if !is_sign(text[0]) {
            assert(ByteClass::Digit.holds(text[0]));
        }
    }
    assert(run_end(text, 0, ByteClass::SpaceOrComma) == 0);
    assert(run_end(text, text.len() as int, ByteClass::SpaceOrComma) == text.len());
    assert(text.subrange(0, text.len() as int) =~= text);
    assert(numbers_from(text, text.len() as int).0 =~= Seq::<Seq<u8>>::empty());
    assert(numbers_from(text, 0).0 =~= seq![text]);

    assert(raw =~= text + (seq![gap] + rest));
    lemma_whole_number_end(text, seq![gap] + rest);
    assert(raw[0] == text[0]);
    assert(run_end(raw, 0, ByteClass::SpaceOrComma) == 0);
    assert(raw.subrange(0, text.len() as int) =~= text);
    assert(raw =~= front + rest);
    assert(raw[text.len() as int] == gap);
    lemma_numbers_behind(front, rest, 0);
    assert(run_end(raw, text.len() as int, ByteClass::SpaceOrComma) == run_end(
        raw,
        (text.len() + 1) as int,
        ByteClass::SpaceOrComma,
    ));
    assert(numbers_from(raw, text.len() as int) == numbers_from(
        raw,
        (text.len() + 1) as int,
    ));
}

proof fn lemma_number_end_behind(front: Seq<u8>, back: Seq<u8>, start: int)
    requires
        0 <= start < back.len(),
    ensures
        number_end(front + back, front.len() + start) == (match number_end(back, start) {
            Ok(end) => Ok::<int, SvgFault>(front.len() + end),
            Err(fault) => Err(fault),
        }),
{
    let whole = front + back;
    let shift = front.len() as int;
    let digits = if is_sign(back[start]) {
        start + 1
    } else {
        start
    };
    assert(whole[shift + start] == back[start]);
    let whole_end = run_end(back, digits, ByteClass::Digit);
    lemma_run_end(back, digits, ByteClass::Digit);
    lemma_run_behind(front, back, digits, ByteClass::Digit);
    lemma_run_behind(front, back, whole_end + 1, ByteClass::Digit);
    lemma_run_end(back, whole_end + 1, ByteClass::Digit);
    if whole_end < back.len() {
        assert(whole[shift + whole_end] == back[whole_end]);
    }
    let has_point = whole_end < back.len() && back[whole_end] == 0x2e;
    let fraction_end = if has_point {
        run_end(back, whole_end + 1, ByteClass::Digit)
    } else {
        whole_end
    };
    if fraction_end < back.len() {
        assert(whole[shift + fraction_end] == back[fraction_end]);
        let sign = fraction_end + 1;
        if sign < back.len() {
            assert(whole[shift + sign] == back[sign]);
        }
        lemma_run_behind(front, back, sign, ByteClass::Digit);
        lemma_run_behind(front, back, sign + 1, ByteClass::Digit);
    }
}

proof fn lemma_numbers_behind(front: Seq<u8>, back: Seq<u8>, cursor: int)
    requires
        0 <= cursor <= back.len(),
    ensures
        numbers_from(front + back, front.len() + cursor) == numbers_from(back, cursor),
    decreases back.len() - cursor,
{
    let whole = front + back;
    let shift = front.len() as int;
    let start = run_end(back, cursor, ByteClass::SpaceOrComma);
    lemma_run_end(back, cursor, ByteClass::SpaceOrComma);
    lemma_run_behind(front, back, cursor, ByteClass::SpaceOrComma);
    if start < back.len() {
        lemma_number_end(back, start);
        lemma_number_end_behind(front, back, start);
        if let Ok(end) = number_end(back, start) {
            lemma_numbers_behind(front, back, end);
            assert(whole.subrange(shift + start, shift + end) =~= back.subrange(start, end));
        }
    }
}

proof fn lemma_without_zeros(s: Seq<char>)
    ensures
        without_zeros(s).len() <= s.len(),
        without_zeros(s) == s.take(without_zeros(s).len() as int),
        forall|i: int| without_zeros(s).len() <= i < s.len() ==> #[trigger] s[i] == '0',
        without_zeros(s).len() > 0 ==> without_zeros(s).last() != '0',
    decreases s.len(),
{
    if s.len() > 0 && s.last() == '0' {
        let rest = s.drop_last();
        lemma_without_zeros(rest);
        assert(rest.take(without_zeros(rest).len() as int) =~= s.take(
            without_zeros(rest).len() as int,
        ));
        assert forall|i: int| without_zeros(s).len() <= i < s.len() implies #[trigger] s[i]
            == '0' by {
            if i < rest.len() {
                assert(rest[i] == s[i]);
            }
        }
    } else {
        assert(s.take(s.len() as int) =~= s);
    }
}

/// A number is only shortened by what does not count: zeros at the end of its decimals, and
/// the point in front of them. What stays is the number, from its start on. A whole number is
/// left as it is; a zero has no sign.
pub proof fn law_shortening_keeps_the_number(fixed: Seq<char>)
    ensures
        ({
            let short = short_number(fixed);
            let kept = short.len() as int;
            short == seq!['0'] || {
                &&& short == fixed.take(kept)
                &&& forall|i: int| kept < i < fixed.len() ==> #[trigger] fixed[i] == '0'
                &&& kept < fixed.len() ==> fixed[kept] == '0' || fixed[kept] == '.'
            }
        }),
        !fixed.contains('.') && fixed != seq!['-', '0'] ==> short_number(fixed) == fixed,
        short_number(fixed) != seq!['-', '0'],
{
    lemma_without_zeros(fixed);
    let cut = if fixed.contains('.') {
        without_zeros(fixed)
    } else {
        fixed
    };
    assert(fixed.take(fixed.len() as int) =~= fixed);
    if cut.len() > 0 && cut.last() == '.' {
        assert(cut.drop_last() =~= fixed.take(cut.len() - 1));
    }
    if short_number(fixed) != seq!['0'] {
        let kept = short_number(fixed).len() as int;
        assert(!fixed.contains('.') ==> fixed.len() == kept || fixed.last() != '.');
        if !fixed.contains('.') && fixed.len() > 0 {
            assert(fixed.contains(fixed[fixed.len() - 1]));
        }
    }
    if !fixed.contains('.') && fixed.len() > 0 && fixed.last() == '.' {
        assert(fixed.contains(fixed[fixed.len() - 1]));
    }
}

/// Zeros at the end of the decimals of a number are left out, and all of them; a number
/// without decimals has no point.
pub proof fn law_zeros_at_the_end_are_left_out(
    whole: Seq<char>,
    decimals: Seq<char>,
    zeros: Seq<char>,
)
    requires
        whole.len() > 0,
        !whole.contains('.'),
        decimals.len() > 0 ==> decimals.last() != '0' && decimals.last() != '.',
        forall|i: int| 0 <= i < zeros.len() ==> zeros[i] == '0',
    ensures
        decimals.len() > 0 ==> short_number(whole + seq!['.'] + decimals + zeros) == whole
            + seq!['.'] + decimals,
        decimals.len() == 0 ==> short_number(whole + seq!['.'] + decimals + zeros) == if whole
            == seq!['-', '0'] {
            seq!['0']
        } else {
            whole
        },
{
    let front = whole + seq!['.'] + decimals;
    let fixed = front + zeros;
    assert(fixed[whole.len() as int] == '.');
    assert(fixed.contains('.'));
    assert(front.last() != '0');
    lemma_zeros_cut(front, zeros);
    if decimals.len() > 0 {
        assert(front[whole.len() as int] == '.');
        assert(front != seq!['-', '0']) by {
            if front == seq!['-', '0'] {
                assert(front.contains('.'));
            }
        }
    } else {
        assert(front.drop_last() =~= whole);
    }
}

proof fn lemma_zeros_cut(front: Seq<char>, zeros: Seq<char>)
    requires
        front.len() > 0,
        front.last() != '0',
        forall|i: int| 0 <= i < zeros.len() ==> zeros[i] == '0',
    ensures
        without_zeros(front + zeros) == front,
    decreases zeros.len(),
{
    if zeros.len() > 0 {
        assert((front + zeros).last() == '0');
        assert((front + zeros).drop_last() =~= front + zeros.drop_last());
        lemma_zeros_cut(front, zeros.drop_last());
    } else {
        assert(front + zeros =~= front);
    }
}

/// A matrix changes next to nothing exactly if it is next to the one that scales by one along
/// both axes, and neither skews nor moves.
pub proof fn law_the_identity_is_the_identity(matrix: Seq<u64>)
    requires
        matrix.len() == 6,
    ensures
        is_identity(matrix) <==> {
            &&& gap_within(matrix[0], 0x3ff0_0000_0000_0000, BILLIONTH)
            &&& gap_within(matrix[1], 0, BILLIONTH)
            &&& gap_within(matrix[2], 0, BILLIONTH)
            &&& gap_within(matrix[3], 0x3ff0_0000_0000_0000, BILLIONTH)
            &&& gap_within(matrix[4], 0, BILLIONTH)
            &&& gap_within(matrix[5], 0, BILLIONTH)
        },
        is_identity(identity()),
{
    let one = 0x3ff0_0000_0000_0000u64;
    crate::gap::law_gaps_are_symmetric(one, one, BILLIONTH);
    crate::gap::law_gaps_are_symmetric(0, 0, BILLIONTH);
    if is_identity(matrix) {
        assert(gap_within(matrix[0], identity()[0], BILLIONTH));
        assert(gap_within(matrix[1], identity()[1], BILLIONTH));
        assert(gap_within(matrix[2], identity()[2], BILLIONTH));
        assert(gap_within(matrix[3], identity()[3], BILLIONTH));
        assert(gap_within(matrix[4], identity()[4], BILLIONTH));
        assert(gap_within(matrix[5], identity()[5], BILLIONTH));
    }
}

/// A text stands for one number exactly if it has no fault and one number, which is finite. What
/// is not finite is told before anything else, and a fault before the wrong count.
pub proof fn law_one_number_is_one_number(count: nat, fault: Option<SvgFault>, values: Seq<u64>)
    requires
        values.len() == count,
    ensures
        single_fault(count, fault, values) is None <==> count == 1 && fault is None && finite(
            values[0],
        ),
        (forall|i: int| 0 <= i < values.len() ==> finite(#[trigger] values[i])) && fault is Some
            ==> single_fault(count, fault, values) == fault,
        (forall|i: int| 0 <= i < values.len() ==> finite(#[trigger] values[i])) ==> transform_fault(
            fault,
            values,
        ) == fault,
        (exists|i: int| 0 <= i < values.len() && !finite(#[trigger] values[i]))
            ==> transform_fault(fault, values) == Some(SvgFault::NotFinite) && single_fault(
            count,
            fault,
            values,
        ) == Some(SvgFault::NotFinite),
{
    if count == 1 && !finite(values[0]) {
        assert(exists|i: int| 0 <= i < values.len() && !finite(#[trigger] values[i]));
    }
    if single_fault(count, fault, values) is None && count == 1 {
        assert(!(0 <= 0 < values.len() && !finite(values[0])));
    }
}

} // verus!
