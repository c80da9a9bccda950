//! Holding what CorelDRAW shows against what was to be drawn.

use vstd::prelude::*;

use crate::digest::checksum_of;
use crate::domain::{ClosedPath, PointMm};
use crate::gap::{does_gap_exceed, gap_exceeds};
use crate::measure::{finite, is_before, is_less, is_nan, less, not_a_number, total_order};
use crate::names::{is_supported_name, is_supported_shape_name, CURVE_SHAPE};
use crate::text::{decimal, eq_ignore_case, push_decimal, same_but_case, same_text};

verus! {

/// A box on the page; measurements are bit patterns.
#[derive(Debug, Clone, Copy, PartialEq, Eq, Structural)]
pub struct BoundsMm {
    pub left: u64,
    pub bottom: u64,
    pub width: u64,
    pub height: u64,
}

/// A polygon with holes, each ring with the curve it approximates where there is one.
#[derive(Debug, Clone)]
pub struct VectorPolygon {
    pub exterior: Vec<PointMm>,
    pub interiors: Vec<Vec<PointMm>>,
    pub curved_exterior: Option<ClosedPath>,
    pub curved_interiors: Option<Vec<ClosedPath>>,
}

/// An object to draw.
#[derive(Debug, Clone)]
pub struct VectorShape {
    pub source_shape_path: String,
    pub name: String,
    pub outline_hex: String,
    pub outline_width_mm: u64,
    pub polygons: Vec<VectorPolygon>,
}

/// An object as CorelDRAW shows it.
#[derive(Debug, Clone)]
pub struct VerifiedShape {
    pub source_shape_path: String,
    pub name: String,
    pub shape_type: i32,
    pub subpath_count: i32,
    pub closed_subpaths: i32,
    pub fill_type: i32,
    pub outline_type: i32,
    pub outline_width_mm: u64,
    pub outline_rgb: [i32; 3],
    pub bounds_mm: BoundsMm,
}

/// The width of every outline: 0.076 millimeters.
pub const OUTLINE_WIDTH_MM: u64 = 0x3fb3_74bc_6a7e_f9db;

/// A billionth of a millimeter.
pub const STYLE_TOLERANCE_MM: u64 = 0x3e11_2e0b_e826_d695;

/// A five-hundredth of a millimeter.
pub const WIDTH_TOLERANCE_MM: u64 = 0x3f60_624d_d2f1_a9fc;

/// A fifth of a millimeter.
pub const BOUNDS_TOLERANCE_MM: u64 = 0x3fc9_9999_9999_999a;

/// The color of every outline.
pub const OUTLINE_RED: i32 = 236;

/// The color of every outline.
pub const OUTLINE_GREEN: i32 = 42;

/// The color of every outline.
pub const OUTLINE_BLUE: i32 = 144;

/// What does not hold of what is drawn.
#[derive(Debug, Clone, Copy, PartialEq, Eq, Structural)]
pub enum VerifyError {
    /// An object to draw has a wrong name, style or geometry.
    UnsupportedShape,
    /// An object does not look as it was drawn.
    UnexpectedShape,
    /// An object to draw has no point.
    NoPoints,
    /// An object to draw has more rings than can be counted.
    TooManyRings,
    /// There are more or fewer objects than were drawn.
    ShapeCount { expected: usize, found: usize },
    /// A report is empty or of another version.
    EmptyReport,
    /// A vector output is empty or of another version.
    EmptyVectors,
    /// The source is not the one that the vectors were made from.
    SourceChanged,
    /// The output is the source.
    SameFile,
}

impl VerifyError {
    /// The text shown for the error.
    pub open spec fn spec_message(self) -> Seq<char> {
        match self {
            VerifyError::UnsupportedShape =>
                "vector shape contains unsupported styling or geometry"@,
            VerifyError::UnexpectedShape => "unexpected Corel shape: "@,
            VerifyError::NoPoints => "vector shape has no exterior points"@,
            VerifyError::TooManyRings => "out of range integral type conversion attempted"@,
            VerifyError::ShapeCount { expected, found } => "expected "@ + decimal(expected as nat)
                + " vector curves, found "@ + decimal(found as nat),
            VerifyError::EmptyReport => "选择处理报告为空或版本不受支持"@,
            VerifyError::EmptyVectors => "unsupported or empty vector output"@,
            VerifyError::SourceChanged => "source CDR hash does not match vector output"@,
            VerifyError::SameFile => "refusing to overwrite the source CDR"@,
        }
    }

    /// The text shown for the error.
    pub fn message(self) -> (res: String)
        ensures
            res@ == self.spec_message(),
    {
        match self {
            VerifyError::UnsupportedShape =>
                "vector shape contains unsupported styling or geometry".to_owned(),
            VerifyError::UnexpectedShape => "unexpected Corel shape: ".to_owned(),
            VerifyError::NoPoints => "vector shape has no exterior points".to_owned(),
            VerifyError::TooManyRings =>
                "out of range integral type conversion attempted".to_owned(),
            VerifyError::ShapeCount { expected, found } => {
                let mut res = "expected ".to_owned();
                push_decimal(&mut res, expected as u64);
                res.push_str(" vector curves, found ");
                push_decimal(&mut res, found as u64);
                res
            },
            VerifyError::EmptyReport => "选择处理报告为空或版本不受支持".to_owned(),
            VerifyError::EmptyVectors => "unsupported or empty vector output".to_owned(),
            VerifyError::SourceChanged =>
                "source CDR hash does not match vector output".to_owned(),
            VerifyError::SameFile => "refusing to overwrite the source CDR".to_owned(),
        }
    }
}

// ---------------------------------------------------------------------------
// Objects
// ---------------------------------------------------------------------------

/// Whether an object may be drawn: it has a generated name, the one color and width of
/// outlines, and a polygon.
pub open spec fn is_drawable(shape: &VectorShape) -> bool {
    &&& is_supported_name(shape.name@)
    &&& same_but_case(shape.outline_hex@, "#EC2A90"@)
    &&& !gap_exceeds(shape.outline_width_mm, OUTLINE_WIDTH_MM, STYLE_TOLERANCE_MM)
    &&& shape.polygons@.len() > 0
}

/// Whether an object may be drawn.
pub fn validate_shape(shape: &VectorShape) -> (res: Result<(), VerifyError>)
    ensures
        res == (if is_drawable(shape) {
            Ok(())
        } else {
            Err::<(), _>(VerifyError::UnsupportedShape)
        }),
{
    if !is_supported_shape_name(shape.name.as_str()) || !eq_ignore_case(
        shape.outline_hex.as_str(),
        "#EC2A90",
    ) || does_gap_exceed(shape.outline_width_mm, OUTLINE_WIDTH_MM, STYLE_TOLERANCE_MM)
        || shape.polygons.len() == 0 {
        return Err(VerifyError::UnsupportedShape);
    }
    Ok(())
}

/// Whether two boxes differ in no measurement by more than the tolerance.
pub open spec fn bounds_agree(a: BoundsMm, b: BoundsMm) -> bool {
    &&& !gap_exceeds(a.left, b.left, BOUNDS_TOLERANCE_MM)
    &&& !gap_exceeds(a.bottom, b.bottom, BOUNDS_TOLERANCE_MM)
    &&& !gap_exceeds(a.width, b.width, BOUNDS_TOLERANCE_MM)
    &&& !gap_exceeds(a.height, b.height, BOUNDS_TOLERANCE_MM)
}

/// Whether an object looks as it was drawn: a closed curve without fill, with the one
/// color and width of outlines, where it belongs.
pub open spec fn looks_as_drawn(
    shape: &VerifiedShape,
    expected_subpaths: i32,
    expected_bounds: BoundsMm,
) -> bool {
    &&& is_supported_name(shape.name@)
    &&& shape.shape_type == CURVE_SHAPE
    &&& shape.subpath_count == expected_subpaths
    &&& shape.closed_subpaths == expected_subpaths
    &&& shape.fill_type == 0
    &&& shape.outline_type != 0
    &&& !gap_exceeds(shape.outline_width_mm, OUTLINE_WIDTH_MM, WIDTH_TOLERANCE_MM)
    &&& shape.outline_rgb@ == seq![OUTLINE_RED, OUTLINE_GREEN, OUTLINE_BLUE]
    &&& bounds_agree(shape.bounds_mm, expected_bounds)
}

/// Whether an object looks as it was drawn.
pub fn validate_verified_shape(
    shape: &VerifiedShape,
    expected_subpaths: i32,
    expected_bounds: BoundsMm,
) -> (res: Result<(), VerifyError>)
    ensures
        res == (if looks_as_drawn(shape, expected_subpaths, expected_bounds) {
            Ok(())
        } else {
            Err::<(), _>(VerifyError::UnexpectedShape)
        }),
{
    let color = shape.outline_rgb[0] == OUTLINE_RED && shape.outline_rgb[1] == OUTLINE_GREEN
        && shape.outline_rgb[2] == OUTLINE_BLUE;
    proof {
        let wanted = seq![OUTLINE_RED, OUTLINE_GREEN, OUTLINE_BLUE];
        if color {
            assert(shape.outline_rgb@ =~= wanted);
        } else if shape.outline_rgb@ == wanted {
            assert(shape.outline_rgb@[0] == wanted[0]);
            assert(shape.outline_rgb@[1] == wanted[1]);
            assert(shape.outline_rgb@[2] == wanted[2]);
        }
    }
    if !is_supported_shape_name(shape.name.as_str()) || shape.shape_type != CURVE_SHAPE
        || shape.subpath_count != expected_subpaths || shape.closed_subpaths != expected_subpaths
        || shape.fill_type != 0 || shape.outline_type == 0 || does_gap_exceed(
        shape.outline_width_mm,
        OUTLINE_WIDTH_MM,
        WIDTH_TOLERANCE_MM,
    ) || !color || does_gap_exceed(
        shape.bounds_mm.left,
        expected_bounds.left,
        BOUNDS_TOLERANCE_MM,
    ) || does_gap_exceed(shape.bounds_mm.bottom, expected_bounds.bottom, BOUNDS_TOLERANCE_MM)
        || does_gap_exceed(shape.bounds_mm.width, expected_bounds.width, BOUNDS_TOLERANCE_MM)
        || does_gap_exceed(shape.bounds_mm.height, expected_bounds.height, BOUNDS_TOLERANCE_MM) {
        return Err(VerifyError::UnexpectedShape);
    }
    Ok(())
}

/// How many rings the first `end` polygons have.
pub open spec fn ring_count(polygons: Seq<VectorPolygon>, end: int) -> nat
    decreases end,
{
    if end <= 0 {
        0
    } else {
        ring_count(polygons, end - 1) + 1 + polygons[end - 1].interiors@.len()
    }
}

/// How many subpaths an object has, if that many can be counted.
pub fn expected_subpaths(shape: &VectorShape) -> (res: Option<i32>)
    ensures
        match res {
            Some(count) => ring_count(shape.polygons@, shape.polygons@.len() as int) == count,
            None => ring_count(shape.polygons@, shape.polygons@.len() as int) > i32::MAX,
        },
{
    let mut count: i32 = 0;
    for i in 0..shape.polygons.len()
        invariant
            count == ring_count(shape.polygons@, i as int),
            count >= 0,
    {
        proof {
            lemma_ring_count_grows(shape.polygons@, i + 1, shape.polygons@.len() as int);
        }
        let interiors: usize = shape.polygons[i].interiors.len();
        if count == i32::MAX || interiors > (i32::MAX - count - 1) as usize {
            return None;
        }
        count = count + 1 + interiors as i32;
    }
    Some(count)
}

proof fn lemma_ring_count_grows(polygons: Seq<VectorPolygon>, from: int, to: int)
    requires
        from <= to,
    ensures
        ring_count(polygons, from) <= ring_count(polygons, to),
    decreases to - from,
{
    if from < to {
        lemma_ring_count_grows(polygons, from, to - 1);
    }
}

// ---------------------------------------------------------------------------
// Which object is which
// ---------------------------------------------------------------------------

/// The place in `remaining`, below `end`, whose distance is the least; the first of
/// those that are equally near.
pub open spec fn closest(row: Seq<u64>, remaining: Seq<usize>, end: int) -> int
    decreases end,
{
    if end <= 1 {
        0
    } else {
        let before = closest(row, remaining, end - 1);
        if total_order(row[remaining[end - 1] as int]) < total_order(
            row[remaining[before] as int],
        ) {
            end - 1
        } else {
            before
        }
    }
}

/// The drawn objects that the objects from `from` on are taken for: each one the nearest
/// that is not taken yet.
pub open spec fn matches_from(
    distances: Seq<Seq<u64>>,
    remaining: Seq<usize>,
    from: int,
) -> Seq<usize>
    decreases remaining.len(),
{
    if remaining.len() == 0 || from >= distances.len() {
        Seq::empty()
    } else {
        let at = closest(distances[from], remaining, remaining.len() as int);
        if 0 <= at < remaining.len() {
            seq![remaining[at]] + matches_from(distances, remaining.remove(at), from + 1)
        } else {
            Seq::empty()
        }
    }
}

/// The numbers below `count`.
pub open spec fn numbers_below(count: nat) -> Seq<usize> {
    Seq::new(count, |i: int| i as usize)
}

pub open spec fn rows(distances: Seq<Vec<u64>>) -> Seq<Seq<u64>> {
    distances.map_values(|row: Vec<u64>| row@)
}

/// A place is a place.
pub proof fn lemma_closest(row: Seq<u64>, remaining: Seq<usize>, end: int)
    requires
        1 <= end <= remaining.len(),
    ensures
        0 <= closest(row, remaining, end) < end,
        forall|k: int|
            0 <= k < end ==> total_order(
                row[remaining[closest(row, remaining, end)] as int],
            ) <= total_order(row[#[trigger] remaining[k] as int]),
    decreases end,
{
    if end > 1 {
        lemma_closest(row, remaining, end - 1);
    }
}

fn find_closest(row: &Vec<u64>, remaining: &Vec<usize>) -> (res: usize)
    requires
        remaining@.len() > 0,
        forall|k: int| 0 <= k < remaining@.len() ==> #[trigger] remaining@[k] < row@.len(),
    ensures
        res == closest(row@, remaining@, remaining@.len() as int),
        res < remaining@.len(),
{
    let mut best: usize = 0;
    let mut i: usize = 1;
    while i < remaining.len()
        invariant
            1 <= i <= remaining@.len(),
            best < i,
            best == closest(row@, remaining@, i as int),
            forall|k: int| 0 <= k < remaining@.len() ==> #[trigger] remaining@[k] < row@.len(),
        decreases remaining@.len() - i,
    {
        if is_before(row[remaining[i]], row[remaining[best]]) {
            best = i;
        }
        i = i + 1;
    }
    best
}

/// Takes each object for the nearest drawn one that is not taken yet: `distances` holds,
/// for each object, its distance from each drawn one.
pub fn match_shapes(distances: &Vec<Vec<u64>>) -> (res: Vec<usize>)
    requires
        forall|i: int|
            0 <= i < distances@.len() ==> (#[trigger] distances@[i])@.len() == distances@.len(),
    ensures
        res@ == matches_from(rows(distances@), numbers_below(distances@.len()), 0),
{
    let count: usize = distances.len();
    let ghost all = rows(distances@);
    let mut remaining: Vec<usize> = Vec::new();
    for i in 0..count
        invariant
            remaining@ == numbers_below(i as nat),
    {
        remaining.push(i);
        assert(remaining@ =~= numbers_below((i + 1) as nat));
    }
    let mut res: Vec<usize> = Vec::new();
    let ghost goal = matches_from(all, numbers_below(count as nat), 0);
    assert(res@ + goal =~= goal);
    for i in 0..count
        invariant
            count == distances@.len(),
            all == rows(distances@),
            forall|k: int|
                0 <= k < distances@.len() ==> (#[trigger] distances@[k])@.len()
                    == distances@.len(),
            remaining@.len() == count - i,
            forall|k: int| 0 <= k < remaining@.len() ==> #[trigger] remaining@[k] < count,
            res@ + matches_from(all, remaining@, i as int) == goal,
    {
        assert(all[i as int] == distances@[i as int]@);
        let ghost before = res@;
        let ghost left = remaining@;
        let at: usize = find_closest(&distances[i], &remaining);
        let taken: usize = remaining.remove(at);
        res.push(taken);
        assert(remaining@ =~= left.remove(at as int));
        proof {
            let rest = matches_from(all, remaining@, i + 1);
            assert(res@ + rest =~= before + (seq![taken] + rest));
        }
    }
    assert(res@ =~= goal);
    res
}

proof fn lemma_matches(distances: Seq<Seq<u64>>, remaining: Seq<usize>, from: int)
    requires
        remaining.no_duplicates(),
        remaining.len() == distances.len() - from,
        0 <= from,
    ensures
        matches_from(distances, remaining, from).len() == remaining.len(),
        matches_from(distances, remaining, from).no_duplicates(),
        forall|k: int|
            0 <= k < remaining.len() ==> remaining.contains(
                #[trigger] matches_from(distances, remaining, from)[k],
            ),
    decreases remaining.len(),
{
    if remaining.len() > 0 {
        let at = closest(distances[from], remaining, remaining.len() as int);
        lemma_closest(distances[from], remaining, remaining.len() as int);
        let rest = remaining.remove(at);
        assert(rest.no_duplicates());
        lemma_matches(distances, rest, from + 1);
        let tail = matches_from(distances, rest, from + 1);
        let all = matches_from(distances, remaining, from);
        assert(all =~= seq![remaining[at]] + tail);
        assert forall|k: int| 0 <= k < tail.len() implies remaining.contains(#[trigger] tail[k])
            && tail[k] != remaining[at] by {
            assert(rest.contains(tail[k]));
            let m = choose|m: int| 0 <= m < rest.len() && rest[m] == tail[k];
            if m < at {
                assert(remaining[m] == tail[k]);
            } else {
                assert(remaining[m + 1] == tail[k]);
            }
        }
        assert forall|k: int| 0 <= k < all.len() implies remaining.contains(#[trigger] all[k]) by {
            if k == 0 {
                assert(remaining[at] == all[0]);
            } else {
                assert(all[k] == tail[k - 1]);
            }
        }
        assert forall|i: int, j: int|
            0 <= i < all.len() && 0 <= j < all.len() && i != j implies all[i] != all[j] by {
            if i == 0 {
                assert(all[j] == tail[j - 1]);
            } else if j == 0 {
                assert(all[i] == tail[i - 1]);
            } else {
                assert(all[i] == tail[i - 1]);
                assert(all[j] == tail[j - 1]);
            }
        }
    }
}

/// Every drawn object is taken exactly once.
pub proof fn law_every_shape_is_matched_once(distances: Seq<Seq<u64>>)
    requires
        distances.len() <= usize::MAX,
    ensures
        ({
            let matched = matches_from(distances, numbers_below(distances.len()), 0);
            &&& matched.len() == distances.len()
            &&& matched.no_duplicates()
            &&& forall|k: int| 0 <= k < matched.len() ==> #[trigger] matched[k] < distances.len()
        }),
{
    let all = numbers_below(distances.len());
    lemma_matches(distances, all, 0);
    let matched = matches_from(distances, all, 0);
    assert forall|k: int| 0 <= k < matched.len() implies #[trigger] matched[k]
        < distances.len() by {
        assert(all.contains(matched[k]));
    }
}

/// Whether there are as many objects as were drawn.
pub fn check_shape_count(expected: usize, found: usize) -> (res: Result<(), VerifyError>)
    ensures
        res == (if expected == found {
            Ok(())
        } else {
            Err::<(), _>(VerifyError::ShapeCount { expected, found })
        }),
{
    if expected == found {
        Ok(())
    } else {
        Err(VerifyError::ShapeCount { expected, found })
    }
}

// ---------------------------------------------------------------------------
// A layer
// ---------------------------------------------------------------------------

/// What is wrong with an object that is taken for `expected`.
pub open spec fn shape_fault(
    found: &VerifiedShape,
    expected: &VectorShape,
    bounds: BoundsMm,
) -> Option<VerifyError> {
    let rings = ring_count(expected.polygons@, expected.polygons@.len() as int);
    if rings > i32::MAX {
        Some(VerifyError::TooManyRings)
    } else if !looks_as_drawn(found, rings as i32, bounds) {
        Some(VerifyError::UnexpectedShape)
    } else {
        None
    }
}

/// What is wrong with the curves of a layer.
#[derive(Debug, Clone, Copy, PartialEq, Eq, Structural)]
pub struct LayerFault {
    pub error: VerifyError,
    /// The curve that it was found at; none where there are too few or too many.
    pub place: Option<usize>,
}

/// What is wrong with the objects from `from` on: the first thing that is.
pub open spec fn layer_fault(
    found: Seq<VerifiedShape>,
    expected: Seq<VectorShape>,
    bounds: Seq<BoundsMm>,
    matched: Seq<usize>,
    from: int,
) -> Option<LayerFault>
    decreases found.len() - from,
{
    if from >= found.len() {
        None
    } else {
        let drawn = matched[from] as int;
        match shape_fault(&found[from], &expected[drawn], bounds[drawn]) {
            Some(error) => Some(LayerFault { error, place: Some(from as usize) }),
            None => layer_fault(found, expected, bounds, matched, from + 1),
        }
    }
}

/// An object with the source of the drawn object that it is taken for.
pub open spec fn with_source(found: VerifiedShape, path: String) -> VerifiedShape {
    VerifiedShape { source_shape_path: path, ..found }
}

/// Whether `a` is `b` but for the source, which is that of `drawn`.
pub open spec fn is_attributed(a: VerifiedShape, b: VerifiedShape, drawn: VectorShape) -> bool {
    a.source_shape_path@ == drawn.source_shape_path@ && a == with_source(b, a.source_shape_path)
}

/// Holds the curves of a layer against what was drawn: each one is taken for the nearest
/// object that is not taken yet, by `distances`, and has to look like it. `bounds` are
/// the boxes of the drawn objects.
pub fn verify_layer_shapes(
    found: Vec<VerifiedShape>,
    expected: &Vec<VectorShape>,
    bounds: &Vec<BoundsMm>,
    distances: &Vec<Vec<u64>>,
) -> (res: Result<Vec<VerifiedShape>, LayerFault>)
    requires
        bounds@.len() == expected@.len(),
        distances@.len() == found@.len(),
        forall|i: int|
            0 <= i < distances@.len() ==> (#[trigger] distances@[i])@.len() == expected@.len(),
    ensures
        ({
            let matched = matches_from(rows(distances@), numbers_below(distances@.len()), 0);
            match res {
                Ok(shapes) => {
                    &&& found@.len() == expected@.len()
                    &&& layer_fault(found@, expected@, bounds@, matched, 0) is None
                    &&& shapes@.len() == found@.len()
                    &&& forall|i: int|
                        0 <= i < shapes@.len() ==> is_attributed(
                            #[trigger] shapes@[i],
                            found@[i],
                            expected@[matched[i] as int],
                        )
                },
                Err(fault) => if found@.len() != expected@.len() {
                    &&& fault.place is None
                    &&& fault.error == (VerifyError::ShapeCount {
                        expected: expected@.len() as usize,
                        found: found@.len() as usize,
                    })
                } else {
                    layer_fault(found@, expected@, bounds@, matched, 0) == Some(fault)
                },
            }
        }),
{
    match check_shape_count(expected.len(), found.len()) {
        Ok(_) => {},
        Err(error) => {
            return Err(LayerFault { error, place: None });
        },
    }
    let matched = match_shapes(distances);
    proof {
        law_every_shape_is_matched_once(rows(distances@));
    }
    let ghost given = found@;
    let count: usize = found.len();
    let mut res: Vec<VerifiedShape> = Vec::new();
    let mut i: usize = 0;
    for shape in iter: found
        invariant
            i == iter.index(),
            iter.seq() == given,
            given == found@,
            given.len() == count,
            matched@ == matches_from(rows(distances@), numbers_below(distances@.len()), 0),
            given.len() == matched@.len(),
            given.len() == expected@.len(),
            bounds@.len() == expected@.len(),
            forall|k: int| 0 <= k < matched@.len() ==> #[trigger] matched@[k] < expected@.len(),
            layer_fault(given, expected@, bounds@, matched@, 0) == layer_fault(
                given,
                expected@,
                bounds@,
                matched@,
                i as int,
            ),
            res@.len() == i,
            forall|k: int|
                0 <= k < res@.len() ==> is_attributed(
                    #[trigger] res@[k],
                    given[k],
                    expected@[matched@[k] as int],
                ),
    {
        assert(shape == given[i as int]);
        let drawn: usize = matched[i];
        let rings: i32 = match expected_subpaths(&expected[drawn]) {
            Some(rings) => rings,
            None => {
                return Err(LayerFault { error: VerifyError::TooManyRings, place: Some(i) });
            },
        };
        match validate_verified_shape(&shape, rings, bounds[drawn]) {
            Ok(_) => {},
            Err(error) => {
                return Err(LayerFault { error, place: Some(i) });
            },
        }
        let mut attributed = shape;
        attributed.source_shape_path = expected[drawn].source_shape_path.clone();
        assert(is_attributed(attributed, given[i as int], expected@[drawn as int]));
        res.push(attributed);
        i = i + 1;
    }
    Ok(res)
}

/// The smaller of two numbers; what is no number does not count.
pub open spec fn smaller(a: u64, b: u64) -> u64 {
    if not_a_number(a) || less(b, a) {
        b
    } else {
        a
    }
}

/// The larger of two numbers; what is no number does not count.
pub open spec fn larger(a: u64, b: u64) -> u64 {
    if not_a_number(a) || less(a, b) {
        b
    } else {
        a
    }
}

fn smaller_of(a: u64, b: u64) -> (res: u64)
    ensures
        res == smaller(a, b),
{
    if is_nan(a) || is_less(b, a) {
        b
    } else {
        a
    }
}

fn larger_of(a: u64, b: u64) -> (res: u64)
    ensures
        res == larger(a, b),
{
    if is_nan(a) || is_less(a, b) {
        b
    } else {
        a
    }
}

/// The extent of points along both axes.
#[derive(Debug, Clone, Copy, PartialEq, Eq, Structural)]
pub struct Extent {
    pub min_x: u64,
    pub max_x: u64,
    pub min_y: u64,
    pub max_y: u64,
}

/// An extent with one more point.
pub open spec fn extended(extent: Option<Extent>, point: PointMm) -> Extent {
    match extent {
        None => Extent { min_x: point.x, max_x: point.x, min_y: point.y, max_y: point.y },
        Some(extent) => Extent {
            min_x: smaller(extent.min_x, point.x),
            max_x: larger(extent.max_x, point.x),
            min_y: smaller(extent.min_y, point.y),
            max_y: larger(extent.max_y, point.y),
        },
    }
}

/// An extent with the first `end` points of a ring.
pub open spec fn ring_extent(before: Option<Extent>, points: Seq<PointMm>, end: int) -> Option<Extent>
    decreases end,
{
    if end <= 0 {
        before
    } else {
        Some(extended(ring_extent(before, points, end - 1), points[end - 1]))
    }
}

/// The extent of the outer rings of the first `end` polygons.
pub open spec fn polygons_extent(polygons: Seq<VectorPolygon>, end: int) -> Option<Extent>
    decreases end,
{
    if end <= 0 {
        None
    } else {
        let points = polygons[end - 1].exterior@;
        ring_extent(polygons_extent(polygons, end - 1), points, points.len() as int)
    }
}

/// The extent of an object: that of its outer rings.
pub fn shape_extent(shape: &VectorShape) -> (res: Result<Extent, VerifyError>)
    ensures
        match polygons_extent(shape.polygons@, shape.polygons@.len() as int) {
            Some(extent) => res == Ok::<Extent, VerifyError>(extent),
            None => res == Err::<Extent, VerifyError>(VerifyError::NoPoints),
        },
{
    let mut extent: Option<Extent> = None;
    for i in 0..shape.polygons.len()
        invariant
            extent == polygons_extent(shape.polygons@, i as int),
    {
        let ghost before = extent;
        let count: usize = shape.polygons[i].exterior.len();
        for j in 0..count
            invariant
                i < shape.polygons@.len(),
                count == shape.polygons@[i as int].exterior@.len(),
                extent == ring_extent(before, shape.polygons@[i as int].exterior@, j as int),
        {
            let point = shape.polygons[i].exterior[j];
            extent = Some(
                match extent {
                    None => Extent {
                        min_x: point.x,
                        max_x: point.x,
                        min_y: point.y,
                        max_y: point.y,
                    },
                    Some(extent) => Extent {
                        min_x: smaller_of(extent.min_x, point.x),
                        max_x: larger_of(extent.max_x, point.x),
                        min_y: smaller_of(extent.min_y, point.y),
                        max_y: larger_of(extent.max_y, point.y),
                    },
                },
            );
        }
    }
    match extent {
        Some(extent) => Ok(extent),
        None => Err(VerifyError::NoPoints),
    }
}

/// A ten-millionth of a unit.
pub const COPY_TOLERANCE: u64 = 0x3e7a_d7f2_9abc_af48;

/// Whether two boxes are the same but for the tolerance of a copy.
pub open spec fn same_place(first: BoundsMm, second: BoundsMm) -> bool {
    &&& !gap_exceeds(first.left, second.left, COPY_TOLERANCE)
    &&& !gap_exceeds(first.bottom, second.bottom, COPY_TOLERANCE)
    &&& !gap_exceeds(first.width, second.width, COPY_TOLERANCE)
    &&& !gap_exceeds(first.height, second.height, COPY_TOLERANCE)
}

/// Whether a copy lies where its original does: none of its position and size differs by
/// more than the tolerance.
pub fn same_bitmap_bounds(first: BoundsMm, second: BoundsMm) -> (res: bool)
    ensures
        res == !(gap_exceeds(first.left, second.left, COPY_TOLERANCE) || gap_exceeds(
            first.bottom,
            second.bottom,
            COPY_TOLERANCE,
        ) || gap_exceeds(first.width, second.width, COPY_TOLERANCE) || gap_exceeds(
            first.height,
            second.height,
            COPY_TOLERANCE,
        )),
        res == same_place(first, second),
{
    !(does_gap_exceed(first.left, second.left, COPY_TOLERANCE) || does_gap_exceed(
        first.bottom,
        second.bottom,
        COPY_TOLERANCE,
    ) || does_gap_exceed(first.width, second.width, COPY_TOLERANCE) || does_gap_exceed(
        first.height,
        second.height,
        COPY_TOLERANCE,
    ))
}

// ---------------------------------------------------------------------------
// Files
// ---------------------------------------------------------------------------

/// Whether a report of processed objects can be verified.
pub fn check_report(schema_version: u32, shape_count: usize, page_index: i32) -> (res: Result<
    (),
    VerifyError,
>)
    ensures
        res == (if schema_version == 1 && shape_count > 0 && page_index >= 1 {
            Ok(())
        } else {
            Err::<(), _>(VerifyError::EmptyReport)
        }),
{
    if schema_version == 1 && shape_count > 0 && page_index >= 1 {
        Ok(())
    } else {
        Err(VerifyError::EmptyReport)
    }
}

/// Whether a file is the one that a checksum was made of.
pub fn is_unchanged(source: &[u8], checksum: &str) -> (res: bool)
    ensures
        res == same_but_case(checksum_of(source@), checksum@),
{
    let actual = crate::digest::sha256(source);
    eq_ignore_case(actual.as_str(), checksum)
}

/// Whether a vector output can be drawn into a copy of `source`.
pub fn check_vectors(
    schema_version: u32,
    page_index: i32,
    shape_count: usize,
    source: &[u8],
    checksum: &str,
) -> (res: Result<(), VerifyError>)
    ensures
        res == (if schema_version != 1 || page_index < 1 || shape_count == 0 {
            Err::<(), _>(VerifyError::EmptyVectors)
        } else if !same_but_case(checksum_of(source@), checksum@) {
            Err(VerifyError::SourceChanged)
        } else {
            Ok(())
        }),
{
    if schema_version != 1 || page_index < 1 || shape_count == 0 {
        return Err(VerifyError::EmptyVectors);
    }
    if !is_unchanged(source, checksum) {
        return Err(VerifyError::SourceChanged);
    }
    Ok(())
}

/// Whether the output is another file than the source; both paths are canonical.
pub fn ensure_distinct_paths(source: &str, output: &str) -> (res: Result<(), VerifyError>)
    ensures
        res == (if source@ == output@ {
            Err::<(), _>(VerifyError::SameFile)
        } else {
            Ok(())
        }),
{
    if same_text(source, output) {
        Err(VerifyError::SameFile)
    } else {
        Ok(())
    }
}

// ---------------------------------------------------------------------------
// What is verified
// ---------------------------------------------------------------------------

proof fn lemma_nearest_first(
    distances: Seq<Seq<u64>>,
    remaining: Seq<usize>,
    from: int,
    k: int,
    other: usize,
)
    requires
        0 <= from,
        remaining.no_duplicates(),
        0 <= k < matches_from(distances, remaining, from).len(),
        remaining.contains(other),
        forall|j: int|
            0 <= j < k ==> #[trigger] matches_from(distances, remaining, from)[j] != other,
    ensures
        total_order(
            distances[from + k][matches_from(distances, remaining, from)[k] as int],
        ) <= total_order(distances[from + k][other as int]),
    decreases remaining.len(),
{
    let at = closest(distances[from], remaining, remaining.len() as int);
    lemma_closest(distances[from], remaining, remaining.len() as int);
    let rest = remaining.remove(at);
    let matched = matches_from(distances, remaining, from);
    let later = matches_from(distances, rest, from + 1);
    assert(matched =~= seq![remaining[at]] + later);
    let place = choose|i: int| 0 <= i < remaining.len() && remaining[i] == other;
    if k > 0 {
        assert(matched[0] != other);
        assert(place != at);
        if place < at {
            assert(rest[place] == other);
        } else {
            assert(rest[place - 1] == other);
        }
        assert(rest.contains(other));
        assert forall|a: int, b: int| 0 <= a < rest.len() && 0 <= b < rest.len() && a != b implies rest[a]
            != rest[b] by {
            let i = if a < at {
                a
            } else {
                a + 1
            };
            let j = if b < at {
                b
            } else {
                b + 1
            };
            assert(rest[a] == remaining[i] && rest[b] == remaining[j]);
        }
        assert forall|j: int| 0 <= j < k - 1 implies #[trigger] later[j] != other by {
            assert(matched[j + 1] == later[j]);
        }
        assert(matched[k] == later[k - 1]);
        lemma_nearest_first(distances, rest, from + 1, k - 1, other);
    }
}

/// An object is taken for the nearest drawn one: whatever is nearer was taken before.
pub proof fn law_objects_are_taken_for_the_nearest(
    distances: Seq<Seq<u64>>,
    i: int,
    other: usize,
)
    requires
        distances.len() <= usize::MAX,
        0 <= i < distances.len(),
        other < distances.len(),
    ensures
        ({
            let matched = matches_from(distances, numbers_below(distances.len()), 0);
            total_order(distances[i][other as int]) < total_order(
                distances[i][matched[i] as int],
            ) ==> exists|j: int| 0 <= j < i && #[trigger] matched[j] == other
        }),
{
    let all = numbers_below(distances.len());
    let matched = matches_from(distances, all, 0);
    law_every_shape_is_matched_once(distances);
    if forall|j: int| 0 <= j < i ==> #[trigger] matched[j] != other {
        assert(all[other as int] == other);
        assert(all.contains(other));
        assert forall|a: int, b: int| 0 <= a < all.len() && 0 <= b < all.len() && a != b implies all[a]
            != all[b] by {}
        lemma_nearest_first(distances, all, 0, i, other);
    }
}

/// Whether curve `i` looks as the drawn object that it is taken for.
pub open spec fn is_as_drawn(
    found: Seq<VerifiedShape>,
    expected: Seq<VectorShape>,
    bounds: Seq<BoundsMm>,
    matched: Seq<usize>,
    i: int,
) -> bool {
    let polygons = expected[matched[i] as int].polygons@;
    let rings = ring_count(polygons, polygons.len() as int);
    rings <= i32::MAX && looks_as_drawn(&found[i], rings as i32, bounds[matched[i] as int])
}

/// A layer is in order exactly if every curve of it looks as the drawn object that it is taken
/// for. What is told of a layer that is not in order is about its first curve that does not.
pub proof fn law_a_layer_is_in_order_if_its_curves_are(
    found: Seq<VerifiedShape>,
    expected: Seq<VectorShape>,
    bounds: Seq<BoundsMm>,
    matched: Seq<usize>,
    from: int,
)
    requires
        0 <= from <= found.len() <= usize::MAX,
    ensures
        match layer_fault(found, expected, bounds, matched, from) {
            None => forall|i: int|
                from <= i < found.len() ==> #[trigger] is_as_drawn(
                    found,
                    expected,
                    bounds,
                    matched,
                    i,
                ),
            Some(fault) => fault.place matches Some(place) && {
                let polygons = expected[matched[place as int] as int].polygons@;
                &&& from <= place < found.len()
                &&& !is_as_drawn(found, expected, bounds, matched, place as int)
                &&& forall|i: int|
                    from <= i < place ==> #[trigger] is_as_drawn(
                        found,
                        expected,
                        bounds,
                        matched,
                        i,
                    )
                &&& fault.error == if ring_count(polygons, polygons.len() as int) > i32::MAX {
                    VerifyError::TooManyRings
                } else {
                    VerifyError::UnexpectedShape
                }
            },
        },
    decreases found.len() - from,
{
    if from < found.len() {
        law_a_layer_is_in_order_if_its_curves_are(found, expected, bounds, matched, from + 1);
        let drawn = matched[from] as int;
        assert(shape_fault(&found[from], &expected[drawn], bounds[drawn]) is None <==> is_as_drawn(
            found,
            expected,
            bounds,
            matched,
            from,
        ));
    }
}

/// A curve that looks as it was drawn is a curve of a generated name, has the expected number
/// of subpaths, all closed, no fill and an outline of the one width and color, and none of the
/// four measurements of its box is off.
pub proof fn law_drawn_curves_are_closed_pink_and_in_place(
    shape: &VerifiedShape,
    subpaths: i32,
    bounds: BoundsMm,
)
    ensures
        looks_as_drawn(shape, subpaths, bounds) ==> {
            &&& shape.shape_type == 3
            &&& shape.subpath_count == subpaths && shape.closed_subpaths == subpaths
            &&& shape.fill_type == 0 && shape.outline_type != 0
            &&& shape.outline_rgb@[0] == 236 && shape.outline_rgb@[1] == 42
                && shape.outline_rgb@[2] == 144
            &&& is_supported_name(shape.name@)
        },
        looks_as_drawn(shape, subpaths, bounds) ==> {
            let fifth = BOUNDS_TOLERANCE_MM;
            &&& !gap_exceeds(shape.bounds_mm.left, bounds.left, fifth)
            &&& !gap_exceeds(shape.bounds_mm.bottom, bounds.bottom, fifth)
            &&& !gap_exceeds(shape.bounds_mm.width, bounds.width, fifth)
            &&& !gap_exceeds(shape.bounds_mm.height, bounds.height, fifth)
            &&& !gap_exceeds(shape.outline_width_mm, OUTLINE_WIDTH_MM, WIDTH_TOLERANCE_MM)
        },
        bounds_agree(shape.bounds_mm, bounds) == bounds_agree(bounds, shape.bounds_mm),
{
    crate::gap::law_gaps_are_symmetric(shape.bounds_mm.left, bounds.left, BOUNDS_TOLERANCE_MM);
    crate::gap::law_gaps_are_symmetric(
        shape.bounds_mm.bottom,
        bounds.bottom,
        BOUNDS_TOLERANCE_MM,
    );
    crate::gap::law_gaps_are_symmetric(shape.bounds_mm.width, bounds.width, BOUNDS_TOLERANCE_MM);
    crate::gap::law_gaps_are_symmetric(
        shape.bounds_mm.height,
        bounds.height,
        BOUNDS_TOLERANCE_MM,
    );
}

/// An object has a ring for every polygon and one for every hole in a polygon: one more
/// polygon adds its outer ring and its holes.
pub proof fn law_rings_are_counted(polygons: Seq<VectorPolygon>, more: VectorPolygon)
    ensures
        ring_count(polygons.push(more), (polygons.len() + 1) as int) == ring_count(
            polygons,
            polygons.len() as int,
        ) + 1 + more.interiors@.len(),
        ring_count(Seq::empty(), 0) == 0,
{
    lemma_ring_count_prefix(polygons, polygons.push(more), polygons.len() as int);
}

proof fn lemma_ring_count_prefix(a: Seq<VectorPolygon>, b: Seq<VectorPolygon>, end: int)
    requires
        0 <= end <= a.len(),
        end <= b.len(),
        forall|i: int| 0 <= i < end ==> a[i] == b[i],
    ensures
        ring_count(a, end) == ring_count(b, end),
    decreases end,
{
    if end > 0 {
        lemma_ring_count_prefix(a, b, end - 1);
    }
}

/// Whether a point lies in an extent.
pub open spec fn lies_in(point: PointMm, extent: Extent) -> bool {
    &&& !less(point.x, extent.min_x)
    &&& !less(extent.max_x, point.x)
    &&& !less(point.y, extent.min_y)
    &&& !less(extent.max_y, point.y)
}

/// Whether every side of an extent is a number.
spec fn has_numbers(extent: Extent) -> bool {
    &&& !not_a_number(extent.min_x)
    &&& !not_a_number(extent.max_x)
    &&& !not_a_number(extent.min_y)
    &&& !not_a_number(extent.max_y)
}

/// Whether `larger_one` reaches at least as far as `extent` on every side.
spec fn reaches(larger_one: Extent, extent: Extent) -> bool {
    &&& !less(extent.min_x, larger_one.min_x)
    &&& !less(larger_one.max_x, extent.max_x)
    &&& !less(extent.min_y, larger_one.min_y)
    &&& !less(larger_one.max_y, extent.max_y)
}

proof fn lemma_ring_extent(before: Option<Extent>, points: Seq<PointMm>, end: int)
    requires
        0 <= end <= points.len(),
        forall|i: int| 0 <= i < points.len() ==> (#[trigger] points[i]).finite(),
        before matches Some(extent) ==> has_numbers(extent),
    ensures
        ring_extent(before, points, end) matches Some(extent) ==> {
            &&& has_numbers(extent)
            &&& forall|i: int| 0 <= i < end ==> lies_in(#[trigger] points[i], extent)
            &&& before matches Some(earlier) ==> reaches(extent, earlier)
        },
        end > 0 ==> ring_extent(before, points, end) is Some,
        before is Some ==> ring_extent(before, points, end) is Some,
    decreases end,
{
    if end > 0 {
        lemma_ring_extent(before, points, end - 1);
        assert(points[end - 1].finite());
        let earlier = ring_extent(before, points, end - 1);
        let extent = ring_extent(before, points, end).unwrap();
        assert forall|i: int| 0 <= i < end implies lies_in(#[trigger] points[i], extent) by {
            assert(points[i].finite());
            if i < end - 1 {
                assert(lies_in(points[i], earlier.unwrap()));
            }
        }
    }
}

/// Every corner of an object lies in its extent, whichever of its polygons it belongs to.
pub proof fn law_corners_lie_in_the_extent(
    polygons: Seq<VectorPolygon>,
    end: int,
    k: int,
    i: int,
)
    requires
        0 <= k < end <= polygons.len(),
        forall|p: int, j: int|
            0 <= p < polygons.len() && 0 <= j < polygons[p].exterior@.len() ==> (
            #[trigger] polygons[p].exterior@[j]).finite(),
        0 <= i < polygons[k].exterior@.len(),
    ensures
        polygons_extent(polygons, end) matches Some(extent) && lies_in(
            polygons[k].exterior@[i],
            extent,
        ),
{
    lemma_polygons_extent(polygons, end);
    lemma_corner(polygons, end, k, i);
}

proof fn lemma_polygons_extent(polygons: Seq<VectorPolygon>, end: int)
    requires
        0 <= end <= polygons.len(),
        forall|p: int, j: int|
            0 <= p < polygons.len() && 0 <= j < polygons[p].exterior@.len() ==> (
            #[trigger] polygons[p].exterior@[j]).finite(),
    ensures
        polygons_extent(polygons, end) matches Some(extent) ==> has_numbers(extent),
    decreases end,
{
    if end > 0 {
        lemma_polygons_extent(polygons, end - 1);
        let points = polygons[end - 1].exterior@;
        assert forall|j: int| 0 <= j < points.len() implies (#[trigger] points[j]).finite() by {
            assert(polygons[end - 1].exterior@[j].finite());
        }
        lemma_ring_extent(polygons_extent(polygons, end - 1), points, points.len() as int);
    }
}

proof fn lemma_corner(polygons: Seq<VectorPolygon>, end: int, k: int, i: int)
    requires
        0 <= k < end <= polygons.len(),
        forall|p: int, j: int|
            0 <= p < polygons.len() && 0 <= j < polygons[p].exterior@.len() ==> (
            #[trigger] polygons[p].exterior@[j]).finite(),
        0 <= i < polygons[k].exterior@.len(),
    ensures
        polygons_extent(polygons, end) matches Some(extent) && lies_in(
            polygons[k].exterior@[i],
            extent,
        ),
    decreases end,
{
    let points = polygons[end - 1].exterior@;
    lemma_polygons_extent(polygons, end - 1);
    lemma_polygons_extent(polygons, end);
    assert forall|j: int| 0 <= j < points.len() implies (#[trigger] points[j]).finite() by {
        assert(polygons[end - 1].exterior@[j].finite());
    }
    lemma_ring_extent(polygons_extent(polygons, end - 1), points, points.len() as int);
    assert(polygons[k].exterior@[i].finite());
    if k < end - 1 {
        lemma_corner(polygons, end - 1, k, i);
    } else {
        assert(lies_in(points[i], polygons_extent(polygons, end).unwrap()));
    }
}

/// What is drawn has a generated name, the one color, whatever the case of its letters, and the
/// one width of outlines, and holds a polygon.
pub proof fn law_drawn_objects_are_pink_outlines(shape: &VectorShape)
    ensures
        is_drawable(shape) ==> is_supported_name(shape.name@) && same_but_case(
            shape.outline_hex@,
            "#ec2a90"@,
        ) && shape.polygons@.len() > 0 && !gap_exceeds(
            shape.outline_width_mm,
            0x3fb3_74bc_6a7e_f9db,
            STYLE_TOLERANCE_MM,
        ),
        is_supported_name(shape.name@) && shape.outline_hex@ == "#EC2A90"@
            && shape.outline_width_mm == 0x3fb3_74bc_6a7e_f9db && shape.polygons@.len() > 0
            ==> is_drawable(shape),
{
    reveal_strlit("#EC2A90");
    reveal_strlit("#ec2a90");
    let large = "#EC2A90"@;
    let small = "#ec2a90"@;
    assert(large.len() == 7 && small.len() == 7);
    crate::text::law_only_the_case_of_letters_is_ignored(large, small);
    assert(same_but_case(large, small));
    crate::gap::law_gaps_are_symmetric(
        OUTLINE_WIDTH_MM,
        OUTLINE_WIDTH_MM,
        STYLE_TOLERANCE_MM,
    );
    crate::gap::law_differences_are_held_against_the_limit(
        OUTLINE_WIDTH_MM,
        OUTLINE_WIDTH_MM,
        STYLE_TOLERANCE_MM,
    );
}

/// A copy lies where its original does whichever of the two is asked, a box lies where it is, and
/// a copy that is off in its position or its size, in either direction, does not.
pub proof fn law_copies_lie_where_their_originals_do(first: BoundsMm, second: BoundsMm)
    ensures
        same_place(first, second) == same_place(second, first),
        finite(first.left) && finite(first.bottom) && finite(first.width) && finite(first.height)
            ==> same_place(first, first),
        gap_exceeds(first.left, second.left, 0x3e7a_d7f2_9abc_af48) || gap_exceeds(
            first.bottom,
            second.bottom,
            0x3e7a_d7f2_9abc_af48,
        ) || gap_exceeds(first.width, second.width, 0x3e7a_d7f2_9abc_af48) || gap_exceeds(
            first.height,
            second.height,
            0x3e7a_d7f2_9abc_af48,
        ) ==> !same_place(first, second),
{
    crate::gap::law_gaps_are_symmetric(first.left, second.left, COPY_TOLERANCE);
    crate::gap::law_gaps_are_symmetric(first.bottom, second.bottom, COPY_TOLERANCE);
    crate::gap::law_gaps_are_symmetric(first.width, second.width, COPY_TOLERANCE);
    crate::gap::law_gaps_are_symmetric(first.height, second.height, COPY_TOLERANCE);
    crate::gap::law_gaps_are_symmetric(first.left, first.left, COPY_TOLERANCE);
    crate::gap::law_gaps_are_symmetric(first.bottom, first.bottom, COPY_TOLERANCE);
    crate::gap::law_gaps_are_symmetric(first.width, first.width, COPY_TOLERANCE);
    crate::gap::law_gaps_are_symmetric(first.height, first.height, COPY_TOLERANCE);
}

/// Whether every side of an extent is a coordinate of a corner of the first `end` polygons.
pub open spec fn is_tight(polygons: Seq<VectorPolygon>, end: int, extent: Extent) -> bool {
    &&& exists|k: int, i: int|
        0 <= k < end && 0 <= i < polygons[k].exterior@.len() && (
        #[trigger] polygons[k].exterior@[i]).x == extent.min_x
    &&& exists|k: int, i: int|
        0 <= k < end && 0 <= i < polygons[k].exterior@.len() && (
        #[trigger] polygons[k].exterior@[i]).x == extent.max_x
    &&& exists|k: int, i: int|
        0 <= k < end && 0 <= i < polygons[k].exterior@.len() && (
        #[trigger] polygons[k].exterior@[i]).y == extent.min_y
    &&& exists|k: int, i: int|
        0 <= k < end && 0 <= i < polygons[k].exterior@.len() && (
        #[trigger] polygons[k].exterior@[i]).y == extent.max_y
}

/// The extent of an object is no larger than it has to be: each of its sides goes through a
/// corner of the object. An object without corners has none.
pub proof fn law_the_extent_is_tight(polygons: Seq<VectorPolygon>, end: int)
    requires
        0 <= end <= polygons.len(),
    ensures
        match polygons_extent(polygons, end) {
            Some(extent) => is_tight(polygons, end, extent),
            None => forall|k: int| 0 <= k < end ==> (#[trigger] polygons[k]).exterior@.len() == 0,
        },
    decreases end,
{
    if end > 0 {
        law_the_extent_is_tight(polygons, end - 1);
        let points = polygons[end - 1].exterior@;
        lemma_tight_ring(polygons, end, points.len() as int);
    }
}

proof fn lemma_tight_ring(polygons: Seq<VectorPolygon>, end: int, count: int)
    requires
        0 < end <= polygons.len(),
        0 <= count <= polygons[end - 1].exterior@.len(),
        polygons_extent(polygons, end - 1) matches Some(extent) ==> is_tight(
            polygons,
            end - 1,
            extent,
        ),
    ensures
        ring_extent(
            polygons_extent(polygons, end - 1),
            polygons[end - 1].exterior@,
            count,
        ) matches Some(extent) ==> is_tight(polygons, end, extent),
        ring_extent(
            polygons_extent(polygons, end - 1),
            polygons[end - 1].exterior@,
            count,
        ) is None ==> count == 0 && polygons_extent(polygons, end - 1) is None,
    decreases count,
{
    let before = polygons_extent(polygons, end - 1);
    let points = polygons[end - 1].exterior@;
    if count > 0 {
        lemma_tight_ring(polygons, end, count - 1);
        assert(polygons[end - 1].exterior@[count - 1] == points[count - 1]);
    } else if before is Some {
        lemma_still_tight(polygons, end, before.unwrap());
    }
}

proof fn lemma_still_tight(polygons: Seq<VectorPolygon>, end: int, extent: Extent)
    requires
        is_tight(polygons, end - 1, extent),
    ensures
        is_tight(polygons, end, extent),
{
    let (a, b) = choose|k: int, i: int|
        0 <= k < end - 1 && 0 <= i < polygons[k].exterior@.len() && (
        #[trigger] polygons[k].exterior@[i]).x == extent.min_x;
    assert(polygons[a].exterior@[b].x == extent.min_x);
    let (c, d) = choose|k: int, i: int|
        0 <= k < end - 1 && 0 <= i < polygons[k].exterior@.len() && (
        #[trigger] polygons[k].exterior@[i]).x == extent.max_x;
    assert(polygons[c].exterior@[d].x == extent.max_x);
    let (e, f) = choose|k: int, i: int|
        0 <= k < end - 1 && 0 <= i < polygons[k].exterior@.len() && (
        #[trigger] polygons[k].exterior@[i]).y == extent.min_y;
    assert(polygons[e].exterior@[f].y == extent.min_y);
    let (g, h) = choose|k: int, i: int|
        0 <= k < end - 1 && 0 <= i < polygons[k].exterior@.len() && (
        #[trigger] polygons[k].exterior@[i]).y == extent.max_y;
    assert(polygons[g].exterior@[h].y == extent.max_y);
}

} // verus!
