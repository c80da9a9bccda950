//! Rings and paths on the page: closed once, and drawn in the wanted direction.

use vstd::prelude::*;

use crate::domain::{reversed_path, ClosedPath, PathSegment, PointMm};
use crate::gap::{gap_within, is_gap_within};
use crate::measure::{finite_positive, is_finite_positive, is_less, less};

verus! {

/// The largest number below a billionth.
pub const BELOW_BILLIONTH: u64 = 0x3e11_2e0b_e826_d694;

/// Whether two points are less than a billionth apart in both directions.
pub open spec fn coincide(a: PointMm, b: PointMm) -> bool {
    gap_within(a.x, b.x, BELOW_BILLIONTH) && gap_within(a.y, b.y, BELOW_BILLIONTH)
}

/// A ring without its last point, if that repeats the first one.
pub open spec fn without_repeated_end(points: Seq<PointMm>) -> Seq<PointMm> {
    if points.len() > 1 && coincide(points[0], points.last()) {
        points.drop_last()
    } else {
        points
    }
}

/// Removes the last point of a ring, if it repeats the first one.
pub fn drop_repeated_end(points: &mut Vec<PointMm>)
    ensures
        final(points)@ == without_repeated_end(old(points)@),
{
    let count: usize = points.len();
    if count > 1 {
        let first = points[0];
        let last = points[count - 1];
        if is_gap_within(first.x, last.x, BELOW_BILLIONTH) && is_gap_within(
            first.y,
            last.y,
            BELOW_BILLIONTH,
        ) {
            points.pop();
            assert(points@ =~= old(points)@.drop_last());
        }
    }
}

/// A ring in the wanted direction; `area` is its signed area.
pub open spec fn oriented_ring(
    points: Seq<PointMm>,
    area: u64,
    counter_clockwise: bool,
) -> Seq<PointMm> {
    if less(0, area) == counter_clockwise {
        points
    } else {
        points.reverse()
    }
}

/// A path in the wanted direction; `area` is the signed area of its corners.
pub open spec fn oriented_path(
    segments: Seq<PathSegment>,
    area: u64,
    counter_clockwise: bool,
) -> Seq<PathSegment> {
    if less(0, area) == counter_clockwise {
        segments
    } else {
        reversed_path(segments)
    }
}

/// Draws a ring in the wanted direction; `area` is its signed area, which is positive if
/// it is drawn counter-clockwise.
pub fn orient_ring(points: Vec<PointMm>, area: u64, counter_clockwise: bool) -> (res: Vec<PointMm>)
    ensures
        res@ == (if less(0, area) == counter_clockwise {
            points@
        } else {
            points@.reverse()
        }),
        res@ == oriented_ring(points@, area, counter_clockwise),
{
    if is_less(0, area) == counter_clockwise {
        return points;
    }
    let count: usize = points.len();
    let mut res: Vec<PointMm> = Vec::new();
    for i in 0..count
        invariant
            count == points@.len(),
            res@ == points@.reverse().take(i as int),
    {
        res.push(points[count - 1 - i]);
    }
    assert(res@ =~= points@.reverse());
    res
}

/// Draws a path in the wanted direction; `area` is the signed area of its corners.
pub fn orient_path(path: ClosedPath, area: u64, counter_clockwise: bool) -> (res: ClosedPath)
    ensures
        res@ == (if less(0, area) == counter_clockwise {
            path@
        } else {
            reversed_path(path@)
        }),
        res@ == oriented_path(path@, area, counter_clockwise),
{
    if is_less(0, area) == counter_clockwise {
        path
    } else {
        path.reversed()
    }
}

/// What is wrong with what is drawn on a page.
#[derive(Debug, Clone, Copy, PartialEq, Eq, Structural)]
pub enum PageError {
    /// A ring has fewer than three points.
    ShortRing,
    /// There are not as many curved outlines as polygons.
    CurveCount,
    /// The unit of the document has no length.
    InvalidUnit,
}

impl PageError {
    /// The text shown for the error.
    pub open spec fn spec_message(self) -> Seq<char> {
        match self {
            PageError::ShortRing => "ring must contain at least three points"@,
            PageError::CurveCount => "curved and polygon geometry counts differ"@,
            PageError::InvalidUnit => "Corel returned an invalid document unit scale"@,
        }
    }

    /// The text shown for the error.
    pub fn message(self) -> (res: String)
        ensures
            res@ == self.spec_message(),
    {
        match self {
            PageError::ShortRing => "ring must contain at least three points".to_owned(),
            PageError::CurveCount => "curved and polygon geometry counts differ".to_owned(),
            PageError::InvalidUnit => "Corel returned an invalid document unit scale".to_owned(),
        }
    }
}

/// Whether a ring can be drawn.
pub fn check_ring(points: usize) -> (res: Result<(), PageError>)
    ensures
        res == (if points < 3 {
            Err::<(), _>(PageError::ShortRing)
        } else {
            Ok(())
        }),
{
    if points < 3 {
        Err(PageError::ShortRing)
    } else {
        Ok(())
    }
}

/// Whether the curved outlines, where there are any, belong to the polygons.
pub fn check_curves(polygons: usize, curves: Option<usize>) -> (res: Result<(), PageError>)
    ensures
        res == (if curves matches Some(count) && count != polygons {
            Err::<(), _>(PageError::CurveCount)
        } else {
            Ok(())
        }),
{
    match curves {
        Some(count) => if count != polygons {
            Err(PageError::CurveCount)
        } else {
            Ok(())
        },
        None => Ok(()),
    }
}

/// Whether the unit of a document has a length in millimeters.
pub fn check_unit(millimeters_per_unit: u64) -> (res: Result<(), PageError>)
    ensures
        res == (if finite_positive(millimeters_per_unit) {
            Ok(())
        } else {
            Err::<(), _>(PageError::InvalidUnit)
        }),
{
    if is_finite_positive(millimeters_per_unit) {
        Ok(())
    } else {
        Err(PageError::InvalidUnit)
    }
}

/// A ring loses its last point exactly if that coincides with the first one, and nothing else:
/// a ring that was closed by repeating its first point is what it was before.
pub proof fn law_rings_are_closed_once(points: Seq<PointMm>)
    ensures
        without_repeated_end(points) == points || without_repeated_end(points) == points.take(
            points.len() - 1,
        ),
        points.len() > 1 ==> (without_repeated_end(points).len() < points.len() <==> coincide(
            points[0],
            points.last(),
        )),
        points.len() > 0 && points[0].finite() ==> without_repeated_end(points.push(points[0]))
            == points,
{
    if points.len() > 0 {
        assert(points.drop_last() =~= points.take(points.len() - 1));
        assert(points.push(points[0]).drop_last() =~= points);
        if points[0].finite() {
            crate::gap::law_gaps_are_symmetric(points[0].x, points[0].x, BELOW_BILLIONTH);
            crate::gap::law_gaps_are_symmetric(points[0].y, points[0].y, BELOW_BILLIONTH);
        }
    }
}

/// A ring with a positive area is drawn counter-clockwise: it stays if that is wanted, and is
/// turned round if not; any other ring the other way. The two directions are each other's
/// reverse, and so are those of a path.
pub proof fn law_rings_are_drawn_as_wanted(
    points: Seq<PointMm>,
    segments: Seq<PathSegment>,
    area: u64,
)
    ensures
        less(0, area) ==> oriented_ring(points, area, true) == points && oriented_ring(
            points,
            area,
            false,
        ) == points.reverse(),
        !less(0, area) ==> oriented_ring(points, area, true) == points.reverse() && oriented_ring(
            points,
            area,
            false,
        ) == points,
        less(0, area) ==> oriented_path(segments, area, true) == segments && oriented_path(
            segments,
            area,
            false,
        ) == reversed_path(segments),
        !less(0, area) ==> oriented_path(segments, area, true) == reversed_path(segments)
            && oriented_path(segments, area, false) == segments,
{
}

} // verus!
