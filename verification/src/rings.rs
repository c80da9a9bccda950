//! The rings of a keyhole: the outermost one is welded to an outline, the others are
//! kept as they are.

use vstd::prelude::*;

use crate::measure::{is_before, total_order};
use crate::text::{decimal_int, push_decimal_int};

verus! {

/// Why the rings of a keyhole cannot be told apart.
#[derive(Debug, Clone, Copy, PartialEq, Eq, Structural)]
pub enum RingError {
    /// There is no closed ring.
    NoOuterRing,
    /// There is nothing but the outermost ring.
    NoCenterRing,
    /// A segment is neither a line nor a curve.
    UnknownSegment { segment_type: i32 },
}

impl RingError {
    /// The text shown for the error.
    pub open spec fn spec_message(self) -> Seq<char> {
        match self {
            RingError::NoOuterRing => "孔位曲线没有有效的闭合外圈"@,
            RingError::NoCenterRing => "孔位曲线缺少中心圆子路径；请重新使用“加孔”生成孔位"@,
            RingError::UnknownSegment { segment_type } => "unsupported Corel segment type: "@
                + decimal_int(segment_type as int),
        }
    }

    /// The text shown for the error.
    pub fn message(self) -> (res: String)
        ensures
            res@ == self.spec_message(),
    {
        match self {
            RingError::NoOuterRing => "孔位曲线没有有效的闭合外圈".to_owned(),
            RingError::NoCenterRing =>
                "孔位曲线缺少中心圆子路径；请重新使用“加孔”生成孔位".to_owned(),
            RingError::UnknownSegment { segment_type } => {
                let mut res = "unsupported Corel segment type: ".to_owned();
                push_decimal_int(&mut res, segment_type);
                res
            },
        }
    }
}

/// A kind of segment.
#[derive(Debug, Clone, Copy, PartialEq, Eq, Structural)]
pub enum SegmentKind {
    Line,
    Curve,
}

/// Whether a subpath counts as a ring: it is closed, and has three points or more.
pub fn counts_as_ring(closed: bool, points: usize) -> (res: bool)
    ensures
        res == (closed && points >= 3),
{
    closed && points >= 3
}

/// The kind of a segment of that type.
pub fn segment_kind(segment_type: i32) -> (res: Result<SegmentKind, RingError>)
    ensures
        res == (if segment_type == 0 {
            Ok::<_, RingError>(SegmentKind::Line)
        } else if segment_type == 1 {
            Ok(SegmentKind::Curve)
        } else {
            Err(RingError::UnknownSegment { segment_type })
        }),
{
    if segment_type == 0 {
        Ok(SegmentKind::Line)
    } else if segment_type == 1 {
        Ok(SegmentKind::Curve)
    } else {
        Err(RingError::UnknownSegment { segment_type })
    }
}

/// Whether ring `i` is the outermost one: none of the first `end` rings has a larger
/// area, and no later one has the same.
pub open spec fn is_outermost(areas: Seq<u64>, end: int, i: int) -> bool {
    &&& 0 <= i < end
    &&& forall|k: int| 0 <= k < end ==> total_order(#[trigger] areas[k]) <= total_order(areas[i])
    &&& forall|k: int| i < k < end ==> total_order(#[trigger] areas[k]) < total_order(areas[i])
}

/// The outermost of rings with these areas.
pub fn outer_ring(areas: &[u64]) -> (res: Option<usize>)
    ensures
        match res {
            Some(i) => is_outermost(areas@, areas@.len() as int, i as int),
            None => areas@.len() == 0,
        },
{
    if areas.len() == 0 {
        return None;
    }
    let mut best: usize = 0;
    let mut i: usize = 1;
    while i < areas.len()
        invariant
            1 <= i <= areas@.len(),
            is_outermost(areas@, i as int, best as int),
        decreases areas@.len() - i,
    {
        if !is_before(areas[i], areas[best]) {
            best = i;
        }
        i = i + 1;
    }
    Some(best)
}

/// The numbers below `end`, in order, but for `left_out`.
pub open spec fn all_but(left_out: int, end: int) -> Seq<usize>
    decreases end,
{
    if end <= 0 {
        Seq::empty()
    } else if end - 1 == left_out {
        all_but(left_out, end - 1)
    } else {
        all_but(left_out, end - 1).push((end - 1) as usize)
    }
}

/// The rings inside the outermost of rings with these areas; there has to be one.
pub fn inner_rings(areas: &[u64]) -> (res: Result<Vec<usize>, RingError>)
    ensures
        match res {
            Ok(inner) => areas@.len() >= 2 && exists|outer: int|
                is_outermost(areas@, areas@.len() as int, outer) && inner@ == #[trigger] all_but(
                    outer,
                    areas@.len() as int,
                ),
            Err(error) => areas@.len() < 2 && error == if areas@.len() == 0 {
                RingError::NoOuterRing
            } else {
                RingError::NoCenterRing
            },
        },
{
    let outer: usize = match outer_ring(areas) {
        Some(outer) => outer,
        None => return Err(RingError::NoOuterRing),
    };
    if areas.len() < 2 {
        return Err(RingError::NoCenterRing);
    }
    let mut inner: Vec<usize> = Vec::new();
    for i in 0..areas.len()
        invariant
            inner@ == all_but(outer as int, i as int),
    {
        if i != outer {
            inner.push(i);
        }
    }
    Ok(inner)
}

/// The numbers from `from` down to one, but for `kept`.
pub open spec fn down_but(from: int, kept: int) -> Seq<i32>
    decreases from,
{
    if from <= 0 {
        Seq::empty()
    } else if from == kept {
        down_but(from - 1, kept)
    } else {
        seq![from as i32] + down_but(from - 1, kept)
    }
}

/// The subpaths to delete so that only the outermost ring of a curve is left, the last
/// one first: `numbers` and `areas` are those of the closed subpaths, of `count` in all.
pub fn subpaths_to_delete(count: i32, numbers: &[i32], areas: &[u64]) -> (res: Result<
    Vec<i32>,
    RingError,
>)
    requires
        numbers@.len() == areas@.len(),
    ensures
        match res {
            Ok(deleted) => exists|outer: int|
                is_outermost(areas@, areas@.len() as int, outer) && deleted@ == #[trigger] down_but(
                    count as int,
                    numbers@[outer] as int,
                ),
            Err(error) => areas@.len() == 0 && error == RingError::NoOuterRing,
        },
{
    let outer: usize = match outer_ring(areas) {
        Some(outer) => outer,
        None => return Err(RingError::NoOuterRing),
    };
    let kept: i32 = numbers[outer];
    let mut deleted: Vec<i32> = Vec::new();
    let mut number: i32 = count;
    let ghost goal = down_but(count as int, kept as int);
    assert(deleted@ + goal =~= goal);
    while number > 0
        invariant
            number <= count,
            goal == down_but(count as int, kept as int),
            deleted@ + down_but(number as int, kept as int) == goal,
        decreases number,
    {
        let ghost before = deleted@;
        if number != kept {
            deleted.push(number);
            assert(deleted@ + down_but(number - 1, kept as int) =~= before + (seq![number]
                + down_but(number - 1, kept as int)));
        }
        number = number - 1;
    }
    assert(deleted@ =~= goal);
    Ok(deleted)
}

/// Exactly one ring of a curve is the outermost one.
pub proof fn law_the_outermost_ring_is_unique(areas: Seq<u64>, i: int, j: int)
    requires
        is_outermost(areas, areas.len() as int, i),
        is_outermost(areas, areas.len() as int, j),
    ensures
        i == j,
{
    if i < j {
        assert(total_order(areas[j]) < total_order(areas[i]));
        assert(total_order(areas[i]) <= total_order(areas[j]));
    } else if j < i {
        assert(total_order(areas[i]) < total_order(areas[j]));
        assert(total_order(areas[j]) <= total_order(areas[i]));
    }
}

/// Every ring but the one that is left out is there, once, in order.
pub proof fn law_all_other_rings_are_there(left_out: int, end: int)
    requires
        0 <= end <= usize::MAX,
    ensures
        forall|i: usize| #[trigger] all_but(left_out, end).contains(i) <==> i < end && i != left_out,
        forall|a: int, b: int|
            0 <= a < b < all_but(left_out, end).len() ==> #[trigger] all_but(left_out, end)[a]
                < #[trigger] all_but(left_out, end)[b],
        0 <= left_out < end ==> all_but(left_out, end).len() == end - 1,
        !(0 <= left_out < end) ==> all_but(left_out, end).len() == end,
    decreases end,
{
    if end > 0 {
        law_all_other_rings_are_there(left_out, end - 1);
        let before = all_but(left_out, end - 1);
        let all = all_but(left_out, end);
        assert forall|i: usize| #[trigger] all.contains(i) <==> i < end && i != left_out by {
            if i < end - 1 && i != left_out {
                assert(before.contains(i));
                let k = choose|k: int| 0 <= k < before.len() && before[k] == i;
                assert(all[k] == i);
            } else if i == end - 1 && i != left_out {
                assert(all[before.len() as int] == i);
            }
            if all.contains(i) {
                let k = choose|k: int| 0 <= k < all.len() && all[k] == i;
                if k < before.len() {
                    assert(before.contains(before[k]));
                }
            }
        }
        assert forall|a: int, b: int| 0 <= a < b < all.len() implies #[trigger] all[a]
            < #[trigger] all[b] by {
            assert(before.contains(before[a]));
            if b < before.len() {
                assert(before[a] < before[b]);
            }
        }
    }
}

/// Every subpath but the one that is kept is deleted, once, the last one first, so that the
/// numbers of those before it stay as they are.
pub proof fn law_all_other_subpaths_are_deleted(from: int, kept: int)
    requires
        from <= i32::MAX,
    ensures
        forall|n: i32| #[trigger] down_but(from, kept).contains(n) <==> 1 <= n <= from && n != kept,
        forall|a: int, b: int|
            0 <= a < b < down_but(from, kept).len() ==> #[trigger] down_but(from, kept)[a]
                > #[trigger] down_but(from, kept)[b],
    decreases from,
{
    if from > 0 {
        law_all_other_subpaths_are_deleted(from - 1, kept);
        let rest = down_but(from - 1, kept);
        let all = down_but(from, kept);
        if from == kept {
            assert(all == rest);
        } else {
            assert forall|i: int| 0 < i < all.len() implies #[trigger] all[i] == rest[i - 1] by {}
            assert forall|n: i32| #[trigger] all.contains(n) <==> 1 <= n <= from && n != kept by {
                if n == from {
                    assert(all[0] == n);
                } else if rest.contains(n) {
                    let k = choose|k: int| 0 <= k < rest.len() && rest[k] == n;
                    assert(all[k + 1] == n);
                }
                if all.contains(n) {
                    let k = choose|k: int| 0 <= k < all.len() && all[k] == n;
                    if k > 0 {
                        assert(rest.contains(rest[k - 1]));
                    }
                }
            }
            assert forall|a: int, b: int| 0 <= a < b < all.len() implies #[trigger] all[a]
                > #[trigger] all[b] by {
                assert(rest.contains(rest[b - 1]));
                if a > 0 {
                    assert(rest[a - 1] > rest[b - 1]);
                }
            }
        }
    }
}

/// No ring of a curve is larger than the outermost one, and the outermost one is none of the
/// inner ones.
pub proof fn law_inner_rings_are_inside(areas: Seq<u64>, outer: int, k: int)
    requires
        areas.len() <= usize::MAX,
        is_outermost(areas, areas.len() as int, outer),
        0 <= k < all_but(outer, areas.len() as int).len(),
    ensures
        ({
            let inner = all_but(outer, areas.len() as int)[k] as int;
            &&& 0 <= inner < areas.len()
            &&& inner != outer
            &&& total_order(areas[inner]) <= total_order(areas[outer])
        }),
{
    law_all_other_rings_are_there(outer, areas.len() as int);
    let all = all_but(outer, areas.len() as int);
    assert(all.contains(all[k]));
}

} // verus!
