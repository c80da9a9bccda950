//! Which selected curves are welded together.
//!
//! A selection holds outlines and keyhole rings. Every outline is tested against
//! every ring; curves that touch, directly or through others, form one group, and
//! each group is welded into one curve.

use vstd::prelude::*;

verus! {

/// Why a selection cannot be merged.
#[derive(Debug, Clone, Copy, PartialEq, Eq, Structural)]
pub enum MergeError {
    /// The selection lacks an outline or lacks a hole.
    MissingOutlineOrHole,
    /// No hole touches an outline.
    NothingTouches,
    /// No group holds both an outline and a hole.
    NothingToMerge,
}

impl MergeError {
    /// The text shown for the error.
    pub open spec fn spec_message(self) -> Seq<char> {
        match self {
            MergeError::MissingOutlineOrHole =>
                "请同时选择至少一条内容巡边曲线和一个通过“加孔”生成的孔位曲线。"@,
            MergeError::NothingTouches =>
                "所选孔位没有与任何巡边曲线接触，未修改文档；请检查孔位是否贴到轮廓。"@,
            MergeError::NothingToMerge => "没有找到可融合的轮廓与孔位组合。未修改文档。"@,
        }
    }

    /// The text shown for the error.
    pub fn message(self) -> (res: String)
        ensures
            res@ == self.spec_message(),
    {
        match self {
            MergeError::MissingOutlineOrHole =>
                "请同时选择至少一条内容巡边曲线和一个通过“加孔”生成的孔位曲线。".to_owned(),
            MergeError::NothingTouches =>
                "所选孔位没有与任何巡边曲线接触，未修改文档；请检查孔位是否贴到轮廓。".to_owned(),
            MergeError::NothingToMerge =>
                "没有找到可融合的轮廓与孔位组合。未修改文档。".to_owned(),
        }
    }
}

/// The groups to weld, and how many holes stay as they are.
pub struct MergePlan {
    /// Indexes of curves, outlines first; the first one is the base of the weld.
    pub groups: Vec<Vec<usize>>,
    pub untouched_hole_count: usize,
}

impl MergePlan {
    /// The groups as mathematical sequences.
    pub open spec fn spec_groups(&self) -> Seq<Seq<usize>> {
        self.groups@.map_values(|group: Vec<usize>| group@)
    }

    /// Whether every group holds a curve, and all of them are among `count` curves.
    pub open spec fn is_among(&self, count: nat) -> bool {
        &&& forall|g: int|
            0 <= g < self.spec_groups().len() ==> (#[trigger] self.spec_groups()[g]).len() > 0
        &&& forall|g: int, k: int|
            0 <= g < self.spec_groups().len() && 0 <= k < self.spec_groups()[g].len()
                ==> #[trigger] self.spec_groups()[g][k] < count
    }
}

// ---------------------------------------------------------------------------
// Pairs and links
// ---------------------------------------------------------------------------

/// The indexes below `end` whose hole flag is `wanted`, in order.
pub open spec fn indexes_of(is_hole: Seq<bool>, wanted: bool, end: int) -> Seq<usize>
    decreases end,
{
    if end <= 0 {
        Seq::empty()
    } else if is_hole[end - 1] == wanted {
        indexes_of(is_hole, wanted, end - 1).push((end - 1) as usize)
    } else {
        indexes_of(is_hole, wanted, end - 1)
    }
}

/// `first` paired with each of `seconds`.
pub open spec fn pairs_with(first: usize, seconds: Seq<usize>) -> Seq<(usize, usize)> {
    seconds.map_values(|second: usize| (first, second))
}

/// Each of the first `count` of `firsts` paired with each of `seconds`.
pub open spec fn all_pairs(firsts: Seq<usize>, seconds: Seq<usize>, count: int) -> Seq<
    (usize, usize),
>
    decreases count,
{
    if count <= 0 {
        Seq::empty()
    } else {
        all_pairs(firsts, seconds, count - 1) + pairs_with(firsts[count - 1], seconds)
    }
}

/// Every outline paired with every hole, outline by outline.
pub open spec fn spec_contact_pairs(is_hole: Seq<bool>) -> Seq<(usize, usize)> {
    let outlines = indexes_of(is_hole, false, is_hole.len() as int);
    let holes = indexes_of(is_hole, true, is_hole.len() as int);
    all_pairs(outlines, holes, outlines.len() as int)
}

/// The partners of curve `i` among the first `count` pairs, in the order in which
/// the touching pairs come.
pub open spec fn partners(
    pairs: Seq<(usize, usize)>,
    touching: Seq<bool>,
    count: int,
    i: usize,
) -> Seq<usize>
    decreases count,
{
    if count <= 0 {
        Seq::empty()
    } else {
        let before = partners(pairs, touching, count - 1, i);
        let pair = pairs[count - 1];
        if !touching[count - 1] {
            before
        } else if pair.0 == i {
            before.push(pair.1)
        } else if pair.1 == i {
            before.push(pair.0)
        } else {
            before
        }
    }
}

/// The curves that each curve touches.
pub open spec fn spec_links(is_hole: Seq<bool>, touching: Seq<bool>) -> Seq<Seq<usize>> {
    let pairs = spec_contact_pairs(is_hole);
    Seq::new(is_hole.len(), |i: int| partners(pairs, touching, pairs.len() as int, i as usize))
}

// ---------------------------------------------------------------------------
// Groups
// ---------------------------------------------------------------------------

/// How many flags of `visited` are unset.
pub open spec fn unvisited(visited: Seq<bool>) -> nat
    decreases visited.len(),
{
    if visited.len() == 0 {
        0
    } else {
        unvisited(visited.drop_last()) + if visited.last() { 0nat } else { 1nat }
    }
}

/// Marks the first `count` of `neighbors` and stacks those that were not marked yet.
pub open spec fn stack_neighbors(
    neighbors: Seq<usize>,
    count: int,
    visited: Seq<bool>,
    stack: Seq<usize>,
) -> (Seq<bool>, Seq<usize>)
    decreases count,
{
    if count <= 0 {
        (visited, stack)
    } else {
        let (marked, stacked) = stack_neighbors(neighbors, count - 1, visited, stack);
        let neighbor = neighbors[count - 1];
        if neighbor < marked.len() && !marked[neighbor as int] {
            (marked.update(neighbor as int, true), stacked.push(neighbor))
        } else {
            (marked, stacked)
        }
    }
}

/// Takes curves off `stack` until it is empty: the curves in the order in which
/// they come off, and the marks in the end.
pub open spec fn walk(
    links: Seq<Seq<usize>>,
    visited: Seq<bool>,
    stack: Seq<usize>,
) -> (Seq<usize>, Seq<bool>)
    decreases unvisited(visited) + stack.len(),
{
    if stack.len() == 0 {
        (Seq::empty(), visited)
    } else {
        let current = stack.last();
        let neighbors = links[current as int];
        let (marked, stacked) = stack_neighbors(
            neighbors,
            neighbors.len() as int,
            visited,
            stack.drop_last(),
        );
        proof {
            lemma_stack_neighbors_measure(
                neighbors,
                neighbors.len() as int,
                visited,
                stack.drop_last(),
            );
        }
        let (rest, end) = walk(links, marked, stacked);
        (seq![current] + rest, end)
    }
}

proof fn lemma_unvisited_update(visited: Seq<bool>, i: int)
    requires
        0 <= i < visited.len(),
        !visited[i],
    ensures
        unvisited(visited.update(i, true)) + 1 == unvisited(visited),
    decreases visited.len(),
{
    let updated = visited.update(i, true);
    if i == visited.len() - 1 {
        assert(updated.drop_last() =~= visited.drop_last());
    } else {
        lemma_unvisited_update(visited.drop_last(), i);
        assert(updated.drop_last() =~= visited.drop_last().update(i, true));
    }
}

/// Stacking neighbors trades unset marks for stacked curves, one for one.
pub proof fn lemma_stack_neighbors_measure(
    neighbors: Seq<usize>,
    count: int,
    visited: Seq<bool>,
    stack: Seq<usize>,
)
    ensures
        ({
            let (marked, stacked) = stack_neighbors(neighbors, count, visited, stack);
            &&& marked.len() == visited.len()
            &&& unvisited(marked) + stacked.len() == unvisited(visited) + stack.len()
        }),
    decreases count,
{
    if count > 0 {
        lemma_stack_neighbors_measure(neighbors, count - 1, visited, stack);
        let (marked, stacked) = stack_neighbors(neighbors, count - 1, visited, stack);
        let neighbor = neighbors[count - 1];
        if neighbor < marked.len() && !marked[neighbor as int] {
            lemma_unvisited_update(marked, neighbor as int);
        }
    }
}

/// The curves of `component`, up to `count`, whose hole flag is `wanted`.
pub open spec fn of_kind(
    component: Seq<usize>,
    is_hole: Seq<bool>,
    wanted: bool,
    count: int,
) -> Seq<usize>
    decreases count,
{
    if count <= 0 {
        Seq::empty()
    } else if is_hole[component[count - 1] as int] == wanted {
        of_kind(component, is_hole, wanted, count - 1).push(component[count - 1])
    } else {
        of_kind(component, is_hole, wanted, count - 1)
    }
}

/// The outlines of `component`, then its holes, each in the order of `component`.
pub open spec fn outlines_first(component: Seq<usize>, is_hole: Seq<bool>) -> Seq<usize> {
    of_kind(component, is_hole, false, component.len() as int) + of_kind(
        component,
        is_hole,
        true,
        component.len() as int,
    )
}

/// Whether `component` holds an outline and a hole.
pub open spec fn holds_both_kinds(component: Seq<usize>, is_hole: Seq<bool>) -> bool {
    &&& of_kind(component, is_hole, false, component.len() as int).len() > 0
    &&& of_kind(component, is_hole, true, component.len() as int).len() > 0
}

/// The groups whose least curve is below `end`, and the curves marked so far.
pub open spec fn grouping(links: Seq<Seq<usize>>, is_hole: Seq<bool>, end: int) -> (
    Seq<Seq<usize>>,
    Seq<bool>,
)
    decreases end,
{
    if end <= 0 {
        (Seq::empty(), Seq::new(links.len(), |i: int| false))
    } else {
        let (groups, visited) = grouping(links, is_hole, end - 1);
        let start = end - 1;
        if visited[start] || links[start].len() == 0 {
            (groups, visited)
        } else {
            let (component, marked) = walk(
                links,
                visited.update(start, true),
                seq![start as usize],
            );
            if holds_both_kinds(component, is_hole) {
                (groups.push(outlines_first(component, is_hole)), marked)
            } else {
                (groups, marked)
            }
        }
    }
}

/// All groups of the selection.
pub open spec fn merge_groups(is_hole: Seq<bool>, touching: Seq<bool>) -> Seq<Seq<usize>> {
    grouping(spec_links(is_hole, touching), is_hole, is_hole.len() as int).0
}

/// How many of the first `end` curves are holes that touch nothing.
pub open spec fn untouched_holes(links: Seq<Seq<usize>>, is_hole: Seq<bool>, end: int) -> nat
    decreases end,
{
    if end <= 0 {
        0
    } else {
        untouched_holes(links, is_hole, end - 1) + if is_hole[end - 1] && links[end - 1].len()
            == 0 {
            1nat
        } else {
            0nat
        }
    }
}

// ---------------------------------------------------------------------------
// Planning
// ---------------------------------------------------------------------------

fn collect_indexes(is_hole: &[bool], wanted: bool) -> (res: Vec<usize>)
    ensures
        res@ == indexes_of(is_hole@, wanted, is_hole@.len() as int),
{
    let mut res: Vec<usize> = Vec::new();
    for i in 0..is_hole.len()
        invariant
            res@ == indexes_of(is_hole@, wanted, i as int),
    {
        if is_hole[i] == wanted {
            res.push(i);
        }
    }
    res
}

/// The pairs of an outline and a hole that have to be tested for contact, in the
/// order in which they are tested.
pub fn contact_pairs(is_hole: &[bool]) -> (res: Vec<(usize, usize)>)
    ensures
        res@ == spec_contact_pairs(is_hole@),
{
    let outlines = collect_indexes(is_hole, false);
    let holes = collect_indexes(is_hole, true);
    let mut res: Vec<(usize, usize)> = Vec::new();
    for i in 0..outlines.len()
        invariant
            res@ == all_pairs(outlines@, holes@, i as int),
    {
        let ghost before = res@;
        for j in 0..holes.len()
            invariant
                i < outlines@.len(),
                res@ == before + pairs_with(outlines@[i as int], holes@).take(j as int),
        {
            res.push((outlines[i], holes[j]));
        }
        assert(res@ == before + pairs_with(outlines@[i as int], holes@));
    }
    res
}

proof fn lemma_index_bound(is_hole: Seq<bool>, wanted: bool, end: int)
    requires
        0 <= end <= is_hole.len() <= usize::MAX,
    ensures
        forall|k: int|
            0 <= k < indexes_of(is_hole, wanted, end).len() ==> {
                let i = #[trigger] indexes_of(is_hole, wanted, end)[k];
                i < end && is_hole[i as int] == wanted
            },
        forall|i: int|
            0 <= i < end && #[trigger] is_hole[i] == wanted ==> indexes_of(
                is_hole,
                wanted,
                end,
            ).contains(i as usize),
    decreases end,
{
    if end > 0 {
        lemma_index_bound(is_hole, wanted, end - 1);
        let before = indexes_of(is_hole, wanted, end - 1);
        let all = indexes_of(is_hole, wanted, end);
        assert forall|i: int| 0 <= i < end && #[trigger] is_hole[i] == wanted implies all.contains(
            i as usize,
        ) by {
            if i == end - 1 {
                assert(all.last() == i);
            } else {
                assert(before.contains(i as usize));
                let k = choose|k: int| 0 <= k < before.len() && before[k] == i as usize;
                assert(all[k] == i as usize);
            }
        }
    }
}

proof fn lemma_pair_bound(firsts: Seq<usize>, seconds: Seq<usize>, count: int)
    requires
        0 <= count <= firsts.len(),
    ensures
        forall|k: int|
            0 <= k < all_pairs(firsts, seconds, count).len() ==> {
                let pair = #[trigger] all_pairs(firsts, seconds, count)[k];
                firsts.contains(pair.0) && seconds.contains(pair.1)
            },
    decreases count,
{
    if count > 0 {
        lemma_pair_bound(firsts, seconds, count - 1);
        let before = all_pairs(firsts, seconds, count - 1);
        let all = all_pairs(firsts, seconds, count);
        assert forall|k: int| 0 <= k < all.len() implies {
            let pair = #[trigger] all[k];
            firsts.contains(pair.0) && seconds.contains(pair.1)
        } by {
            if k < before.len() {
                assert(all[k] == before[k]);
            } else {
                assert(all[k] == pairs_with(firsts[count - 1], seconds)[k - before.len()]);
                assert(seconds.contains(seconds[k - before.len()]));
            }
        }
    }
}

/// Every pair that is tested holds an outline of the selection, then a hole of it.
pub proof fn lemma_pairs_are_outline_and_hole(is_hole: Seq<bool>)
    requires
        is_hole.len() <= usize::MAX,
    ensures
        forall|k: int|
            0 <= k < spec_contact_pairs(is_hole).len() ==> {
                let pair = #[trigger] spec_contact_pairs(is_hole)[k];
                &&& pair.0 < is_hole.len()
                &&& pair.1 < is_hole.len()
                &&& !is_hole[pair.0 as int]
                &&& is_hole[pair.1 as int]
            },
{
    let n = is_hole.len() as int;
    lemma_index_bound(is_hole, false, n);
    lemma_index_bound(is_hole, true, n);
    let outlines = indexes_of(is_hole, false, n);
    lemma_pair_bound(outlines, indexes_of(is_hole, true, n), outlines.len() as int);
}

/// The links are in bounds and join an outline with a hole; a link holds both ways.
pub proof fn lemma_links(is_hole: Seq<bool>, touching: Seq<bool>)
    requires
        is_hole.len() <= usize::MAX,
    ensures
        spec_links(is_hole, touching).len() == is_hole.len(),
        forall|i: int, k: int|
            0 <= i < is_hole.len() && 0 <= k < spec_links(is_hole, touching)[i].len() ==> {
                let j = #[trigger] spec_links(is_hole, touching)[i][k];
                j < is_hole.len() && is_hole[j as int] != is_hole[i]
            },
        forall|i: usize, j: usize|
            i < is_hole.len() && #[trigger] spec_links(is_hole, touching)[i as int].contains(j)
                ==> spec_links(is_hole, touching)[j as int].contains(i),
{
    lemma_pairs_are_outline_and_hole(is_hole);
    let pairs = spec_contact_pairs(is_hole);
    let count = pairs.len() as int;
    let links = spec_links(is_hole, touching);
    assert forall|i: int, k: int|
        0 <= i < is_hole.len() && 0 <= k < links[i].len() implies {
        let j = #[trigger] links[i][k];
        j < is_hole.len() && is_hole[j as int] != is_hole[i]
    } by {
        let j = links[i][k];
        lemma_partners(pairs, touching, count, i as usize);
        assert(links[i].contains(j));
        assert(touch(pairs, touching, count, i as usize, j));
    }
    assert forall|i: usize, j: usize|
        i < is_hole.len() && #[trigger] links[i as int].contains(j) implies links[j as int].contains(
        i,
    ) by {
        lemma_partners(pairs, touching, count, i);
        lemma_partners(pairs, touching, count, j);
        assert(touch(pairs, touching, count, i, j));
        let c = choose|c: int| 0 <= c < count && touching[c] && #[trigger] joins(pairs[c], i, j);
        assert(joins(pairs[c], j, i));
        assert(touch(pairs, touching, count, j, i));
    }
}

/// Whether `pair` is made of `i` and `j`.
pub open spec fn joins(pair: (usize, usize), i: usize, j: usize) -> bool {
    pair == (i, j) || pair == (j, i)
}

/// Whether one of the first `count` pairs touches and is made of `i` and `j`.
pub open spec fn touch(
    pairs: Seq<(usize, usize)>,
    touching: Seq<bool>,
    count: int,
    i: usize,
    j: usize,
) -> bool {
    exists|c: int| 0 <= c < count && touching[c] && #[trigger] joins(pairs[c], i, j)
}

proof fn lemma_partners(pairs: Seq<(usize, usize)>, touching: Seq<bool>, count: int, i: usize)
    requires
        0 <= count <= pairs.len(),
        forall|k: int| 0 <= k < pairs.len() ==> (#[trigger] pairs[k]).0 != pairs[k].1,
    ensures
        forall|j: usize|
            partners(pairs, touching, count, i).contains(j) <==> #[trigger] touch(
                pairs,
                touching,
                count,
                i,
                j,
            ),
    decreases count,
{
    if count > 0 {
        lemma_partners(pairs, touching, count - 1, i);
        let before = partners(pairs, touching, count - 1, i);
        let all = partners(pairs, touching, count, i);
        assert forall|j: usize|
            all.contains(j) <==> #[trigger] touch(pairs, touching, count, i, j) by {
            assert(before.contains(j) <==> touch(pairs, touching, count - 1, i, j));
            if all.contains(j) {
                if before.contains(j) {
                    let c = choose|c: int|
                        0 <= c < count - 1 && touching[c] && #[trigger] joins(pairs[c], i, j);
                    assert(joins(pairs[c], i, j));
                } else {
                    let k = choose|k: int| 0 <= k < all.len() && all[k] == j;
                    if k < before.len() {
                        assert(before[k] == j);
                    }
                    assert(joins(pairs[count - 1], i, j));
                }
            }
            if touch(pairs, touching, count, i, j) {
                let c = choose|c: int|
                    0 <= c < count && touching[c] && #[trigger] joins(pairs[c], i, j);
                if c < count - 1 {
                    assert(touch(pairs, touching, count - 1, i, j));
                    let k = choose|k: int| 0 <= k < before.len() && before[k] == j;
                    assert(all[k] == j);
                } else {
                    assert(all.last() == j);
                }
            }
        }
    }
}

/// The curves that each curve touches, as `spec_links` states them.
fn link_curves(is_hole: &[bool], touching: &[bool]) -> (res: Vec<Vec<usize>>)
    requires
        touching@.len() == spec_contact_pairs(is_hole@).len(),
    ensures
        res@.map_values(|links: Vec<usize>| links@) == spec_links(is_hole@, touching@),
{
    let pairs = contact_pairs(is_hole);
    let mut links: Vec<Vec<usize>> = Vec::new();
    for i in 0..is_hole.len()
        invariant
            links@.len() == i,
            forall|k: int| 0 <= k < i ==> (#[trigger] links@[k])@ == Seq::<usize>::empty(),
    {
        links.push(Vec::new());
    }
    proof {
        lemma_pairs_are_outline_and_hole(is_hole@);
    }
    let curve_count: usize = links.len();
    for c in 0..pairs.len()
        invariant
            curve_count == links@.len(),
            pairs@ == spec_contact_pairs(is_hole@),
            touching@.len() == pairs@.len(),
            links@.len() == is_hole@.len(),
            forall|k: int|
                0 <= k < links@.len() ==> (#[trigger] links@[k])@ == partners(
                    pairs@,
                    touching@,
                    c as int,
                    k as usize,
                ),
            forall|k: int|
                0 <= k < pairs@.len() ==> {
                    let pair = #[trigger] pairs@[k];
                    pair.0 < links@.len() && pair.1 < links@.len() && pair.0 != pair.1
                },
    {
        if touching[c] {
            let (first, second) = pairs[c];
            assert(pairs@[c as int] == (first, second));
            let ghost before = links@;
            links[first].push(second);
            links[second].push(first);
            assert forall|k: int| 0 <= k < links@.len() implies (#[trigger] links@[k])@ == partners(
                pairs@,
                touching@,
                c + 1,
                k as usize,
            ) by {
                assert(before[k]@ == partners(pairs@, touching@, c as int, k as usize));
            }
        } else {
            assert forall|k: int| 0 <= k < links@.len() implies (#[trigger] links@[k])@ == partners(
                pairs@,
                touching@,
                c + 1,
                k as usize,
            ) by {}
        }
    }
    assert(links@.map_values(|l: Vec<usize>| l@) =~= spec_links(is_hole@, touching@));
    links
}

/// The curves that are reached from `start`, marked in `visited`.
fn collect_component(links: &Vec<Vec<usize>>, visited: &mut Vec<bool>, start: usize) -> (res: Vec<
    usize,
>)
    requires
        old(visited)@.len() == links@.len(),
        start < links@.len(),
        forall|i: int, k: int|
            0 <= i < links@.len() && 0 <= k < links@[i]@.len() ==> #[trigger] links@[i]@[k]
                < links@.len(),
    ensures
        ({
            let (component, marked) = walk(
                links@.map_values(|l: Vec<usize>| l@),
                old(visited)@.update(start as int, true),
                seq![start],
            );
            res@ == component && final(visited)@ == marked
        }),
        final(visited)@.len() == links@.len(),
        forall|k: int| 0 <= k < res@.len() ==> #[trigger] res@[k] < links@.len(),
{
    let ghost all = links@.map_values(|l: Vec<usize>| l@);
    let ghost goal = walk(all, visited@.update(start as int, true), seq![start]);
    let mut stack: Vec<usize> = Vec::new();
    let mut component: Vec<usize> = Vec::new();
    stack.push(start);
    visited.set(start, true);
    assert(stack@ =~= seq![start]);
    assert(component@ + walk(all, visited@, stack@).0 =~= goal.0);
    while stack.len() > 0
        invariant
            all == links@.map_values(|l: Vec<usize>| l@),
            visited@.len() == links@.len(),
            forall|i: int, k: int|
                0 <= i < links@.len() && 0 <= k < links@[i]@.len() ==> #[trigger] links@[i]@[k]
                    < links@.len(),
            forall|k: int| 0 <= k < stack@.len() ==> #[trigger] stack@[k] < links@.len(),
            forall|k: int| 0 <= k < component@.len() ==> #[trigger] component@[k] < links@.len(),
            goal.0 == component@ + walk(all, visited@, stack@).0,
            goal.1 == walk(all, visited@, stack@).1,
        decreases unvisited(visited@) + stack@.len(),
    {
        let ghost visited_before = visited@;
        let ghost stack_before = stack@;
        let ghost component_before = component@;
        let current: usize = stack[stack.len() - 1];
        stack.pop();
        component.push(current);
        assert(stack@ =~= stack_before.drop_last());
        let ghost neighbors = all[current as int];
        proof {
            lemma_stack_neighbors_measure(
                neighbors,
                neighbors.len() as int,
                visited_before,
                stack_before.drop_last(),
            );
        }
        let link_count: usize = links[current].len();
        for k in 0..link_count
            invariant
                current < links@.len(),
                link_count == links@[current as int]@.len(),
                all == links@.map_values(|l: Vec<usize>| l@),
                neighbors == links@[current as int]@,
                visited@.len() == links@.len(),
                forall|i: int, k: int|
                    0 <= i < links@.len() && 0 <= k < links@[i]@.len() ==> #[trigger] links@[i]@[k]
                        < links@.len(),
                forall|k: int| 0 <= k < stack@.len() ==> #[trigger] stack@[k] < links@.len(),
                (visited@, stack@) == stack_neighbors(
                    neighbors,
                    k as int,
                    visited_before,
                    stack_before.drop_last(),
                ),
        {
            let neighbor: usize = links[current][k];
            if !visited[neighbor] {
                visited.set(neighbor, true);
                stack.push(neighbor);
            }
        }
        assert(component@ + walk(all, visited@, stack@).0 =~= component_before + (seq![current]
            + walk(all, visited@, stack@).0));
    }
    assert(component@ + walk(all, visited@, stack@).0 =~= component@);
    component
}

fn collect_kind(component: &Vec<usize>, is_hole: &[bool], wanted: bool, res: &mut Vec<usize>)
    requires
        forall|k: int| 0 <= k < component@.len() ==> #[trigger] component@[k] < is_hole@.len(),
    ensures
        final(res)@ == old(res)@ + of_kind(
            component@,
            is_hole@,
            wanted,
            component@.len() as int,
        ),
{
    let ghost before = res@;
    for k in 0..component.len()
        invariant
            forall|k: int| 0 <= k < component@.len() ==> #[trigger] component@[k] < is_hole@.len(),
            res@ == before + of_kind(component@, is_hole@, wanted, k as int),
    {
        if is_hole[component[k]] == wanted {
            res.push(component[k]);
        }
    }
}

/// Plans the merge: `touching` holds, for each pair of [`contact_pairs`], whether the
/// two curves touch.
pub fn plan_merge(is_hole: &[bool], touching: &[bool]) -> (res: Result<MergePlan, MergeError>)
    requires
        touching@.len() == spec_contact_pairs(is_hole@).len(),
    ensures
        res == Err::<MergePlan, MergeError>(MergeError::MissingOutlineOrHole) <==> (forall|i: int|
            0 <= i < is_hole@.len() ==> is_hole@[i]) || (forall|i: int|
            0 <= i < is_hole@.len() ==> !is_hole@[i]),
        res == Err::<MergePlan, MergeError>(MergeError::NothingTouches) <==> {
            &&& exists|i: int| 0 <= i < is_hole@.len() && is_hole@[i]
            &&& exists|i: int| 0 <= i < is_hole@.len() && !is_hole@[i]
            &&& forall|c: int| 0 <= c < touching@.len() ==> !touching@[c]
        },
        res != Err::<MergePlan, MergeError>(MergeError::NothingToMerge),
        res matches Ok(plan) ==> {
            &&& plan.spec_groups() == merge_groups(is_hole@, touching@)
            &&& plan.is_among(is_hole@.len())
            &&& plan.untouched_hole_count == untouched_holes(
                spec_links(is_hole@, touching@),
                is_hole@,
                is_hole@.len() as int,
            )
        },
{
    let outlines = collect_indexes(is_hole, false);
    let holes = collect_indexes(is_hole, true);
    proof {
        lemma_index_bound(is_hole@, false, is_hole@.len() as int);
        lemma_index_bound(is_hole@, true, is_hole@.len() as int);
    }
    if outlines.len() == 0 || holes.len() == 0 {
        return Err(MergeError::MissingOutlineOrHole);
    }
    assert(!is_hole@[outlines@[0] as int]);
    assert(is_hole@[holes@[0] as int]);
    let links = link_curves(is_hole, touching);
    let ghost all = links@.map_values(|l: Vec<usize>| l@);
    proof {
        lemma_links(is_hole@, touching@);
        assert forall|i: int, k: int| 0 <= i < links@.len() && 0 <= k < links@[i]@.len() implies
            #[trigger] links@[i]@[k] < links@.len() by {
            assert(all[i][k] == links@[i]@[k]);
        }
    }
    let mut any_link: bool = false;
    let mut untouched: usize = 0;
    for i in 0..is_hole.len()
        invariant
            all == links@.map_values(|l: Vec<usize>| l@),
            links@.len() == is_hole@.len(),
            untouched == untouched_holes(all, is_hole@, i as int),
            untouched <= i,
            any_link <==> exists|k: int| 0 <= k < i && (#[trigger] links@[k])@.len() > 0,
    {
        if links[i].len() > 0 {
            any_link = true;
        }
        if is_hole[i] && links[i].len() == 0 {
            untouched = untouched + 1;
        }
    }
    proof {
        lemma_any_link(is_hole@, touching@);
        assert(any_link <==> exists|k: int| 0 <= k < all.len() && (#[trigger] all[k]).len() > 0) by {
            if any_link {
                let k = choose|k: int| 0 <= k < links@.len() && (#[trigger] links@[k])@.len() > 0;
                assert(all[k].len() > 0);
            }
            if exists|k: int| 0 <= k < all.len() && (#[trigger] all[k]).len() > 0 {
                let k = choose|k: int| 0 <= k < all.len() && (#[trigger] all[k]).len() > 0;
                assert(links@[k]@.len() > 0);
            }
        }
    }
    if !any_link {
        return Err(MergeError::NothingTouches);
    }
    let mut visited: Vec<bool> = Vec::new();
    for i in 0..is_hole.len()
        invariant
            visited@ == Seq::new(i as nat, |k: int| false),
    {
        visited.push(false);
    }
    let mut groups: Vec<Vec<usize>> = Vec::new();
    assert(groups@.map_values(|g: Vec<usize>| g@) =~= Seq::<Seq<usize>>::empty());
    for start in 0..is_hole.len()
        invariant
            all == links@.map_values(|l: Vec<usize>| l@),
            links@.len() == is_hole@.len(),
            visited@.len() == is_hole@.len(),
            forall|i: int, k: int|
                0 <= i < links@.len() && 0 <= k < links@[i]@.len() ==> #[trigger] links@[i]@[k]
                    < links@.len(),
            grouping(all, is_hole@, start as int) == (
                groups@.map_values(|g: Vec<usize>| g@),
                visited@,
            ),
    {
        let ghost groups_before = groups@.map_values(|g: Vec<usize>| g@);
        assert(all[start as int] == links@[start as int]@);
        if !visited[start] && links[start].len() > 0 {
            let component = collect_component(&links, &mut visited, start);
            let mut ordered: Vec<usize> = Vec::new();
            collect_kind(&component, is_hole, false, &mut ordered);
            let outline_count: usize = ordered.len();
            collect_kind(&component, is_hole, true, &mut ordered);
            assert(ordered@ =~= outlines_first(component@, is_hole@));
            if outline_count > 0 && ordered.len() > outline_count {
                groups.push(ordered);
                assert(groups@.map_values(|g: Vec<usize>| g@) =~= groups_before.push(
                    outlines_first(component@, is_hole@),
                ));
            }
        }
    }
    proof {
        law_touching_curves_are_grouped(is_hole@, touching@);
    }
    if groups.len() == 0 {
        return Err(MergeError::NothingToMerge);
    }
    let plan = MergePlan { groups, untouched_hole_count: untouched };
    proof {
        law_groups_are_components(is_hole@, touching@);
        let found = plan.spec_groups();
        assert forall|g: int| 0 <= g < found.len() implies (#[trigger] found[g]).len() > 0 by {
            law_a_group_is_outlines_and_holes(is_hole@, touching@, g);
        }
        assert forall|g: int, k: int| 0 <= g < found.len() && 0 <= k < found[g].len() implies
            #[trigger] found[g][k] < is_hole@.len() by {
            assert(merge_groups(is_hole@, touching@)[g].contains(found[g][k]));
        }
    }
    Ok(plan)
}

// ---------------------------------------------------------------------------
// Groups are the connected components
// ---------------------------------------------------------------------------

/// Whether each curve of `path` touches the next one.
pub open spec fn is_chain(links: Seq<Seq<usize>>, path: Seq<usize>) -> bool {
    &&& path.len() > 0
    &&& forall|k: int| 0 <= k < path.len() ==> #[trigger] path[k] < links.len()
    &&& forall|k: int|
        0 <= k < path.len() - 1 ==> (#[trigger] links[path[k] as int]).contains(path[k + 1])
}

/// Whether `path` is a chain from `i` to `j`.
pub open spec fn is_chain_between(
    links: Seq<Seq<usize>>,
    path: Seq<usize>,
    i: usize,
    j: usize,
) -> bool {
    is_chain(links, path) && path[0] == i && path.last() == j
}

/// Whether a chain of touching curves leads from `i` to `j`.
pub open spec fn connected(links: Seq<Seq<usize>>, i: usize, j: usize) -> bool {
    exists|path: Seq<usize>| is_chain_between(links, path, i, j)
}

spec fn links_in_bounds(links: Seq<Seq<usize>>) -> bool {
    forall|i: int, k: int|
        0 <= i < links.len() && 0 <= k < links[i].len() ==> #[trigger] links[i][k] < links.len()
}

spec fn links_both_ways(links: Seq<Seq<usize>>) -> bool {
    forall|i: usize, j: usize|
        i < links.len() && #[trigger] links[i as int].contains(j) ==> links[j as int].contains(i)
}

/// Whether all curves that touch a marked one are marked.
spec fn marks_closed(links: Seq<Seq<usize>>, visited: Seq<bool>) -> bool {
    forall|i: int, k: int|
        0 <= i < links.len() && visited[i] && 0 <= k < links[i].len()
            ==> visited[#[trigger] links[i][k] as int]
}

proof fn lemma_connected_self(links: Seq<Seq<usize>>, i: usize)
    requires
        i < links.len(),
    ensures
        connected(links, i, i),
{
    assert(is_chain_between(links, seq![i], i, i));
}

proof fn lemma_connected_extend(links: Seq<Seq<usize>>, i: usize, j: usize, k: usize)
    requires
        i < links.len(),
        links[i as int].contains(j),
        connected(links, j, k),
    ensures
        connected(links, i, k),
{
    let path = choose|path: Seq<usize>| is_chain_between(links, path, j, k);
    let longer = seq![i] + path;
    assert forall|m: int| 0 <= m < longer.len() - 1 implies (#[trigger] links[longer[m] as int]).contains(
        longer[m + 1],
    ) by {
        if m > 0 {
            assert(longer[m] == path[m - 1]);
            assert(longer[m + 1] == path[m]);
        }
    }
    assert(is_chain_between(links, longer, i, k));
}

proof fn lemma_connected_back(links: Seq<Seq<usize>>, i: usize, j: usize)
    requires
        links_both_ways(links),
        connected(links, i, j),
    ensures
        connected(links, j, i),
{
    let path = choose|path: Seq<usize>| is_chain_between(links, path, i, j);
    let back = Seq::new(path.len(), |k: int| path[path.len() - 1 - k]);
    assert forall|m: int| 0 <= m < back.len() - 1 implies (#[trigger] links[back[m] as int]).contains(
        back[m + 1],
    ) by {
        let k = path.len() - 2 - m;
        assert(links[path[k] as int].contains(path[k + 1]));
        assert(back[m] == path[k + 1]);
        assert(back[m + 1] == path[k]);
    }
    assert forall|m: int| 0 <= m < back.len() implies #[trigger] back[m] < links.len() by {
        assert(path[path.len() - 1 - m] < links.len());
    }
    assert(is_chain_between(links, back, j, i));
}

proof fn lemma_connected_through(links: Seq<Seq<usize>>, i: usize, j: usize, k: usize)
    requires
        connected(links, i, j),
        connected(links, j, k),
    ensures
        connected(links, i, k),
{
    let first = choose|path: Seq<usize>| is_chain_between(links, path, i, j);
    let second = choose|path: Seq<usize>| is_chain_between(links, path, j, k);
    let whole = first + second.drop_first();
    assert forall|m: int| 0 <= m < whole.len() - 1 implies (#[trigger] links[whole[m] as int]).contains(
        whole[m + 1],
    ) by {
        if m < first.len() - 1 {
            assert(whole[m] == first[m]);
            assert(whole[m + 1] == first[m + 1]);
        } else {
            let n = m - first.len() + 1;
            assert(whole[m] == second[n]) by {
                if m == first.len() - 1 {
                    assert(whole[m] == first.last());
                }
            }
            assert(whole[m + 1] == second[n + 1]);
        }
    }
    assert(whole.last() == k) by {
        if second.len() == 1 {
            assert(whole.last() == first.last());
        } else {
            assert(whole.last() == second.last());
        }
    }
    assert(is_chain_between(links, whole, i, k));
}

/// Marks that are closed under touching hold everything a marked curve leads to.
proof fn lemma_marks_follow_chain(
    links: Seq<Seq<usize>>,
    visited: Seq<bool>,
    path: Seq<usize>,
    k: int,
)
    requires
        visited.len() == links.len(),
        marks_closed(links, visited),
        is_chain(links, path),
        visited[path[0] as int],
        0 <= k < path.len(),
    ensures
        visited[path[k] as int],
    decreases k,
{
    if k > 0 {
        lemma_marks_follow_chain(links, visited, path, k - 1);
        let from = path[k - 1] as int;
        assert(links[path[k - 1] as int].contains(path[k - 1 + 1]));
        let m = choose|m: int| 0 <= m < links[from].len() && links[from][m] == path[k];
        assert(visited[links[from][m] as int]);
    }
}

proof fn lemma_stack_neighbors(
    neighbors: Seq<usize>,
    count: int,
    visited: Seq<bool>,
    stack: Seq<usize>,
)
    requires
        0 <= count <= neighbors.len(),
        forall|k: int| 0 <= k < neighbors.len() ==> #[trigger] neighbors[k] < visited.len(),
        forall|k: int| 0 <= k < stack.len() ==> #[trigger] stack[k] < visited.len(),
        forall|k: int| 0 <= k < stack.len() ==> visited[#[trigger] stack[k] as int],
        stack.no_duplicates(),
    ensures
        ({
            let (marked, stacked) = stack_neighbors(neighbors, count, visited, stack);
            &&& marked.len() == visited.len()
            &&& forall|u: usize|
                u < visited.len() && visited[u as int] ==> #[trigger] marked[u as int]
            &&& forall|u: usize|
                u < visited.len() && #[trigger] marked[u as int] && !visited[u as int]
                    ==> stacked.contains(u)
            &&& forall|k: int| 0 <= k < count ==> marked[#[trigger] neighbors[k] as int]
            &&& forall|u: usize| #[trigger] stack.contains(u) ==> stacked.contains(u)
            &&& forall|u: usize| #[trigger]
                stacked.contains(u) ==> stack.contains(u) || (neighbors.contains(u)
                    && !visited[u as int])
            &&& forall|k: int| 0 <= k < stacked.len() ==> #[trigger] stacked[k] < visited.len()
            &&& forall|k: int| 0 <= k < stacked.len() ==> marked[#[trigger] stacked[k] as int]
            &&& stacked.no_duplicates()
        }),
    decreases count,
{
    if count > 0 {
        lemma_stack_neighbors(neighbors, count - 1, visited, stack);
        let (marked, stacked) = stack_neighbors(neighbors, count - 1, visited, stack);
        let neighbor = neighbors[count - 1];
        let (marked2, stacked2) = stack_neighbors(neighbors, count, visited, stack);
        if neighbor < marked.len() && !marked[neighbor as int] {
            assert(stacked2 == stacked.push(neighbor));
            assert(!stacked.contains(neighbor)) by {
                if stacked.contains(neighbor) {
                    let k = choose|k: int| 0 <= k < stacked.len() && stacked[k] == neighbor;
                    assert(marked[stacked[k] as int]);
                }
            }
            assert(neighbors.contains(neighbor));
            assert forall|u: usize| stacked.contains(u) implies stacked2.contains(u) by {
                let k = choose|k: int| 0 <= k < stacked.len() && stacked[k] == u;
                assert(stacked2[k] == u);
            }
            assert(stacked2.last() == neighbor);
            assert(stacked2.contains(neighbor));
            assert forall|u: usize| #[trigger] stacked2.contains(u) implies stack.contains(u) || (
            neighbors.contains(u) && !visited[u as int]) by {
                let k = choose|k: int| 0 <= k < stacked2.len() && stacked2[k] == u;
                if k < stacked.len() {
                    assert(stacked[k] == u);
                    assert(stacked.contains(u));
                } else {
                    assert(u == neighbor);
                }
            }
        }
    }
}

/// What a walk reaches: everything on the stack and all that leads on from it.
proof fn lemma_walk(links: Seq<Seq<usize>>, visited: Seq<bool>, stack: Seq<usize>)
    requires
        links.len() <= usize::MAX,
        links_in_bounds(links),
        visited.len() == links.len(),
        forall|k: int| 0 <= k < stack.len() ==> #[trigger] stack[k] < links.len(),
        forall|k: int| 0 <= k < stack.len() ==> visited[#[trigger] stack[k] as int],
        stack.no_duplicates(),
        forall|u: usize, k: int|
            u < links.len() && visited[u as int] && !stack.contains(u) && 0 <= k
                < links[u as int].len() ==> visited[#[trigger] links[u as int][k] as int],
    ensures
        ({
            let (component, marked) = walk(links, visited, stack);
            &&& marked.len() == links.len()
            &&& marks_closed(links, marked)
            &&& forall|u: usize|
                u < links.len() ==> (#[trigger] marked[u as int] <==> visited[u as int]
                    || component.contains(u))
            &&& forall|u: usize| #[trigger]
                component.contains(u) ==> u < links.len() && (stack.contains(u)
                    || !visited[u as int])
            &&& forall|u: usize| stack.contains(u) ==> #[trigger] component.contains(u)
            &&& component.no_duplicates()
            &&& forall|u: usize| #[trigger]
                component.contains(u) ==> exists|s: usize|
                    stack.contains(s) && #[trigger] connected(links, s, u)
        }),
    decreases unvisited(visited) + stack.len(),
{
    let (component, marked) = walk(links, visited, stack);
    if stack.len() == 0 {
        assert forall|i: int, k: int|
            0 <= i < links.len() && marked[i] && 0 <= k < links[i].len() implies marked[
        #[trigger] links[i][k] as int] by {
            let u = i as usize;
            assert(visited[links[u as int][k] as int]);
        }
    } else {
        let current = stack.last();
        assert(stack[stack.len() - 1] == current);
        let below = stack.drop_last();
        let neighbors = links[current as int];
        let (mid, stacked) = stack_neighbors(neighbors, neighbors.len() as int, visited, below);
        assert(stack.contains(current));
        assert(!below.contains(current)) by {
            if below.contains(current) {
                let k = choose|k: int| 0 <= k < below.len() && below[k] == current;
                assert(stack[k] == current);
            }
        }
        assert forall|u: usize| stack.contains(u) implies below.contains(u) || u == current by {
            let k = choose|k: int| 0 <= k < stack.len() && stack[k] == u;
            if k < stack.len() - 1 {
                assert(below[k] == u);
            }
        }
        assert forall|u: usize| below.contains(u) implies stack.contains(u) by {
            let k = choose|k: int| 0 <= k < below.len() && below[k] == u;
            assert(stack[k] == u);
        }
        assert forall|k: int| 0 <= k < neighbors.len() implies #[trigger] neighbors[k]
            < visited.len() by {
            assert(links[current as int][k] < links.len());
        }
        lemma_stack_neighbors(neighbors, neighbors.len() as int, visited, below);
        lemma_stack_neighbors_measure(neighbors, neighbors.len() as int, visited, below);
        assert forall|u: usize, k: int|
            u < links.len() && mid[u as int] && !stacked.contains(u) && 0 <= k
                < links[u as int].len() implies mid[#[trigger] links[u as int][k] as int] by {
            if u == current {
                assert(mid[neighbors[k] as int]);
            } else if visited[u as int] {
                assert(!stack.contains(u)) by {
                    if stack.contains(u) {
                        assert(below.contains(u));
                    }
                }
                assert(visited[links[u as int][k] as int]);
                let w = links[u as int][k];
                assert(mid[w as int]);
            }
        }
        lemma_walk(links, mid, stacked);
        let rest = walk(links, mid, stacked).0;
        assert(component =~= seq![current] + rest);
        assert(!rest.contains(current)) by {
            if rest.contains(current) {
                assert(stacked.contains(current));
            }
        }
        assert forall|u: usize| component.contains(u) <==> u == current || rest.contains(u) by {
            if u == current {
                assert(component[0] == u);
            }
            if rest.contains(u) {
                let k = choose|k: int| 0 <= k < rest.len() && rest[k] == u;
                assert(component[k + 1] == u);
            }
            if component.contains(u) && u != current {
                let k = choose|k: int| 0 <= k < component.len() && component[k] == u;
                assert(rest[k - 1] == u);
            }
        }
        assert forall|u: usize| stack.contains(u) implies #[trigger] component.contains(u) by {
            if u != current {
                assert(below.contains(u));
                assert(stacked.contains(u));
                assert(rest.contains(u));
            }
        }
        assert(component.no_duplicates()) by {
            assert forall|a: int, b: int|
                0 <= a < component.len() && 0 <= b < component.len() && a != b implies component[a]
                != component[b] by {
                if a > 0 && b > 0 {
                    assert(component[a] == rest[a - 1]);
                    assert(component[b] == rest[b - 1]);
                } else if a == 0 {
                    assert(component[b] == rest[b - 1]);
                    assert(rest.contains(component[b]));
                } else {
                    assert(component[a] == rest[a - 1]);
                    assert(rest.contains(component[a]));
                }
            }
        }
        assert forall|u: usize| #[trigger] component.contains(u) implies u < links.len() && (
        stack.contains(u) || !visited[u as int]) by {
            if u != current {
                assert(rest.contains(u));
                if stacked.contains(u) && !below.contains(u) {
                    assert(!visited[u as int]);
                } else if !stacked.contains(u) {
                    assert(!mid[u as int]);
                }
            }
        }
        assert forall|u: usize| u < links.len() implies (#[trigger] marked[u as int] <==> visited[u as int]
            || component.contains(u)) by {
            assert(marked[u as int] <==> mid[u as int] || rest.contains(u));
            if mid[u as int] && !visited[u as int] {
                assert(stacked.contains(u));
                assert(rest.contains(u));
            }
        }
        assert forall|u: usize| #[trigger] component.contains(u) implies exists|s: usize|
            stack.contains(s) && #[trigger] connected(links, s, u) by {
            if u == current {
                lemma_connected_self(links, current);
            } else {
                assert(rest.contains(u));
                let s = choose|s: usize| stacked.contains(s) && #[trigger] connected(links, s, u);
                if below.contains(s) {
                    assert(stack.contains(s));
                } else {
                    assert(neighbors.contains(s));
                    lemma_connected_extend(links, current, s, u);
                }
            }
        }
    }
}

proof fn lemma_of_kind(component: Seq<usize>, is_hole: Seq<bool>, wanted: bool, count: int)
    requires
        0 <= count <= component.len(),
        component.no_duplicates(),
    ensures
        forall|u: usize| #[trigger]
            of_kind(component, is_hole, wanted, count).contains(u) <==> (is_hole[u as int] == wanted
                && component.take(count).contains(u)),
        of_kind(component, is_hole, wanted, count).no_duplicates(),
    decreases count,
{
    if count > 0 {
        lemma_of_kind(component, is_hole, wanted, count - 1);
        let before = of_kind(component, is_hole, wanted, count - 1);
        let all = of_kind(component, is_hole, wanted, count);
        let last = component[count - 1];
        assert(!component.take(count - 1).contains(last));
        assert forall|u: usize| #[trigger]
            all.contains(u) <==> (is_hole[u as int] == wanted && component.take(count).contains(
                u,
            )) by {
            assert(component.take(count).contains(u) <==> component.take(count - 1).contains(u) || u
                == last) by {
                if component.take(count).contains(u) {
                    let longer = component.take(count);
                    let k = choose|k: int| 0 <= k < longer.len() && longer[k] == u;
                    if k < count - 1 {
                        assert(component.take(count - 1)[k] == u);
                    }
                }
                if component.take(count - 1).contains(u) {
                    let shorter = component.take(count - 1);
                    let k = choose|k: int| 0 <= k < shorter.len() && shorter[k] == u;
                    assert(component.take(count)[k] == u);
                }
                assert(component.take(count)[count - 1] == last);
            }
            assert(before.contains(u) <==> (is_hole[u as int] == wanted && component.take(
                count - 1,
            ).contains(u)));
            if is_hole[last as int] == wanted {
                assert(all == before.push(last));
                if before.contains(u) {
                    let k = choose|k: int| 0 <= k < before.len() && before[k] == u;
                    assert(all[k] == u);
                }
                assert(all.last() == last);
                if all.contains(u) {
                    let k = choose|k: int| 0 <= k < all.len() && all[k] == u;
                    if k < before.len() {
                        assert(before[k] == u);
                    }
                }
            }
        }
        if is_hole[last as int] == wanted {
            assert(!before.contains(last));
        }
    } else {
        assert(component.take(count) =~= Seq::<usize>::empty());
    }
}

proof fn lemma_outlines_first(component: Seq<usize>, is_hole: Seq<bool>)
    requires
        component.no_duplicates(),
    ensures
        outlines_first(component, is_hole).no_duplicates(),
        forall|u: usize| #[trigger]
            outlines_first(component, is_hole).contains(u) <==> component.contains(u),
{
    let n = component.len() as int;
    lemma_of_kind(component, is_hole, false, n);
    lemma_of_kind(component, is_hole, true, n);
    assert(component.take(n) =~= component);
    let outlines = of_kind(component, is_hole, false, n);
    let holes = of_kind(component, is_hole, true, n);
    let all = outlines_first(component, is_hole);
    assert forall|u: usize| #[trigger] all.contains(u) <==> component.contains(u) by {
        assert(outlines.contains(u) <==> !is_hole[u as int] && component.take(n).contains(u));
        assert(holes.contains(u) <==> is_hole[u as int] && component.take(n).contains(u));
        if all.contains(u) {
            let k = choose|k: int| 0 <= k < all.len() && all[k] == u;
            if k < outlines.len() {
                assert(outlines[k] == u);
            } else {
                assert(holes[k - outlines.len()] == u);
            }
        }
        if outlines.contains(u) {
            let k = choose|k: int| 0 <= k < outlines.len() && outlines[k] == u;
            assert(all[k] == u);
        }
        if holes.contains(u) {
            let k = choose|k: int| 0 <= k < holes.len() && holes[k] == u;
            assert(all[outlines.len() + k] == u);
        }
    }
    assert forall|a: int, b: int|
        0 <= a < all.len() && 0 <= b < all.len() && a != b implies all[a] != all[b] by {
        let m = outlines.len();
        if a < m && b >= m {
            assert(outlines.contains(all[a]));
            assert(holes.contains(all[b]));
            assert(component.take(n).contains(all[a]));
            assert(component.take(n).contains(all[b]));
        } else if a >= m && b < m {
            assert(outlines.contains(all[b]));
            assert(holes.contains(all[a]));
            assert(component.take(n).contains(all[a]));
            assert(component.take(n).contains(all[b]));
        }
    }
}

/// Whether some group holds curve `i`.
pub open spec fn is_grouped(groups: Seq<Seq<usize>>, i: usize) -> bool {
    exists|g: int| 0 <= g < groups.len() && (#[trigger] groups[g]).contains(i)
}

spec fn links_cross(links: Seq<Seq<usize>>, is_hole: Seq<bool>) -> bool {
    forall|i: int, k: int|
        0 <= i < links.len() && 0 <= k < links[i].len() ==> is_hole[#[trigger] links[i][k] as int]
            != is_hole[i]
}

/// What holds of the groups found so far: they hold the marked curves, once each,
/// and each is one connected component.
spec fn groups_hold(links: Seq<Seq<usize>>, groups: Seq<Seq<usize>>, visited: Seq<bool>) -> bool {
    &&& visited.len() == links.len()
    &&& marks_closed(links, visited)
    &&& forall|i: usize|
        i < links.len() && #[trigger] visited[i as int] ==> links[i as int].len() > 0
    &&& forall|i: usize|
        i < links.len() ==> (#[trigger] visited[i as int] <==> is_grouped(groups, i))
    &&& forall|g: int, i: usize|
        0 <= g < groups.len() && #[trigger] groups[g].contains(i) ==> i < links.len()
    &&& forall|g: int| 0 <= g < groups.len() ==> (#[trigger] groups[g]).no_duplicates()
    &&& forall|g: int, h: int, i: usize|
        0 <= g < groups.len() && 0 <= h < groups.len() && #[trigger] groups[g].contains(i)
            && #[trigger] groups[h].contains(i) ==> g == h
    &&& forall|g: int, i: usize, j: usize|
        0 <= g < groups.len() && #[trigger] groups[g].contains(i) && #[trigger] groups[g].contains(
            j,
        ) ==> connected(links, i, j)
    &&& forall|g: int, i: usize, k: int|
        0 <= g < groups.len() && groups[g].contains(i) && 0 <= k < links[i as int].len()
            ==> #[trigger] groups[g].contains(#[trigger] links[i as int][k])
}

/// A walk from an unmarked curve that touches something reaches a whole component.
proof fn lemma_component(
    links: Seq<Seq<usize>>,
    is_hole: Seq<bool>,
    visited: Seq<bool>,
    start: usize,
)
    requires
        links_in_bounds(links),
        links_both_ways(links),
        links_cross(links, is_hole),
        links.len() <= usize::MAX,
        visited.len() == links.len(),
        marks_closed(links, visited),
        start < links.len(),
        !visited[start as int],
        links[start as int].len() > 0,
    ensures
        ({
            let (component, marked) = walk(
                links,
                visited.update(start as int, true),
                seq![start],
            );
            &&& marked.len() == links.len()
            &&& marks_closed(links, marked)
            &&& component.no_duplicates()
            &&& forall|u: usize|
                u < links.len() ==> (#[trigger] marked[u as int] <==> visited[u as int]
                    || component.contains(u))
            &&& forall|u: usize| #[trigger]
                component.contains(u) ==> u < links.len() && !visited[u as int]
                    && links[u as int].len() > 0 && connected(links, start, u)
            &&& forall|u: usize, k: int|
                component.contains(u) && 0 <= k < links[u as int].len() ==> component.contains(
                    #[trigger] links[u as int][k],
                )
            &&& holds_both_kinds(component, is_hole)
        }),
{
    let first = visited.update(start as int, true);
    let stack = seq![start];
    assert(stack[0] == start);
    assert(stack.contains(start));
    assert forall|u: usize, k: int|
        u < links.len() && first[u as int] && !stack.contains(u) && 0 <= k
            < links[u as int].len() implies first[#[trigger] links[u as int][k] as int] by {
        assert(visited[u as int]);
        let i = u as int;
        assert(visited[links[i][k] as int]);
    }
    lemma_walk(links, first, stack);
    let (component, marked) = walk(links, first, stack);
    assert(component.contains(start));
    assert forall|u: usize| #[trigger] component.contains(u) implies u < links.len()
        && !visited[u as int] && links[u as int].len() > 0 && connected(links, start, u) by {
        if stack.contains(u) {
            assert(u == start);
        }
        let s = choose|s: usize| stack.contains(s) && #[trigger] connected(links, s, u);
        assert(s == start);
        if u != start {
            let path = choose|path: Seq<usize>| is_chain_between(links, path, start, u);
            let k = path.len() - 2;
            assert(links[path[k] as int].contains(path[k + 1]));
            assert(links[u as int].contains(path[k]));
        }
    }
    assert forall|u: usize, k: int|
        component.contains(u) && 0 <= k < links[u as int].len() implies component.contains(
        #[trigger] links[u as int][k],
    ) by {
        let w = links[u as int][k];
        let i = u as int;
        assert(marked[u as int]);
        assert(marked[links[i][k] as int]);
        assert(links[u as int].contains(w));
        if visited[w as int] {
            assert(links[w as int].contains(u));
            let m = choose|m: int| 0 <= m < links[w as int].len() && links[w as int][m] == u;
            assert(visited[links[w as int][m] as int]);
        }
    }
    let w = links[start as int][0];
    assert(component.contains(w));
    let n = component.len() as int;
    lemma_of_kind(component, is_hole, false, n);
    lemma_of_kind(component, is_hole, true, n);
    assert(component.take(n) =~= component);
    assert(component.take(n).contains(start));
    assert(component.take(n).contains(w));
    assert(is_hole[w as int] != is_hole[start as int]);
    assert(of_kind(component, is_hole, is_hole[start as int], n).contains(start));
    assert(of_kind(component, is_hole, is_hole[w as int], n).contains(w));
}

proof fn lemma_grouping(links: Seq<Seq<usize>>, is_hole: Seq<bool>, end: int)
    requires
        links_in_bounds(links),
        links_both_ways(links),
        links_cross(links, is_hole),
        0 <= end <= links.len() <= usize::MAX,
    ensures
        groups_hold(
            links,
            grouping(links, is_hole, end).0,
            grouping(links, is_hole, end).1,
        ),
        forall|i: int|
            0 <= i < end && (#[trigger] links[i]).len() > 0 ==> grouping(links, is_hole, end).1[i],
    decreases end,
{
    if end > 0 {
        lemma_grouping(links, is_hole, end - 1);
        let (groups, visited) = grouping(links, is_hole, end - 1);
        let start = (end - 1) as usize;
        if !visited[start as int] && links[start as int].len() > 0 {
            lemma_component(links, is_hole, visited, start);
            let (component, marked) = walk(
                links,
                visited.update(start as int, true),
                seq![start],
            );
            let group = outlines_first(component, is_hole);
            lemma_outlines_first(component, is_hole);
            let more = groups.push(group);
            assert(grouping(links, is_hole, end) == (more, marked));
            let last = groups.len() as int;
            assert(more[last] == group);
            assert forall|i: usize|
                i < links.len() implies (#[trigger] marked[i as int] <==> is_grouped(more, i)) by {
                assert(visited[i as int] <==> is_grouped(groups, i));
                if visited[i as int] {
                    let g = choose|g: int|
                        0 <= g < groups.len() && (#[trigger] groups[g]).contains(i);
                    assert(more[g] == groups[g]);
                }
                if component.contains(i) {
                    assert(group.contains(i));
                    assert(more[last].contains(i));
                }
                if is_grouped(more, i) {
                    let g = choose|g: int| 0 <= g < more.len() && (#[trigger] more[g]).contains(i);
                    if g < last {
                        assert(groups[g].contains(i));
                    } else {
                        assert(group.contains(i));
                    }
                }
            }
            assert forall|g: int, i: usize|
                0 <= g < more.len() && #[trigger] more[g].contains(i) implies i < links.len()
                && marked[i as int] && (g < last ==> visited[i as int]) && (g == last
                ==> component.contains(i)) by {
                if g < last {
                    assert(groups[g].contains(i));
                    assert(is_grouped(groups, i));
                    assert(visited[i as int]);
                } else {
                    assert(group.contains(i));
                    assert(component.contains(i));
                }
            }
            assert forall|g: int, h: int, i: usize|
                0 <= g < more.len() && 0 <= h < more.len() && #[trigger] more[g].contains(i)
                    && #[trigger] more[h].contains(i) implies g == h by {
                if g < last && h < last {
                    assert(groups[g].contains(i) && groups[h].contains(i));
                }
            }
            assert forall|g: int, i: usize, j: usize|
                0 <= g < more.len() && #[trigger] more[g].contains(i) && #[trigger] more[g].contains(
                    j,
                ) implies connected(links, i, j) by {
                if g < last {
                    assert(groups[g].contains(i) && groups[g].contains(j));
                } else {
                    assert(component.contains(i) && component.contains(j));
                    lemma_connected_back(links, start, i);
                    lemma_connected_through(links, i, start, j);
                }
            }
            assert forall|g: int, i: usize, k: int|
                0 <= g < more.len() && more[g].contains(i) && 0 <= k
                    < links[i as int].len() implies #[trigger] more[g].contains(
                #[trigger] links[i as int][k],
            ) by {
                if g < last {
                    assert(groups[g].contains(i));
                    assert(groups[g].contains(links[i as int][k]));
                } else {
                    assert(component.contains(links[i as int][k]));
                    assert(group.contains(links[i as int][k]));
                }
            }
            assert forall|i: int|
                0 <= i < end && (#[trigger] links[i]).len() > 0 implies marked[i] by {
                let u = i as usize;
                if i < end - 1 {
                    assert(visited[i]);
                    assert(marked[u as int]);
                } else {
                    assert(component[0] == start);
                    assert(component.contains(start));
                    assert(marked[start as int]);
                }
            }
        } else {
            assert(grouping(links, is_hole, end) == (groups, visited));
        }
    } else {
        let (groups, visited) = grouping(links, is_hole, end);
        assert forall|i: usize| i < links.len() implies (#[trigger] visited[i as int]
            <==> is_grouped(groups, i)) by {}
    }
}

/// A curve has a partner exactly if some tested pair touches.
proof fn lemma_any_link(is_hole: Seq<bool>, touching: Seq<bool>)
    requires
        is_hole.len() <= usize::MAX,
        touching.len() == spec_contact_pairs(is_hole).len(),
    ensures
        (exists|c: int| 0 <= c < touching.len() && touching[c]) <==> (exists|k: int|
            0 <= k < is_hole.len() && (#[trigger] spec_links(is_hole, touching)[k]).len() > 0),
{
    lemma_pairs_are_outline_and_hole(is_hole);
    lemma_links(is_hole, touching);
    let pairs = spec_contact_pairs(is_hole);
    let count = pairs.len() as int;
    let links = spec_links(is_hole, touching);
    if exists|c: int| 0 <= c < touching.len() && touching[c] {
        let c = choose|c: int| 0 <= c < touching.len() && touching[c];
        let (i, j) = pairs[c];
        lemma_partners(pairs, touching, count, i);
        assert(joins(pairs[c], i, j));
        assert(touch(pairs, touching, count, i, j));
        assert(links[i as int].contains(j));
    }
    if exists|k: int| 0 <= k < is_hole.len() && (#[trigger] links[k]).len() > 0 {
        let k = choose|k: int| 0 <= k < is_hole.len() && (#[trigger] links[k]).len() > 0;
        lemma_partners(pairs, touching, count, k as usize);
        assert(links[k].contains(links[k][0]));
        assert(touch(pairs, touching, count, k as usize, links[k][0]));
    }
}

proof fn lemma_merge_groups(is_hole: Seq<bool>, touching: Seq<bool>)
    requires
        is_hole.len() <= usize::MAX,
    ensures
        links_in_bounds(spec_links(is_hole, touching)),
        links_both_ways(spec_links(is_hole, touching)),
        links_cross(spec_links(is_hole, touching), is_hole),
        groups_hold(
            spec_links(is_hole, touching),
            merge_groups(is_hole, touching),
            grouping(spec_links(is_hole, touching), is_hole, is_hole.len() as int).1,
        ),
        forall|i: int|
            0 <= i < is_hole.len() && (#[trigger] spec_links(is_hole, touching)[i]).len() > 0
                ==> grouping(spec_links(is_hole, touching), is_hole, is_hole.len() as int).1[i],
{
    lemma_links(is_hole, touching);
    let links = spec_links(is_hole, touching);
    assert(links_in_bounds(links));
    assert(links_cross(links, is_hole));
    lemma_grouping(links, is_hole, is_hole.len() as int);
}

/// Exactly the curves that touch another one are in a group, so a selection in which
/// something touches is never left without a group.
pub proof fn law_touching_curves_are_grouped(is_hole: Seq<bool>, touching: Seq<bool>)
    requires
        is_hole.len() <= usize::MAX,
        touching.len() == spec_contact_pairs(is_hole).len(),
    ensures
        forall|i: usize|
            i < is_hole.len() ==> (is_grouped(merge_groups(is_hole, touching), i)
                <==> #[trigger] spec_links(is_hole, touching)[i as int].len() > 0),
        (exists|c: int| 0 <= c < touching.len() && touching[c]) ==> merge_groups(
            is_hole,
            touching,
        ).len() > 0,
{
    lemma_merge_groups(is_hole, touching);
    lemma_any_link(is_hole, touching);
    lemma_links(is_hole, touching);
    let links = spec_links(is_hole, touching);
    let groups = merge_groups(is_hole, touching);
    let visited = grouping(links, is_hole, is_hole.len() as int).1;
    assert forall|i: usize| i < is_hole.len() implies (is_grouped(groups, i) <==> #[trigger] links[i as int].len()
        > 0) by {
        assert(visited[i as int] <==> is_grouped(groups, i));
    }
    if exists|c: int| 0 <= c < touching.len() && touching[c] {
        let k = choose|k: int| 0 <= k < is_hole.len() && (#[trigger] links[k]).len() > 0;
        let i = k as usize;
        assert(links[i as int].len() > 0);
        assert(is_grouped(groups, i));
    }
}

/// The groups are the connected components: no curve is in two groups or twice in
/// one, and two curves share a group exactly if a chain of touching curves leads from
/// one to the other.
pub proof fn law_groups_are_components(is_hole: Seq<bool>, touching: Seq<bool>)
    requires
        is_hole.len() <= usize::MAX,
    ensures
        forall|g: int, i: usize|
            0 <= g < merge_groups(is_hole, touching).len() && #[trigger] merge_groups(
                is_hole,
                touching,
            )[g].contains(i) ==> i < is_hole.len(),
        forall|g: int|
            0 <= g < merge_groups(is_hole, touching).len() ==> (#[trigger] merge_groups(
                is_hole,
                touching,
            )[g]).no_duplicates(),
        forall|g: int, h: int, i: usize|
            0 <= g < merge_groups(is_hole, touching).len() && 0 <= h < merge_groups(
                is_hole,
                touching,
            ).len() && #[trigger] merge_groups(is_hole, touching)[g].contains(i)
                && #[trigger] merge_groups(is_hole, touching)[h].contains(i) ==> g == h,
        forall|g: int, i: usize, j: usize|
            0 <= g < merge_groups(is_hole, touching).len() && #[trigger] merge_groups(
                is_hole,
                touching,
            )[g].contains(i) ==> (#[trigger] connected(spec_links(is_hole, touching), i, j)
                <==> merge_groups(is_hole, touching)[g].contains(j)),
{
    lemma_merge_groups(is_hole, touching);
    lemma_links(is_hole, touching);
    let links = spec_links(is_hole, touching);
    let groups = merge_groups(is_hole, touching);
    assert forall|g: int, i: usize, j: usize|
        0 <= g < groups.len() && #[trigger] groups[g].contains(i) implies (#[trigger] connected(
        links,
        i,
        j,
    ) <==> groups[g].contains(j)) by {
        if connected(links, i, j) {
            let path = choose|path: Seq<usize>| is_chain_between(links, path, i, j);
            lemma_group_follows_chain(links, groups[g], path, path.len() - 1);
        }
    }
}

proof fn lemma_group_follows_chain(
    links: Seq<Seq<usize>>,
    group: Seq<usize>,
    path: Seq<usize>,
    k: int,
)
    requires
        is_chain(links, path),
        group.contains(path[0]),
        0 <= k < path.len(),
        forall|i: usize, m: int|
            group.contains(i) && 0 <= m < links[i as int].len() ==> group.contains(
                #[trigger] links[i as int][m],
            ),
    ensures
        group.contains(path[k]),
    decreases k,
{
    if k > 0 {
        lemma_group_follows_chain(links, group, path, k - 1);
        let from = path[k - 1];
        assert(links[path[k - 1] as int].contains(path[k - 1 + 1]));
        let m = choose|m: int| 0 <= m < links[from as int].len() && links[from as int][m] == path[k];
        assert(group.contains(links[from as int][m]));
    }
}

/// The base of every weld is an outline, all outlines of a group come before its
/// holes, and the group ends with a hole.
pub proof fn law_a_group_is_outlines_and_holes(is_hole: Seq<bool>, touching: Seq<bool>, g: int)
    requires
        is_hole.len() <= usize::MAX,
        0 <= g < merge_groups(is_hole, touching).len(),
    ensures
        merge_groups(is_hole, touching)[g].len() >= 2,
        !is_hole[merge_groups(is_hole, touching)[g][0] as int],
        is_hole[merge_groups(is_hole, touching)[g].last() as int],
        forall|a: int, b: int|
            0 <= a < b < merge_groups(is_hole, touching)[g].len()
                && is_hole[#[trigger] merge_groups(is_hole, touching)[g][a] as int]
                ==> is_hole[#[trigger] merge_groups(is_hole, touching)[g][b] as int],
{
    lemma_group_kinds(spec_links(is_hole, touching), is_hole, is_hole.len() as int, g);
}

proof fn lemma_kind(component: Seq<usize>, is_hole: Seq<bool>, wanted: bool, count: int)
    ensures
        forall|k: int|
            0 <= k < of_kind(component, is_hole, wanted, count).len() ==> is_hole[#[trigger] of_kind(
                component,
                is_hole,
                wanted,
                count,
            )[k] as int] == wanted,
    decreases count,
{
    if count > 0 {
        lemma_kind(component, is_hole, wanted, count - 1);
        let before = of_kind(component, is_hole, wanted, count - 1);
        let all = of_kind(component, is_hole, wanted, count);
        assert forall|k: int| 0 <= k < all.len() implies is_hole[#[trigger] all[k] as int]
            == wanted by {
            if k < before.len() {
                assert(all[k] == before[k]);
            }
        }
    }
}

proof fn lemma_group_kinds(links: Seq<Seq<usize>>, is_hole: Seq<bool>, end: int, g: int)
    requires
        0 <= g < grouping(links, is_hole, end).0.len(),
    ensures
        grouping(links, is_hole, end).0[g].len() >= 2,
        !is_hole[grouping(links, is_hole, end).0[g][0] as int],
        is_hole[grouping(links, is_hole, end).0[g].last() as int],
        forall|a: int, b: int|
            0 <= a < b < grouping(links, is_hole, end).0[g].len() && is_hole[#[trigger] grouping(
                links,
                is_hole,
                end,
            ).0[g][a] as int] ==> is_hole[#[trigger] grouping(links, is_hole, end).0[g][b] as int],
    decreases end,
{
    if end > 0 {
        let (groups, visited) = grouping(links, is_hole, end - 1);
        if g < groups.len() {
            lemma_group_kinds(links, is_hole, end - 1, g);
        } else {
            let component = walk(
                links,
                visited.update(end - 1, true),
                seq![(end - 1) as usize],
            ).0;
            lemma_kind(component, is_hole, false, component.len() as int);
            lemma_kind(component, is_hole, true, component.len() as int);
            let outlines = of_kind(component, is_hole, false, component.len() as int);
            let holes = of_kind(component, is_hole, true, component.len() as int);
            let group = outlines_first(component, is_hole);
            assert(group[0] == outlines[0]);
            assert(group.last() == holes.last());
        }
    }
}

/// The holes that stay as they are, counted by [`untouched_holes`], are those that no
/// group holds.
pub proof fn law_untouched_holes_are_in_no_group(is_hole: Seq<bool>, touching: Seq<bool>, end: int)
    requires
        is_hole.len() <= usize::MAX,
        touching.len() == spec_contact_pairs(is_hole).len(),
        0 <= end <= is_hole.len(),
    ensures
        untouched_holes(spec_links(is_hole, touching), is_hole, end) == ungrouped_holes(
            merge_groups(is_hole, touching),
            is_hole,
            end,
        ),
    decreases end,
{
    if end > 0 {
        law_untouched_holes_are_in_no_group(is_hole, touching, end - 1);
        law_touching_curves_are_grouped(is_hole, touching);
        let i = (end - 1) as usize;
        assert(is_grouped(merge_groups(is_hole, touching), i) <==> spec_links(
            is_hole,
            touching,
        )[i as int].len() > 0);
    }
}

/// How many of the first `end` curves are holes that no group holds.
pub open spec fn ungrouped_holes(groups: Seq<Seq<usize>>, is_hole: Seq<bool>, end: int) -> nat
    decreases end,
{
    if end <= 0 {
        0
    } else {
        ungrouped_holes(groups, is_hole, end - 1) + if is_hole[end - 1] && !is_grouped(
            groups,
            (end - 1) as usize,
        ) {
            1nat
        } else {
            0nat
        }
    }
}

// ---------------------------------------------------------------------------
// What is tested and what is merged
// ---------------------------------------------------------------------------

proof fn lemma_indexes(is_hole: Seq<bool>, wanted: bool, end: int)
    requires
        0 <= end <= is_hole.len() <= usize::MAX,
    ensures
        forall|i: usize| #[trigger]
            indexes_of(is_hole, wanted, end).contains(i) <==> i < end && is_hole[i as int] == wanted,
        indexes_of(is_hole, wanted, end).no_duplicates(),
    decreases end,
{
    if end > 0 {
        lemma_indexes(is_hole, wanted, end - 1);
        let before = indexes_of(is_hole, wanted, end - 1);
        let all = indexes_of(is_hole, wanted, end);
        assert forall|i: usize| #[trigger] all.contains(i) <==> i < end && is_hole[i as int]
            == wanted by {
            if before.contains(i) {
                let k = choose|k: int| 0 <= k < before.len() && before[k] == i;
                assert(all[k] == i);
            }
            if i == end - 1 && is_hole[i as int] == wanted {
                assert(all[before.len() as int] == i);
            }
            if all.contains(i) {
                let k = choose|k: int| 0 <= k < all.len() && all[k] == i;
                if k < before.len() {
                    assert(before.contains(before[k]));
                }
            }
        }
        assert forall|a: int, b: int| 0 <= a < all.len() && 0 <= b < all.len() && a != b implies all[a]
            != all[b] by {
            if a < before.len() {
                assert(before.contains(before[a]));
            }
            if b < before.len() {
                assert(before.contains(before[b]));
            }
        }
    }
}

proof fn lemma_all_pairs(firsts: Seq<usize>, seconds: Seq<usize>, count: int)
    requires
        0 <= count <= firsts.len(),
        firsts.no_duplicates(),
        seconds.no_duplicates(),
    ensures
        forall|i: usize, j: usize| #[trigger]
            all_pairs(firsts, seconds, count).contains((i, j)) <==> firsts.take(count).contains(i)
                && seconds.contains(j),
        all_pairs(firsts, seconds, count).no_duplicates(),
    decreases count,
{
    if count > 0 {
        lemma_all_pairs(firsts, seconds, count - 1);
        let before = all_pairs(firsts, seconds, count - 1);
        let last = pairs_with(firsts[count - 1], seconds);
        let all = all_pairs(firsts, seconds, count);
        let start = before.len() as int;
        assert forall|i: usize, j: usize| #[trigger]
            all.contains((i, j)) <==> firsts.take(count).contains(i) && seconds.contains(j) by {
            if all.contains((i, j)) {
                let k = choose|k: int| 0 <= k < all.len() && all[k] == (i, j);
                if k < start {
                    assert(before[k] == (i, j));
                    assert(before.contains((i, j)));
                    let m = choose|m: int|
                        0 <= m < count - 1 && #[trigger] firsts.take(count - 1)[m] == i;
                    assert(firsts.take(count)[m] == i);
                } else {
                    assert(last[k - start] == (i, j));
                    assert(seconds[k - start] == j);
                    assert(firsts.take(count)[count - 1] == i);
                }
            }
            if firsts.take(count).contains(i) && seconds.contains(j) {
                let m = choose|m: int| 0 <= m < count && #[trigger] firsts.take(count)[m] == i;
                if m < count - 1 {
                    assert(firsts.take(count - 1)[m] == i);
                    assert(before.contains((i, j)));
                    let k = choose|k: int| 0 <= k < before.len() && before[k] == (i, j);
                    assert(all[k] == (i, j));
                } else {
                    let k = choose|k: int| 0 <= k < seconds.len() && seconds[k] == j;
                    assert(all[start + k] == last[k]);
                }
            }
        }
        assert forall|a: int, b: int| 0 <= a < all.len() && 0 <= b < all.len() && a != b implies all[a]
            != all[b] by {
            if a < start && b < start {
                assert(before[a] != before[b]);
            } else if a >= start && b >= start {
                assert(seconds[a - start] != seconds[b - start]);
            } else {
                let early = if a < start {
                    a
                } else {
                    b
                };
                let pair = before[early];
                assert(before.contains((pair.0, pair.1)));
                let m = choose|m: int|
                    0 <= m < count - 1 && #[trigger] firsts.take(count - 1)[m] == pair.0;
                assert(firsts[m] != firsts[count - 1]);
            }
        }
    }
}

/// Every outline is tested against every keyhole, once, and nothing else is tested.
pub proof fn law_every_outline_is_tested_against_every_keyhole(is_hole: Seq<bool>)
    requires
        is_hole.len() <= usize::MAX,
    ensures
        forall|i: usize, j: usize| #[trigger]
            spec_contact_pairs(is_hole).contains((i, j)) <==> i < is_hole.len() && j
                < is_hole.len() && !is_hole[i as int] && is_hole[j as int],
        spec_contact_pairs(is_hole).no_duplicates(),
{
    let n = is_hole.len() as int;
    lemma_indexes(is_hole, false, n);
    lemma_indexes(is_hole, true, n);
    let outlines = indexes_of(is_hole, false, n);
    let holes = indexes_of(is_hole, true, n);
    lemma_all_pairs(outlines, holes, outlines.len() as int);
    assert(outlines.take(outlines.len() as int) =~= outlines);
}

/// An outline and a keyhole that touch are merged into one curve.
pub proof fn law_what_touches_is_merged(is_hole: Seq<bool>, touching: Seq<bool>, c: int)
    requires
        is_hole.len() <= usize::MAX,
        touching.len() == spec_contact_pairs(is_hole).len(),
        0 <= c < touching.len(),
        touching[c],
    ensures
        ({
            let (outline, hole) = spec_contact_pairs(is_hole)[c];
            exists|g: int|
                0 <= g < merge_groups(is_hole, touching).len() && (#[trigger] merge_groups(
                    is_hole,
                    touching,
                )[g]).contains(outline) && merge_groups(is_hole, touching)[g].contains(hole)
        }),
{
    let pairs = spec_contact_pairs(is_hole);
    let (outline, hole) = pairs[c];
    let links = spec_links(is_hole, touching);
    let groups = merge_groups(is_hole, touching);
    lemma_pairs_are_outline_and_hole(is_hole);
    lemma_links(is_hole, touching);
    lemma_partners(pairs, touching, pairs.len() as int, outline);
    assert(joins(pairs[c], outline, hole));
    assert(touch(pairs, touching, pairs.len() as int, outline, hole));
    assert(links[outline as int].contains(hole));
    law_touching_curves_are_grouped(is_hole, touching);
    assert(links[outline as int].len() > 0);
    assert(is_grouped(groups, outline));
    let g = choose|g: int| 0 <= g < groups.len() && (#[trigger] groups[g]).contains(outline);
    law_groups_are_components(is_hole, touching);
    let path = seq![outline, hole];
    assert(links[path[0] as int].contains(path[1]));
    assert(is_chain(links, path));
    assert(is_chain_between(links, path, outline, hole));
    assert(connected(links, outline, hole));
    assert(groups[g].contains(hole));
}

/// Curves are linked exactly where they touch: an outline with a keyhole for which it was found
/// that they do.
pub proof fn law_links_are_contacts(
    is_hole: Seq<bool>,
    touching: Seq<bool>,
    i: usize,
    j: usize,
)
    requires
        is_hole.len() <= usize::MAX,
        touching.len() == spec_contact_pairs(is_hole).len(),
        i < is_hole.len(),
    ensures
        spec_links(is_hole, touching)[i as int].contains(j) <==> exists|c: int|
            #![trigger touching[c]]
            0 <= c < touching.len() && touching[c] && (spec_contact_pairs(is_hole)[c] == (i, j)
                || spec_contact_pairs(is_hole)[c] == (j, i)),
{
    let pairs = spec_contact_pairs(is_hole);
    lemma_pairs_are_outline_and_hole(is_hole);
    lemma_partners(pairs, touching, pairs.len() as int, i);
    let count = pairs.len() as int;
    assert(spec_links(is_hole, touching)[i as int].contains(j) <==> touch(
        pairs,
        touching,
        count,
        i,
        j,
    ));
    if exists|c: int|
        #![trigger touching[c]]
        0 <= c < touching.len() && touching[c] && (pairs[c] == (i, j) || pairs[c] == (j, i)) {
        let c = choose|c: int|
            #![trigger touching[c]]
            0 <= c < touching.len() && touching[c] && (pairs[c] == (i, j) || pairs[c] == (j, i));
        assert(joins(pairs[c], i, j));
    }
}

} // verus!
