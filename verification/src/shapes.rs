//! The objects of a page, which may hold each other, and the bitmaps among them.

use vstd::prelude::*;

use crate::selection::{search_shape, spec_search_shape, SearchStep};
use crate::svg_export::{spec_visit_shape, visit_shape, ExportError, ShapeVisit};

verus! {

/// An object of a page.
#[derive(Debug)]
pub struct ShapeNode {
    /// A number by which the object is found again.
    pub handle: usize,
    pub shape_type: i32,
    pub static_id: i32,
    pub name: String,
    pub visible: bool,
    pub printable: bool,
    pub effect_count: i32,
    pub transparency_type: i32,
    /// What a group or a curve holds.
    pub children: Vec<ShapeNode>,
    /// What a group or a curve clips.
    pub clipped: Vec<ShapeNode>,
}

// ---------------------------------------------------------------------------
// One bitmap
// ---------------------------------------------------------------------------

/// The bitmap with that number: the object itself, or the first in what it holds and then
/// in what it clips.
pub open spec fn bitmap_in(node: ShapeNode, wanted: i32) -> Option<usize>
    decreases node, 0int,
{
    match spec_search_shape(node.shape_type, node.static_id, wanted) {
        SearchStep::Found => Some(node.handle),
        SearchStep::Skip => None,
        SearchStep::Descend => match bitmap_among(node.children, wanted, 0) {
            Some(handle) => Some(handle),
            None => bitmap_among(node.clipped, wanted, 0),
        },
    }
}

/// The bitmap with that number: the first in the objects from `from` on.
pub open spec fn bitmap_among(nodes: Vec<ShapeNode>, wanted: i32, from: int) -> Option<usize>
    decreases nodes, nodes@.len() - from,
{
    if 0 <= from < nodes@.len() {
        match bitmap_in(nodes[from], wanted) {
            Some(handle) => Some(handle),
            None => bitmap_among(nodes, wanted, from + 1),
        }
    } else {
        None
    }
}

fn find_in(node: &ShapeNode, wanted: i32) -> (res: Option<usize>)
    ensures
        res == bitmap_in(*node, wanted),
    decreases *node, 0int,
{
    match search_shape(node.shape_type, node.static_id, wanted) {
        SearchStep::Found => Some(node.handle),
        SearchStep::Skip => None,
        SearchStep::Descend => {
            if let Some(handle) = find_bitmap(&node.children, wanted) {
                return Some(handle);
            }
            find_bitmap(&node.clipped, wanted)
        },
    }
}

/// Finds the bitmap with that number among objects and what they hold.
pub fn find_bitmap(nodes: &Vec<ShapeNode>, wanted: i32) -> (res: Option<usize>)
    ensures
        res == bitmap_among(*nodes, wanted, 0),
    decreases *nodes, nodes@.len(),
{
    for i in 0..nodes.len()
        invariant
            bitmap_among(*nodes, wanted, 0) == bitmap_among(*nodes, wanted, i as int),
    {
        if let Some(handle) = find_in(&nodes[i], wanted) {
            return Some(handle);
        }
    }
    None
}

// ---------------------------------------------------------------------------
// All bitmaps
// ---------------------------------------------------------------------------

/// A bitmap that is exported.
#[derive(Debug, Clone, Copy, PartialEq, Eq, Structural)]
pub struct FoundBitmap {
    pub handle: usize,
    pub static_id: i32,
}

/// Whether a bitmap with that number was found.
pub open spec fn is_found(found: Seq<FoundBitmap>, static_id: i32) -> bool {
    exists|i: int| 0 <= i < found.len() && (#[trigger] found[i]).static_id == static_id
}

/// What `found` becomes with the bitmaps of an object, or the name of an object that
/// cannot be exported.
pub open spec fn bitmaps_with(node: ShapeNode, found: Seq<FoundBitmap>) -> Result<
    Seq<FoundBitmap>,
    Seq<char>,
>
    decreases node, 0int,
{
    match spec_visit_shape(
        node.shape_type,
        node.visible,
        node.printable,
        node.effect_count,
        node.transparency_type,
    ) {
        ShapeVisit::Skip => Ok(found),
        ShapeVisit::Unsupported => Err(node.name@),
        ShapeVisit::Bitmap => Ok(
            if is_found(found, node.static_id) {
                found
            } else {
                found.push(FoundBitmap { handle: node.handle, static_id: node.static_id })
            },
        ),
        ShapeVisit::Children => match bitmaps_up_to(
            node.children,
            found,
            node.children@.len() as int,
        ) {
            Ok(more) => bitmaps_up_to(node.clipped, more, node.clipped@.len() as int),
            Err(name) => Err(name),
        },
    }
}

/// What `found` becomes with the bitmaps of the first `end` objects.
pub open spec fn bitmaps_up_to(nodes: Vec<ShapeNode>, found: Seq<FoundBitmap>, end: int) -> Result<
    Seq<FoundBitmap>,
    Seq<char>,
>
    decreases nodes, end,
{
    if 0 < end <= nodes@.len() {
        match bitmaps_up_to(nodes, found, end - 1) {
            Ok(more) => bitmaps_with(nodes[end - 1], more),
            Err(name) => Err(name),
        }
    } else {
        Ok(found)
    }
}

fn holds_id(found: &Vec<FoundBitmap>, static_id: i32) -> (res: bool)
    ensures
        res == is_found(found@, static_id),
{
    for i in 0..found.len()
        invariant
            forall|k: int| 0 <= k < i ==> (#[trigger] found@[k]).static_id != static_id,
    {
        if found[i].static_id == static_id {
            return true;
        }
    }
    false
}

fn collect_in(node: &ShapeNode, found: &mut Vec<FoundBitmap>) -> (res: Result<(), ExportError>)
    ensures
        match res {
            Ok(_) => bitmaps_with(*node, old(found)@) == Ok::<_, Seq<char>>(final(found)@),
            Err(error) => error is UnsupportedEffect && bitmaps_with(*node, old(found)@) == Err::<
                Seq<FoundBitmap>,
                _,
            >(error->UnsupportedEffect_0@),
        },
    decreases *node, 0int,
{
    match visit_shape(
        node.shape_type,
        node.visible,
        node.printable,
        node.effect_count,
        node.transparency_type,
    ) {
        ShapeVisit::Skip => Ok(()),
        ShapeVisit::Unsupported => Err(
            ExportError::UnsupportedEffect(node.name.as_str().to_owned()),
        ),
        ShapeVisit::Bitmap => {
            if !holds_id(found, node.static_id) {
                found.push(FoundBitmap { handle: node.handle, static_id: node.static_id });
            }
            Ok(())
        },
        ShapeVisit::Children => {
            match collect_svg_bitmaps(&node.children, found) {
                Ok(_) => {},
                Err(error) => {
                    return Err(error);
                },
            }
            collect_svg_bitmaps(&node.clipped, found)
        },
    }
}

/// Adds the bitmaps of objects to those that were found, each one once. An object with an
/// effect or a transparency is refused by its name.
pub fn collect_svg_bitmaps(nodes: &Vec<ShapeNode>, found: &mut Vec<FoundBitmap>) -> (res: Result<
    (),
    ExportError,
>)
    ensures
        match res {
            Ok(_) => bitmaps_up_to(*nodes, old(found)@, nodes@.len() as int) == Ok::<_, Seq<char>>(
                final(found)@,
            ),
            Err(error) => error is UnsupportedEffect && bitmaps_up_to(
                *nodes,
                old(found)@,
                nodes@.len() as int,
            ) == Err::<Seq<FoundBitmap>, _>(error->UnsupportedEffect_0@),
        },
    decreases *nodes, nodes@.len(),
{
    let ghost start = found@;
    for i in 0..nodes.len()
        invariant
            start == old(found)@,
            bitmaps_up_to(*nodes, start, i as int) == Ok::<_, Seq<char>>(found@),
    {
        match collect_in(&nodes[i], found) {
            Ok(_) => {},
            Err(error) => {
                proof {
                    lemma_error_stays(*nodes, start, i + 1, nodes@.len() as int);
                }
                return Err(error);
            },
        }
    }
    Ok(())
}

proof fn lemma_error_stays(nodes: Vec<ShapeNode>, found: Seq<FoundBitmap>, from: int, to: int)
    requires
        0 <= from <= to <= nodes@.len(),
        bitmaps_up_to(nodes, found, from) is Err,
    ensures
        bitmaps_up_to(nodes, found, to) == bitmaps_up_to(nodes, found, from),
    decreases to - from,
{
    if from < to {
        lemma_error_stays(nodes, found, from, to - 1);
    }
}

/// Whether no bitmap was found twice.
pub open spec fn are_distinct(found: Seq<FoundBitmap>) -> bool {
    forall|i: int, j: int|
        0 <= i < j < found.len() ==> (#[trigger] found[i]).static_id != (
        #[trigger] found[j]).static_id
}

/// No bitmap is found twice, and none that was found is forgotten: in an object.
pub proof fn law_bitmaps_of_an_object_are_found_once(node: ShapeNode, found: Seq<FoundBitmap>)
    requires
        are_distinct(found),
    ensures
        match bitmaps_with(node, found) {
            Ok(more) => are_distinct(more) && found.is_prefix_of(more),
            Err(_) => true,
        },
    decreases node, 0int,
{
    match spec_visit_shape(
        node.shape_type,
        node.visible,
        node.printable,
        node.effect_count,
        node.transparency_type,
    ) {
        ShapeVisit::Children => {
            law_bitmaps_are_found_once(node.children, found, node.children@.len() as int);
            if let Ok(more) = bitmaps_up_to(node.children, found, node.children@.len() as int) {
                law_bitmaps_are_found_once(node.clipped, more, node.clipped@.len() as int);
            }
        },
        ShapeVisit::Bitmap => {
            if !is_found(found, node.static_id) {
                let more = found.push(
                    FoundBitmap { handle: node.handle, static_id: node.static_id },
                );
                assert forall|i: int, j: int| 0 <= i < j < more.len() implies (
                #[trigger] more[i]).static_id != (#[trigger] more[j]).static_id by {
                    if j == found.len() {
                        assert(found[i].static_id != node.static_id);
                    } else {
                        assert(found[i].static_id != found[j].static_id);
                    }
                }
            }
        },
        _ => {},
    }
}

/// No bitmap is found twice, and none that was found is forgotten: in the first `end`
/// objects.
pub proof fn law_bitmaps_are_found_once(
    nodes: Vec<ShapeNode>,
    found: Seq<FoundBitmap>,
    end: int,
)
    requires
        are_distinct(found),
        end <= nodes@.len(),
    ensures
        match bitmaps_up_to(nodes, found, end) {
            Ok(more) => are_distinct(more) && found.is_prefix_of(more),
            Err(_) => true,
        },
    decreases nodes, end,
{
    if 0 < end {
        law_bitmaps_are_found_once(nodes, found, end - 1);
        if let Ok(more) = bitmaps_up_to(nodes, found, end - 1) {
            law_bitmaps_of_an_object_are_found_once(nodes[end - 1], more);
        }
    }
}

/// Whether an object shows the bitmap with that number: it is the bitmap, or holds or
/// clips an object that shows it. What is hidden shows nothing.
pub open spec fn shows(node: ShapeNode, static_id: i32) -> bool
    decreases node, 0int,
{
    match spec_visit_shape(
        node.shape_type,
        node.visible,
        node.printable,
        node.effect_count,
        node.transparency_type,
    ) {
        ShapeVisit::Bitmap => node.static_id == static_id,
        ShapeVisit::Children => shown_up_to(node.children, static_id, node.children@.len() as int)
            || shown_up_to(node.clipped, static_id, node.clipped@.len() as int),
        _ => false,
    }
}

/// Whether one of the first `end` objects shows the bitmap with that number.
pub open spec fn shown_up_to(nodes: Vec<ShapeNode>, static_id: i32, end: int) -> bool
    decreases nodes, end,
{
    0 < end <= nodes@.len() && (shown_up_to(nodes, static_id, end - 1) || shows(
        nodes[end - 1],
        static_id,
    ))
}

/// Exactly the bitmaps that an object shows are found in it.
pub proof fn law_the_bitmaps_of_an_object_are_those_it_shows(
    node: ShapeNode,
    found: Seq<FoundBitmap>,
    static_id: i32,
)
    ensures
        match bitmaps_with(node, found) {
            Ok(more) => is_found(more, static_id) == (is_found(found, static_id) || shows(
                node,
                static_id,
            )),
            Err(_) => true,
        },
    decreases node, 0int,
{
    match spec_visit_shape(
        node.shape_type,
        node.visible,
        node.printable,
        node.effect_count,
        node.transparency_type,
    ) {
        ShapeVisit::Children => {
            let count = node.children@.len() as int;
            law_the_found_bitmaps_are_those_shown(node.children, found, static_id, count);
            if let Ok(more) = bitmaps_up_to(node.children, found, count) {
                law_the_found_bitmaps_are_those_shown(
                    node.clipped,
                    more,
                    static_id,
                    node.clipped@.len() as int,
                );
            }
        },
        ShapeVisit::Bitmap => {
            if !is_found(found, node.static_id) {
                let bitmap = FoundBitmap { handle: node.handle, static_id: node.static_id };
                let more = found.push(bitmap);
                assert(more[found.len() as int] == bitmap);
                if is_found(found, static_id) {
                    let i = choose|i: int|
                        0 <= i < found.len() && (#[trigger] found[i]).static_id == static_id;
                    assert(more[i].static_id == static_id);
                }
                if is_found(more, static_id) {
                    let i = choose|i: int|
                        0 <= i < more.len() && (#[trigger] more[i]).static_id == static_id;
                    if i < found.len() {
                        assert(found[i].static_id == static_id);
                    }
                }
            }
        },
        _ => {},
    }
}

/// Exactly the bitmaps that the first `end` objects show are found in them.
pub proof fn law_the_found_bitmaps_are_those_shown(
    nodes: Vec<ShapeNode>,
    found: Seq<FoundBitmap>,
    static_id: i32,
    end: int,
)
    requires
        end <= nodes@.len(),
    ensures
        match bitmaps_up_to(nodes, found, end) {
            Ok(more) => is_found(more, static_id) == (is_found(found, static_id) || shown_up_to(
                nodes,
                static_id,
                end,
            )),
            Err(_) => true,
        },
    decreases nodes, end,
{
    if 0 < end {
        law_the_found_bitmaps_are_those_shown(nodes, found, static_id, end - 1);
        if let Ok(more) = bitmaps_up_to(nodes, found, end - 1) {
            law_the_bitmaps_of_an_object_are_those_it_shows(nodes[end - 1], more, static_id);
        }
    }
}

// ---------------------------------------------------------------------------
// What is found is a bitmap
// ---------------------------------------------------------------------------

/// Whether an object is the bitmap with that handle and number, or holds or clips it.
pub open spec fn holds_bitmap(node: ShapeNode, handle: usize, static_id: i32) -> bool
    decreases node, 0int,
{
    (node.shape_type == 5 && node.handle == handle && node.static_id == static_id)
        || bitmap_held_up_to(node.children, handle, static_id, node.children@.len() as int)
        || bitmap_held_up_to(node.clipped, handle, static_id, node.clipped@.len() as int)
}

/// Whether one of the first `end` objects is that bitmap, or holds or clips it.
pub open spec fn bitmap_held_up_to(
    nodes: Vec<ShapeNode>,
    handle: usize,
    static_id: i32,
    end: int,
) -> bool
    decreases nodes, end,
{
    0 < end <= nodes@.len() && (bitmap_held_up_to(nodes, handle, static_id, end - 1)
        || holds_bitmap(nodes[end - 1], handle, static_id))
}

proof fn lemma_held(
    nodes: Vec<ShapeNode>,
    handle: usize,
    static_id: i32,
    k: int,
    end: int,
)
    requires
        0 <= k < end <= nodes@.len(),
        holds_bitmap(nodes[k], handle, static_id),
    ensures
        bitmap_held_up_to(nodes, handle, static_id, end),
    decreases end,
{
    if k < end - 1 {
        lemma_held(nodes, handle, static_id, k, end - 1);
    }
}

/// What is found for a number is a bitmap with that number, in the object.
pub proof fn law_the_wanted_bitmap_is_found(node: ShapeNode, wanted: i32)
    ensures
        bitmap_in(node, wanted) matches Some(handle) ==> holds_bitmap(node, handle, wanted),
    decreases node, 0int,
{
    law_the_wanted_bitmap_is_found_among(node.children, wanted, 0);
    law_the_wanted_bitmap_is_found_among(node.clipped, wanted, 0);
}

/// What is found for a number is a bitmap with that number, among the objects.
pub proof fn law_the_wanted_bitmap_is_found_among(nodes: Vec<ShapeNode>, wanted: i32, from: int)
    requires
        0 <= from,
    ensures
        bitmap_among(nodes, wanted, from) matches Some(handle) ==> bitmap_held_up_to(
            nodes,
            handle,
            wanted,
            nodes@.len() as int,
        ),
    decreases nodes, nodes@.len() - from,
{
    if from < nodes@.len() {
        law_the_wanted_bitmap_is_found(nodes[from], wanted);
        match bitmap_in(nodes[from], wanted) {
            Some(handle) => {
                lemma_held(nodes, handle, wanted, from, nodes@.len() as int);
            },
            None => {
                law_the_wanted_bitmap_is_found_among(nodes, wanted, from + 1);
            },
        }
    }
}

/// Whether a search can come to the bitmap with that number: it is the object, or in a curve
/// or a group, at any depth.
pub open spec fn is_reachable(node: ShapeNode, wanted: i32) -> bool
    decreases node, 0int,
{
    (node.shape_type == 5 && node.static_id == wanted) || ((node.shape_type == 3 || node.shape_type
        == 7) && (reachable_up_to(node.children, wanted, node.children@.len() as int)
        || reachable_up_to(node.clipped, wanted, node.clipped@.len() as int)))
}

pub open spec fn reachable_up_to(nodes: Vec<ShapeNode>, wanted: i32, end: int) -> bool
    decreases nodes, end,
{
    0 < end <= nodes@.len() && (reachable_up_to(nodes, wanted, end - 1) || is_reachable(
        nodes[end - 1],
        wanted,
    ))
}

/// A bitmap in curves and groups is found, in what they hold and in what they clip.
pub proof fn law_a_reachable_bitmap_is_found(node: ShapeNode, wanted: i32)
    ensures
        bitmap_in(node, wanted) is Some <==> is_reachable(node, wanted),
    decreases node, 0int,
{
    law_a_reachable_bitmap_is_found_among(node.children, wanted, node.children@.len() as int);
    law_a_reachable_bitmap_is_found_among(node.clipped, wanted, node.clipped@.len() as int);
}

/// A bitmap in curves and groups is found: among the objects, of which the first `end` are
/// searched first.
pub proof fn law_a_reachable_bitmap_is_found_among(nodes: Vec<ShapeNode>, wanted: i32, end: int)
    requires
        0 <= end <= nodes@.len(),
    ensures
        bitmap_among(nodes, wanted, 0) is Some <==> reachable_up_to(nodes, wanted, end)
            || bitmap_among(nodes, wanted, end) is Some,
        end == nodes@.len() ==> (bitmap_among(nodes, wanted, 0) is Some <==> reachable_up_to(
            nodes,
            wanted,
            end,
        )),
    decreases nodes, end,
{
    if end > 0 {
        law_a_reachable_bitmap_is_found_among(nodes, wanted, end - 1);
        law_a_reachable_bitmap_is_found(nodes[end - 1], wanted);
    }
}

/// What is collected in an object is bitmaps of it, by their own handles and numbers.
pub proof fn law_collected_bitmaps_are_held(
    node: ShapeNode,
    found: Seq<FoundBitmap>,
    k: int,
)
    requires
        bitmaps_with(node, found) is Ok,
        found.len() <= k < bitmaps_with(node, found)->Ok_0.len(),
        are_distinct(found),
    ensures
        ({
            let bitmap = bitmaps_with(node, found)->Ok_0[k];
            holds_bitmap(node, bitmap.handle, bitmap.static_id)
        }),
    decreases node, 0int,
{
    if spec_visit_shape(
        node.shape_type,
        node.visible,
        node.printable,
        node.effect_count,
        node.transparency_type,
    ) is Children {
        let count = node.children@.len() as int;
        let more = bitmaps_up_to(node.children, found, count)->Ok_0;
        law_bitmaps_are_found_once(node.children, found, count);
        law_bitmaps_are_found_once(node.clipped, more, node.clipped@.len() as int);
        if k < more.len() {
            law_collected_bitmaps_are_held_among(node.children, found, k, count);
        } else {
            law_collected_bitmaps_are_held_among(
                node.clipped,
                more,
                k,
                node.clipped@.len() as int,
            );
        }
    }
}

/// What is collected in the first `end` objects is bitmaps of them.
pub proof fn law_collected_bitmaps_are_held_among(
    nodes: Vec<ShapeNode>,
    found: Seq<FoundBitmap>,
    k: int,
    end: int,
)
    requires
        end <= nodes@.len(),
        bitmaps_up_to(nodes, found, end) is Ok,
        found.len() <= k < bitmaps_up_to(nodes, found, end)->Ok_0.len(),
        are_distinct(found),
    ensures
        ({
            let bitmap = bitmaps_up_to(nodes, found, end)->Ok_0[k];
            bitmap_held_up_to(nodes, bitmap.handle, bitmap.static_id, end)
        }),
    decreases nodes, end,
{
    if 0 < end {
        let more = bitmaps_up_to(nodes, found, end - 1)->Ok_0;
        law_bitmaps_are_found_once(nodes, found, end - 1);
        law_bitmaps_of_an_object_are_found_once(nodes[end - 1], more);
        if k < more.len() {
            law_collected_bitmaps_are_held_among(nodes, found, k, end - 1);
        } else {
            law_collected_bitmaps_are_held(nodes[end - 1], more, k);
        }
    }
}

} // verus!
