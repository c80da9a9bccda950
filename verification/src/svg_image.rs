//! The images of an SVG document: where their tags stand, what identifies them, and
//! which transforms stand around them.

use vstd::prelude::*;
use vstd::utf8::encode_utf8;

use crate::svg_tag::{svg_tag_end, tag_close, SvgFault};
use crate::svg_transform::{
    any_not_finite, parse_svg_transform, texts, transform_fault, transform_from, SpecTransform,
    TransformScan,
};
use crate::text::{
    chars_of, copy_range, eq_ignore_case, same_but_case, stands_at, text_stands_at, trim_start,
    trimmed_start,
};
use crate::xml::{
    document_text, node_attribute, node_attribute_in, node_parent, node_start, node_tag, parse_xml,
    root_node, xml_attribute, xml_attribute_in, xml_failure, xml_parent, xml_root, xml_start,
    xml_tag,
};

verus! {

/// An image tag of an SVG document.
pub struct SvgImageTag {
    /// Where the tag starts.
    pub start: usize,
    /// Where the tag ends.
    pub end: usize,
    pub id: Option<String>,
    /// `x`, `y`, `width`, `height`, `transform` and `preserveAspectRatio`.
    pub geometry: Vec<Option<String>>,
    /// The transforms of the elements around the image, the outermost first.
    pub around: Vec<TransformScan>,
    /// Whether the picture is part of the document.
    pub embedded_data: bool,
}

/// An image tag, by its content.
pub struct SpecImage {
    pub start: int,
    pub end: int,
    pub id: Option<Seq<char>>,
    pub geometry: Seq<Option<Seq<char>>>,
    pub around: Seq<SpecTransform>,
    pub embedded_data: bool,
}

pub open spec fn text_of(text: Option<String>) -> Option<Seq<char>> {
    match text {
        Some(text) => Some(text@),
        None => None,
    }
}

pub open spec fn scans(around: Seq<TransformScan>) -> Seq<SpecTransform> {
    around.map_values(|scan: TransformScan| scan.model())
}

impl SvgImageTag {
    pub open spec fn model(&self) -> SpecImage {
        SpecImage {
            start: self.start as int,
            end: self.end as int,
            id: text_of(self.id),
            geometry: self.geometry@.map_values(|text: Option<String>| text_of(text)),
            around: scans(self.around@),
            embedded_data: self.embedded_data,
        }
    }
}

pub open spec fn images_of(images: Seq<SvgImageTag>) -> Seq<SpecImage> {
    images.map_values(|image: SvgImageTag| image.model())
}

// ---------------------------------------------------------------------------
// One image
// ---------------------------------------------------------------------------

/// The elements around a node, the outermost first.
pub open spec fn holders(text: Seq<char>, node: int) -> Seq<int>
    decreases node,
{
    match xml_parent(text, node) {
        Some(parent) => if 0 <= parent < node {
            holders(text, parent).push(parent)
        } else {
            Seq::empty()
        },
        None => Seq::empty(),
    }
}

/// The transforms of the first `count` of `nodes`, up to the first fault. A viewport
/// other than the outermost one is a fault.
pub open spec fn transforms_of(text: Seq<char>, nodes: Seq<int>, count: int) -> (
    Seq<SpecTransform>,
    Option<SvgFault>,
)
    decreases count,
{
    if count <= 0 {
        (Seq::empty(), None)
    } else {
        let (before, fault) = transforms_of(text, nodes, count - 1);
        let node = nodes[count - 1];
        if fault is Some {
            (before, fault)
        } else if is_viewport(text, node) && node != xml_root(text) {
            (before, Some(SvgFault::NestedViewport))
        } else {
            let transform = transform_from(encode_utf8(transform_text(text, node)), 0);
            (before.push(transform), transform.fault)
        }
    }
}

pub open spec fn is_viewport(text: Seq<char>, node: int) -> bool {
    xml_tag(text, node) matches Some(tag) && same_but_case(tag, "svg"@)
}

/// The transform of an element; an element without one has an empty one.
pub open spec fn transform_text(text: Seq<char>, node: int) -> Seq<char> {
    match xml_attribute(text, node, "transform"@) {
        Some(value) => value,
        None => Seq::empty(),
    }
}

/// The attributes that place an image.
pub open spec fn geometry_of(text: Seq<char>, node: int) -> Seq<Option<Seq<char>>> {
    seq![
        xml_attribute(text, node, "x"@),
        xml_attribute(text, node, "y"@),
        xml_attribute(text, node, "width"@),
        xml_attribute(text, node, "height"@),
        xml_attribute(text, node, "transform"@),
        xml_attribute(text, node, "preserveAspectRatio"@),
    ]
}

/// What an image refers to.
pub open spec fn reference_of(text: Seq<char>, node: int) -> Option<Seq<char>> {
    match xml_attribute(text, node, "href"@) {
        Some(value) => Some(value),
        None => xml_attribute_in(text, node, "http://www.w3.org/1999/xlink"@, "href"@),
    }
}

pub open spec fn is_embedded(text: Seq<char>, node: int) -> bool {
    reference_of(text, node) matches Some(value) && stands_at(
        trimmed_start(value),
        "data:image/"@,
        0,
    )
}

/// What the images of a document come to.
pub struct SpecInspection {
    pub images: Seq<SpecImage>,
    /// The transforms around the image at which a fault was found.
    pub unfinished: Seq<SpecTransform>,
    pub fault: Option<SvgFault>,
}

pub open spec fn is_image(text: Seq<char>, node: int) -> bool {
    xml_tag(text, node) matches Some(tag) && same_but_case(tag, "image"@)
}

/// The images among the nodes from `node` on, up to the first fault.
pub open spec fn images_from(text: Seq<char>, node: int) -> SpecInspection
    decreases u32::MAX - node,
{
    let around = holders(text, node);
    let start = xml_start(text, node);
    if node >= u32::MAX || xml_tag(text, node) is None {
        SpecInspection { images: Seq::empty(), unfinished: Seq::empty(), fault: None }
    } else if !is_image(text, node) {
        images_from(text, node + 1)
    } else {
        match tag_close(encode_utf8(text), start + 1, None) {
            None => SpecInspection {
                images: Seq::empty(),
                unfinished: Seq::empty(),
                fault: Some(SvgFault::OpenTag),
            },
            Some(close) => {
                let (transforms, fault) = transforms_of(text, around, around.len() as int);
                if fault is Some {
                    SpecInspection { images: Seq::empty(), unfinished: transforms, fault }
                } else {
                    let rest = images_from(text, node + 1);
                    let image = SpecImage {
                        start,
                        end: close + 1,
                        id: xml_attribute(text, node, "id"@),
                        geometry: geometry_of(text, node),
                        around: transforms,
                        embedded_data: is_embedded(text, node),
                    };
                    SpecInspection {
                        images: seq![image] + rest.images,
                        unfinished: rest.unfinished,
                        fault: rest.fault,
                    }
                }
            },
        }
    }
}

// ---------------------------------------------------------------------------
// Scanning
// ---------------------------------------------------------------------------

/// The images of a document as they were scanned.
pub struct SvgInspection {
    pub images: Vec<SvgImageTag>,
    /// The transforms around the image at which a fault was found.
    pub unfinished: Vec<TransformScan>,
    pub fault: Option<SvgFault>,
}

impl SvgInspection {
    pub open spec fn model(&self) -> SpecInspection {
        SpecInspection {
            images: images_of(self.images@),
            unfinished: scans(self.unfinished@),
            fault: self.fault,
        }
    }
}

/// What is shown for a text that is not XML.
pub open spec fn malformed_message(failure: Seq<char>) -> Seq<char> {
    "Corel SVG XML 解析失败："@ + failure
}

fn find_holders(document: &roxmltree::Document<'_>, node: u32) -> (res: Vec<u32>)
    requires
        node < u32::MAX,
    ensures
        res@.map_values(|n: u32| n as int) == holders(document_text(*document), node as int),
        forall|k: int| 0 <= k < res@.len() ==> #[trigger] res@[k] < u32::MAX,
{
    let ghost text = document_text(*document);
    let ghost number = |n: u32| n as int;
    let mut inward: Vec<u32> = Vec::new();
    let mut current: u32 = node;
    assert(holders(text, node as int) + inward@.reverse().map_values(number) =~= holders(
        text,
        node as int,
    ));
    loop
        invariant
            text == document_text(*document),
            number == (|n: u32| n as int),
            current < u32::MAX,
            holders(text, current as int) + inward@.reverse().map_values(number) == holders(
                text,
                node as int,
            ),
            forall|k: int| 0 <= k < inward@.len() ==> #[trigger] inward@[k] < u32::MAX,
        ensures
            inward@.reverse().map_values(number) == holders(text, node as int),
        decreases current,
    {
        match node_parent(document, current) {
            Some(parent) => {
                let ghost before = inward@;
                inward.push(parent);
                assert(holders(text, parent as int) + inward@.reverse().map_values(number)
                    =~= holders(text, current as int) + before.reverse().map_values(number));
                current = parent;
            },
            None => {
                assert(inward@.reverse().map_values(number) =~= holders(text, current as int)
                    + inward@.reverse().map_values(number));
                break;
            },
        }
    }
    let mut res: Vec<u32> = Vec::new();
    let count: usize = inward.len();
    for i in 0..count
        invariant
            count == inward@.len(),
            res@ == inward@.reverse().take(i as int),
            forall|k: int| 0 <= k < inward@.len() ==> #[trigger] inward@[k] < u32::MAX,
    {
        res.push(inward[count - 1 - i]);
        assert(res@ =~= inward@.reverse().take(i + 1));
    }
    assert(res@ =~= inward@.reverse());
    assert forall|k: int| 0 <= k < res@.len() implies #[trigger] res@[k] < u32::MAX by {
        assert(res@[k] == inward@[count - 1 - k]);
    }
    res
}

fn find_transforms(document: &roxmltree::Document<'_>, nodes: &Vec<u32>) -> (res: (
    Vec<TransformScan>,
    Option<SvgFault>,
))
    requires
        forall|k: int| 0 <= k < nodes@.len() ==> #[trigger] nodes@[k] < u32::MAX,
    ensures
        (scans(res.0@), res.1) == transforms_of(
            document_text(*document),
            nodes@.map_values(|n: u32| n as int),
            nodes@.len() as int,
        ),
{
    let ghost text = document_text(*document);
    let ghost all = nodes@.map_values(|n: u32| n as int);
    let root: u32 = root_node(document);
    let mut found: Vec<TransformScan> = Vec::new();
    let mut fault: Option<SvgFault> = None;
    assert(scans(found@) =~= Seq::<SpecTransform>::empty());
    for i in 0..nodes.len()
        invariant
            forall|k: int| 0 <= k < nodes@.len() ==> #[trigger] nodes@[k] < u32::MAX,
            text == document_text(*document),
            all == nodes@.map_values(|n: u32| n as int),
            root == xml_root(text),
            (scans(found@), fault) == transforms_of(text, all, i as int),
    {
        let node: u32 = nodes[i];
        assert(all[i as int] == node);
        if fault.is_none() {
            let viewport = match node_tag(document, node) {
                Some(tag) => eq_ignore_case(tag.as_str(), "svg"),
                None => false,
            };
            if viewport && node != root {
                fault = Some(SvgFault::NestedViewport);
            } else {
                let value = match node_attribute(document, node, "transform") {
                    Some(value) => value,
                    None => String::new(),
                };
                assert(value@ =~= transform_text(text, node as int));
                let ghost before = scans(found@);
                let scan = parse_svg_transform(value.as_str().as_bytes());
                fault = scan.fault;
                found.push(scan);
                assert(scans(found@) =~= before.push(scan.model()));
            }
        }
    }
    (found, fault)
}

fn find_geometry(document: &roxmltree::Document<'_>, node: u32) -> (res: Vec<Option<String>>)
    requires
        node < u32::MAX,
    ensures
        res@.map_values(|text: Option<String>| text_of(text)) == geometry_of(
            document_text(*document),
            node as int,
        ),
{
    let mut res: Vec<Option<String>> = Vec::new();
    res.push(node_attribute(document, node, "x"));
    res.push(node_attribute(document, node, "y"));
    res.push(node_attribute(document, node, "width"));
    res.push(node_attribute(document, node, "height"));
    res.push(node_attribute(document, node, "transform"));
    res.push(node_attribute(document, node, "preserveAspectRatio"));
    assert(res@.map_values(|text: Option<String>| text_of(text)) =~= geometry_of(
        document_text(*document),
        node as int,
    ));
    res
}

fn find_embedded(document: &roxmltree::Document<'_>, node: u32) -> (res: bool)
    requires
        node < u32::MAX,
    ensures
        res == is_embedded(document_text(*document), node as int),
{
    let reference = match node_attribute(document, node, "href") {
        Some(value) => Some(value),
        None => node_attribute_in(document, node, "http://www.w3.org/1999/xlink", "href"),
    };
    match reference {
        Some(value) => {
            let chars = chars_of(value.as_str());
            let start = trim_start(chars.as_slice());
            text_stands_at(start.as_slice(), chars_of("data:image/").as_slice(), 0)
        },
        None => false,
    }
}

/// Finds the images of a document with all that can be said of them before the values
/// of the numbers in their transforms are known.
pub fn scan_svg_images(svg: &str) -> (res: Result<SvgInspection, String>)
    ensures
        match res {
            Ok(inspection) => xml_failure(svg@) is None && inspection.model() == images_from(
                svg@,
                0,
            ),
            Err(message) => xml_failure(svg@) matches Some(failure) && message@
                == malformed_message(failure),
        },
{
    let document = match parse_xml(svg) {
        Ok(document) => document,
        Err(error) => {
            let mut message = "Corel SVG XML 解析失败：".to_owned();
            message.push_str(error.as_str());
            return Err(message);
        },
    };
    let bytes = svg.as_bytes();
    let mut images: Vec<SvgImageTag> = Vec::new();
    let mut node: u32 = 0;
    let ghost goal = images_from(svg@, 0);
    assert(images_of(images@) + goal.images =~= goal.images);
    loop
        invariant
            document_text(document) == svg@,
            bytes@ == encode_utf8(svg@),
            goal == images_from(svg@, 0),
            images_of(images@) + images_from(svg@, node as int).images == goal.images,
            images_from(svg@, node as int).unfinished == goal.unfinished,
            images_from(svg@, node as int).fault == goal.fault,
            xml_failure(svg@) is None,
        decreases u32::MAX - node,
    {
        let ghost rest = images_from(svg@, node as int);
        let ghost images_before = images_of(images@);
        let unfinished: Vec<TransformScan> = Vec::new();
        assert(scans(unfinished@) =~= Seq::<SpecTransform>::empty());
        if node == u32::MAX {
            assert(images_of(images@) =~= goal.images);
            return Ok(SvgInspection { images, unfinished, fault: None });
        }
        let tag = match node_tag(&document, node) {
            Some(tag) => tag,
            None => {
                assert(images_of(images@) =~= goal.images);
                return Ok(SvgInspection { images, unfinished, fault: None });
            },
        };
        if !eq_ignore_case(tag.as_str(), "image") {
            node = node + 1;
            continue;
        }
        let start: usize = node_start(&document, node);
        let end: usize = match svg_tag_end(bytes, start) {
            Ok(end) => end,
            Err(fault) => {
                assert(images_of(images@) =~= goal.images);
                return Ok(SvgInspection { images, unfinished, fault: Some(fault) });
            },
        };
        let geometry = find_geometry(&document, node);
        let embedded_data = find_embedded(&document, node);
        let nodes = find_holders(&document, node);
        let (around, fault) = find_transforms(&document, &nodes);
        if fault.is_some() {
            assert(images_of(images@) =~= goal.images);
            return Ok(SvgInspection { images, unfinished: around, fault });
        }
        let id = node_attribute(&document, node, "id");
        let image = SvgImageTag { start, end, id, geometry, around, embedded_data };
        let ghost model = image.model();
        images.push(image);
        proof {
            let next = images_from(svg@, node + 1);
            assert(images_of(images@) =~= images_before.push(model));
            assert(rest.images == seq![model] + next.images);
            assert(images_of(images@) + next.images =~= images_before + rest.images);
        }
        node = node + 1;
    }
}

// ---------------------------------------------------------------------------
// Numbers
// ---------------------------------------------------------------------------

/// The numbers of the first `count` transforms, in order.
pub open spec fn numbers_in(around: Seq<SpecTransform>, count: int) -> Seq<Seq<u8>>
    decreases count,
{
    if count <= 0 {
        Seq::empty()
    } else {
        numbers_in(around, count - 1) + around[count - 1].numbers
    }
}

/// The numbers around the first `count` images, in order.
pub open spec fn numbers_around(images: Seq<SpecImage>, count: int) -> Seq<Seq<u8>>
    decreases count,
{
    if count <= 0 {
        Seq::empty()
    } else {
        let around = images[count - 1].around;
        numbers_around(images, count - 1) + numbers_in(around, around.len() as int)
    }
}

impl SpecInspection {
    /// All numbers that were read, in order.
    pub open spec fn numbers(self) -> Seq<Seq<u8>> {
        numbers_around(self.images, self.images.len() as int) + numbers_in(
            self.unfinished,
            self.unfinished.len() as int,
        )
    }
}

fn copy_numbers(out: &mut Vec<Vec<u8>>, around: &Vec<TransformScan>)
    ensures
        texts(final(out)@) == texts(old(out)@) + numbers_in(
            scans(around@),
            around@.len() as int,
        ),
{
    let ghost start = texts(out@);
    let ghost all = scans(around@);
    assert(start + Seq::<Seq<u8>>::empty() =~= start);
    for i in 0..around.len()
        invariant
            all == scans(around@),
            texts(out@) == start + numbers_in(all, i as int),
    {
        let ghost before = texts(out@);
        let ghost more = texts(around@[i as int].numbers@);
        assert(all[i as int].numbers == more);
        let count: usize = around[i].numbers.len();
        for j in 0..count
            invariant
                i < around@.len(),
                count == around@[i as int].numbers@.len(),
                more == texts(around@[i as int].numbers@),
                texts(out@) == before + more.take(j as int),
        {
            let ghost so_far = texts(out@);
            let number = copy_range(
                around[i].numbers[j].as_slice(),
                0,
                around[i].numbers[j].len(),
            );
            assert(number@ =~= more[j as int]);
            out.push(number);
            assert(texts(out@) =~= so_far.push(more[j as int]));
        }
        assert(more.take(count as int) =~= more);
        assert(texts(out@) =~= start + (numbers_in(all, i as int) + more));
    }
}

/// The texts of all numbers of an inspection, in order.
pub fn svg_numbers(inspection: &SvgInspection) -> (res: Vec<Vec<u8>>)
    ensures
        texts(res@) == inspection.model().numbers(),
{
    let mut res: Vec<Vec<u8>> = Vec::new();
    let ghost images = images_of(inspection.images@);
    assert(texts(res@) =~= Seq::<Seq<u8>>::empty());
    for i in 0..inspection.images.len()
        invariant
            images == images_of(inspection.images@),
            texts(res@) == numbers_around(images, i as int),
    {
        assert(images[i as int] == inspection.images@[i as int].model());
        copy_numbers(&mut res, &inspection.images[i].around);
    }
    copy_numbers(&mut res, &inspection.unfinished);
    res
}

/// The images of a document, once the values of the numbers of the inspection are
/// known.
pub fn inspect_svg_images(inspection: SvgInspection, values: &[u64]) -> (res: Result<
    Vec<SvgImageTag>,
    SvgFault,
>)
    requires
        values@.len() == inspection.model().numbers().len(),
    ensures
        match res {
            Ok(images) => transform_fault(inspection.fault, values@) is None && images_of(images@)
                == inspection.model().images,
            Err(fault) => transform_fault(inspection.fault, values@) == Some(fault),
        },
{
    if any_not_finite(values) {
        return Err(SvgFault::NotFinite);
    }
    match inspection.fault {
        Some(fault) => Err(fault),
        None => Ok(inspection.images),
    }
}

// ---------------------------------------------------------------------------
// Which images are found
// ---------------------------------------------------------------------------

/// The nodes from `node` on that are images.
pub open spec fn image_nodes(text: Seq<char>, node: int) -> Seq<int>
    decreases u32::MAX - node,
{
    if node >= u32::MAX || xml_tag(text, node) is None {
        Seq::empty()
    } else if xml_tag(text, node) matches Some(tag) && same_but_case(tag, "image"@) {
        seq![node] + image_nodes(text, node + 1)
    } else {
        image_nodes(text, node + 1)
    }
}

/// Every image of a document is found, in the order of the document: where its tag starts and
/// ends, what it is called, where it is placed, and the transforms of all elements around it.
pub proof fn law_all_images_are_found(text: Seq<char>, node: int, k: int)
    requires
        images_from(text, node).fault is None,
        0 <= k < image_nodes(text, node).len(),
    ensures
        images_from(text, node).images.len() == image_nodes(text, node).len(),
        ({
            let image = images_from(text, node).images[k];
            let at = image_nodes(text, node)[k];
            &&& node <= at
            &&& image.start == xml_start(text, at)
            &&& tag_close(encode_utf8(text), image.start + 1, None) == Some(image.end - 1)
            &&& image.id == xml_attribute(text, at, "id"@)
            &&& image.geometry.len() == 6
            &&& image.geometry[0] == xml_attribute(text, at, "x"@)
            &&& image.geometry[1] == xml_attribute(text, at, "y"@)
            &&& image.geometry[2] == xml_attribute(text, at, "width"@)
            &&& image.geometry[3] == xml_attribute(text, at, "height"@)
            &&& image.geometry[4] == xml_attribute(text, at, "transform"@)
            &&& image.geometry[5] == xml_attribute(text, at, "preserveAspectRatio"@)
            &&& image.embedded_data == is_embedded(text, at)
            &&& image.around == transforms_of(
                text,
                holders(text, at),
                holders(text, at).len() as int,
            ).0
        }),
    decreases u32::MAX - node,
{
    lemma_image_count(text, node);
    if is_image(text, node) {
        let rest = images_from(text, node + 1);
        let all = images_from(text, node);
        assert(image_nodes(text, node).skip(1) =~= image_nodes(text, node + 1));
        if k > 0 {
            law_all_images_are_found(text, node + 1, k - 1);
            assert(all.images[k] == rest.images[k - 1]);
        }
    } else {
        law_all_images_are_found(text, node + 1, k);
    }
}

proof fn lemma_image_count(text: Seq<char>, node: int)
    requires
        images_from(text, node).fault is None,
    ensures
        images_from(text, node).images.len() == image_nodes(text, node).len(),
    decreases u32::MAX - node,
{
    if node < u32::MAX && xml_tag(text, node) is Some {
        lemma_image_count(text, node + 1);
    }
}

/// The elements around a node go from the outermost to the one that holds it, each one held by
/// the one before it.
pub proof fn law_holders_hold_each_other(text: Seq<char>, node: int, k: int)
    requires
        0 <= k < holders(text, node).len(),
    ensures
        ({
            let around = holders(text, node);
            let inside = if k + 1 < around.len() {
                around[k + 1]
            } else {
                node
            };
            &&& xml_parent(text, inside) == Some(around[k])
            &&& around[k] < inside
            &&& k == 0 ==> (xml_parent(text, around[0]) matches Some(outer) ==> !(0 <= outer
                < around[0]))
        }),
    decreases node,
{
    let parent = xml_parent(text, node).unwrap();
    let outer = holders(text, parent);
    if k < outer.len() {
        law_holders_hold_each_other(text, parent, k);
    }
}

/// The transforms around an image are those of the elements around it, one each, in their order;
/// an element without one changes nothing. A viewport inside of another is refused.
pub proof fn law_transforms_are_those_around(text: Seq<char>, nodes: Seq<int>, count: int)
    requires
        0 <= count <= nodes.len(),
    ensures
        ({
            let (transforms, fault) = transforms_of(text, nodes, count);
            fault is None ==> transforms.len() == count && forall|k: int|
                0 <= k < count ==> #[trigger] transforms[k] == transform_from(
                    encode_utf8(
                        match xml_attribute(text, nodes[k], "transform"@) {
                            Some(value) => value,
                            None => Seq::empty(),
                        },
                    ),
                    0,
                ) && transforms[k].fault is None && !(is_viewport(text, nodes[k]) && nodes[k]
                    != xml_root(text))
        }),
    decreases count,
{
    if count > 0 {
        law_transforms_are_those_around(text, nodes, count - 1);
    }
}

/// An image holds its picture exactly if what it refers to starts, behind white space, as a
/// picture that is written out; `href` counts before `xlink:href`.
pub proof fn law_embedded_pictures_are_recognized(
    text: Seq<char>,
    node: int,
    blank: Seq<char>,
    rest: Seq<char>,
)
    requires
        crate::text::is_blank(blank),
    ensures
        xml_attribute(text, node, "href"@) == Some(blank + "data:image/"@ + rest) ==> is_embedded(
            text,
            node,
        ),
        xml_attribute(text, node, "href"@) is None && xml_attribute_in(
            text,
            node,
            "http://www.w3.org/1999/xlink"@,
            "href"@,
        ) == Some(blank + "data:image/"@ + rest) ==> is_embedded(text, node),
        xml_attribute(text, node, "href"@) is None && xml_attribute_in(
            text,
            node,
            "http://www.w3.org/1999/xlink"@,
            "href"@,
        ) is None ==> !is_embedded(text, node),
        xml_attribute(text, node, "href"@) matches Some(value) && value.len() > 0 && value[0] != 'd'
            && !crate::text::is_white_space(value[0]) ==> !is_embedded(text, node),
{
    reveal_strlit("data:image/");
    let marker = "data:image/"@;
    let value = blank + marker + rest;
    assert(marker.len() == 11 && marker[0] == 'd');
    assert(value =~= blank + (marker + rest));
    lemma_blank_start(blank, marker + rest);
    assert((marker + rest).subrange(0, 11) =~= marker);
    if let Some(other) = xml_attribute(text, node, "href"@) {
        if other.len() > 0 && other[0] != 'd' && !crate::text::is_white_space(other[0]) {
            assert(trimmed_start(other) == other);
            if stands_at(other, marker, 0) {
                assert(other.subrange(0, 11)[0] == other[0]);
            }
        }
    }
}

proof fn lemma_blank_start(blank: Seq<char>, rest: Seq<char>)
    requires
        crate::text::is_blank(blank),
        rest.len() > 0,
        !crate::text::is_white_space(rest[0]),
    ensures
        trimmed_start(blank + rest) == rest,
    decreases blank.len(),
{
    if blank.len() > 0 {
        assert((blank + rest)[0] == blank[0]);
        assert((blank + rest).skip(1) =~= blank.skip(1) + rest);
        lemma_blank_start(blank.skip(1), rest);
    } else {
        assert(blank + rest =~= rest);
    }
}

} // verus!
