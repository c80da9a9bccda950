//! Exporting a document as SVG with its bitmaps as transparent pictures.
//!
//! CorelDRAW exports the document twice: as it is, and with every bitmap renamed to a
//! marker. The markers tell which image of the document stands for which bitmap, and
//! the images whose pictures have to be replaced get the bitmap as embedded PNG.

use base64::Engine;
use vstd::prelude::*;

use crate::measure::{is_not_above_zero, not_above_zero};
use crate::scan::{ascii, ascii_bytes, bytes_stand_at};
use crate::svg_image::{images_of, text_of, SpecImage, SvgImageTag};
use crate::svg_tag::{
    attribute_value, attributes_start, is_attribute_name, is_plain_value, is_regular_tag,
    law_attribute_reads_back, law_regular_tags_take_attributes, law_setting_keeps_a_tag_regular,
    law_setting_keeps_other_attributes, lemma_value_is_quoted, replace_svg_href,
    set_svg_attribute, spec_attribute_range, spec_replace_href, spec_set_attribute,
    svg_attribute_range, SvgFault,
};
use crate::svg_transform::{
    numbers_from, parse_svg_numbers, parse_svg_transform, texts, transform_from, NumberScan,
    TransformScan,
};
use crate::text::{
    after_prefix, append_range, chars_of, copy_range, decimal, decimal_chars, eq_ignore_case,
    law_padded_decimal_reads_back, push_decimal, read_unsigned, same_but_case, stands_at,
    string_of, strip_prefix, unsigned_number, zero_padded,
};

verus! {

/// Why a document cannot be exported.
#[derive(Debug, Clone, PartialEq, Eq)]
pub enum ExportError {
    /// The output path is not absolute.
    RelativePath,
    /// The output path does not end in `.svg`.
    NotSvgPath,
    /// The selection is to be exported and is empty.
    NothingSelected,
    /// There is no object to export.
    NothingToExport,
    /// The document holds other images than the bitmaps that were found.
    NativeCount { bitmaps: usize, native: usize },
    /// The marked document holds other images than the bitmaps that were found.
    TaggedCount { bitmaps: usize, native: usize, tagged: usize },
    /// The images of the two documents are not the same.
    GeometryChanged,
    /// An image of the marked document has no name.
    MissingId,
    /// An image of the marked document has a name that is no marker.
    UnknownId(String),
    /// Two images of the marked document have the same marker.
    RepeatedId,
    /// The picture of a bitmap has no alpha channel.
    NoAlpha { number: usize },
    /// An object has an effect or a transparency.
    UnsupportedEffect(String),
    Svg(SvgFault),
}

impl ExportError {
    /// The text shown for the error.
    pub open spec fn spec_message(self) -> Seq<char> {
        match self {
            ExportError::RelativePath => "SVG 输出路径必须是绝对路径"@,
            ExportError::NotSvgPath => "SVG 输出路径必须以 .svg 结尾"@,
            ExportError::NothingSelected => "导出选中为 SVG 前，请先在 CorelDRAW 中选择对象"@,
            ExportError::NothingToExport => "当前没有可导出的对象"@,
            ExportError::NativeCount { bitmaps, native } => "SVG 位图数量不匹配：Corel 对象 "@
                + decimal(bitmaps as nat) + "，原始 SVG "@ + decimal(native as nat)
                + "；可能包含暂不支持的特效或隐藏对象"@,
            ExportError::TaggedCount { bitmaps, native, tagged } => "SVG 位图数量不匹配：Corel 对象 "@
                + decimal(bitmaps as nat) + "，原始 SVG "@ + decimal(native as nat)
                + "，标记 SVG "@ + decimal(tagged as nat)
                + "；可能包含暂不支持的特效或隐藏对象"@,
            ExportError::GeometryChanged => "Corel 原生 SVG 的位图顺序或位置在标记导出时发生变化"@,
            ExportError::MissingId => "无法识别 Corel 导出中的位图 ID"@,
            ExportError::UnknownId(id) => "无法映射 Corel SVG 位图："@ + id@,
            ExportError::RepeatedId => "Corel SVG 中出现重复的位图映射 ID"@,
            ExportError::NoAlpha { number } => "第 "@ + decimal(number as nat)
                + " 张位图导出的 PNG 没有保留透明通道"@,
            ExportError::UnsupportedEffect(name) => "对象包含暂不支持的特效或透明度："@ + name@,
            ExportError::Svg(fault) => fault.spec_message(),
        }
    }

    /// The text shown for the error.
    pub fn message(&self) -> (res: String)
        ensures
            res@ == self.spec_message(),
    {
        match self {
            ExportError::RelativePath => "SVG 输出路径必须是绝对路径".to_owned(),
            ExportError::NotSvgPath => "SVG 输出路径必须以 .svg 结尾".to_owned(),
            ExportError::NothingSelected =>
                "导出选中为 SVG 前，请先在 CorelDRAW 中选择对象".to_owned(),
            ExportError::NothingToExport => "当前没有可导出的对象".to_owned(),
            ExportError::NativeCount { bitmaps, native } => {
                let mut res = "SVG 位图数量不匹配：Corel 对象 ".to_owned();
                push_decimal(&mut res, *bitmaps as u64);
                res.push_str("，原始 SVG ");
                push_decimal(&mut res, *native as u64);
                res.push_str("；可能包含暂不支持的特效或隐藏对象");
                res
            },
            ExportError::TaggedCount { bitmaps, native, tagged } => {
                let mut res = "SVG 位图数量不匹配：Corel 对象 ".to_owned();
                push_decimal(&mut res, *bitmaps as u64);
                res.push_str("，原始 SVG ");
                push_decimal(&mut res, *native as u64);
                res.push_str("，标记 SVG ");
                push_decimal(&mut res, *tagged as u64);
                res.push_str("；可能包含暂不支持的特效或隐藏对象");
                res
            },
            ExportError::GeometryChanged =>
                "Corel 原生 SVG 的位图顺序或位置在标记导出时发生变化".to_owned(),
            ExportError::MissingId => "无法识别 Corel 导出中的位图 ID".to_owned(),
            ExportError::UnknownId(id) => {
                let mut res = "无法映射 Corel SVG 位图：".to_owned();
                res.push_str(id.as_str());
                res
            },
            ExportError::RepeatedId => "Corel SVG 中出现重复的位图映射 ID".to_owned(),
            ExportError::NoAlpha { number } => {
                let mut res = "第 ".to_owned();
                push_decimal(&mut res, *number as u64);
                res.push_str(" 张位图导出的 PNG 没有保留透明通道");
                res
            },
            ExportError::UnsupportedEffect(name) => {
                let mut res = "对象包含暂不支持的特效或透明度：".to_owned();
                res.push_str(name.as_str());
                res
            },
            ExportError::Svg(fault) => fault.message(),
        }
    }
}

// ---------------------------------------------------------------------------
// What to export
// ---------------------------------------------------------------------------

/// Whether an SVG can be written to a path.
pub fn check_output_path(absolute: bool, extension: Option<&str>) -> (res: Result<(), ExportError>)
    ensures
        res == (if !absolute {
            Err(ExportError::RelativePath)
        } else if extension matches Some(text) && same_but_case(text@, "svg"@) {
            Ok(())
        } else {
            Err(ExportError::NotSvgPath)
        }),
{
    if !absolute {
        return Err(ExportError::RelativePath);
    }
    let is_svg = match extension {
        Some(text) => eq_ignore_case(text, "svg"),
        None => false,
    };
    if is_svg {
        Ok(())
    } else {
        Err(ExportError::NotSvgPath)
    }
}

/// Whether there is something to export: `selection` counts the selected objects,
/// `roots` the objects to export.
pub fn check_selection(selected: bool, selection: i32) -> (res: Result<(), ExportError>)
    ensures
        res == (if selected && selection == 0 {
            Err::<(), _>(ExportError::NothingSelected)
        } else {
            Ok(())
        }),
{
    if selected && selection == 0 {
        Err(ExportError::NothingSelected)
    } else {
        Ok(())
    }
}

/// Whether there is an object to export.
pub fn check_roots(count: usize) -> (res: Result<(), ExportError>)
    ensures
        res == (if count == 0 {
            Err::<(), _>(ExportError::NothingToExport)
        } else {
            Ok(())
        }),
{
    if count == 0 {
        Err(ExportError::NothingToExport)
    } else {
        Ok(())
    }
}

/// The characters that cannot stand in a file name.
pub open spec fn is_forbidden_in_names(c: char) -> bool {
    c == '<' || c == '>' || c == ':' || c == '"' || c == '/' || c == '\\' || c == '|' || c == '?'
        || c == '*'
}

/// The stem of the file that a document is exported to: its own, unless it is blank.
pub open spec fn export_stem(stem: Option<Seq<char>>) -> Seq<char> {
    match stem {
        Some(stem) => if crate::text::trimmed(stem).len() > 0 {
            stem
        } else {
            "transparent-native"@
        },
        None => "transparent-native"@,
    }
}

/// A stem with underscores for what cannot stand in a file name.
pub open spec fn safe_name(stem: Seq<char>) -> Seq<char> {
    stem.map_values(|c: char| if is_forbidden_in_names(c) { '_' } else { c })
}

/// The name of the file that a document is exported to by default.
pub fn default_svg_name(stem: Option<&str>) -> (res: String)
    ensures
        res@ == safe_name(
            export_stem(
                match stem {
                    Some(stem) => Some(stem@),
                    None => None,
                },
            ),
        ) + ".svg"@,
{
    let mut name = chars_of("transparent-native");
    match stem {
        Some(stem) => {
            let chars = chars_of(stem);
            if crate::text::trim(chars.as_slice()).len() > 0 {
                name = chars;
            }
        },
        None => {},
    }
    let mut res: String = String::new();
    for i in 0..name.len()
        invariant
            res@ == safe_name(name@).take(i as int),
    {
        let c = name[i];
        let forbidden = c == '<' || c == '>' || c == ':' || c == '"' || c == '/' || c == '\\' || c
            == '|' || c == '?' || c == '*';
        if forbidden {
            res.push('_');
        } else {
            res.push(c);
        }
    }
    assert(res@ =~= safe_name(name@));
    res.push_str(".svg");
    res
}

/// What an object means for the export.
#[derive(Debug, Clone, Copy, PartialEq, Eq, Structural)]
pub enum ShapeVisit {
    /// Nothing of it is exported.
    Skip,
    /// It cannot be exported.
    Unsupported,
    /// It is a bitmap.
    Bitmap,
    /// What it holds has to be visited.
    Children,
}

/// The type of an object that holds nothing.
pub const NO_SHAPE: i32 = 0;

/// The type of a bitmap.
pub const BITMAP_SHAPE: i32 = 5;

/// What an object means for the export: hidden objects are left out, and effects and
/// transparencies of what is exported are refused.
pub open spec fn spec_visit_shape(
    shape_type: i32,
    visible: bool,
    printable: bool,
    effect_count: i32,
    transparency_type: i32,
) -> ShapeVisit {
    if shape_type == NO_SHAPE || !visible || !printable {
        ShapeVisit::Skip
    } else if effect_count > 0 || transparency_type != 0 {
        ShapeVisit::Unsupported
    } else if shape_type == BITMAP_SHAPE {
        ShapeVisit::Bitmap
    } else {
        ShapeVisit::Children
    }
}

/// What an object means for the export.
pub fn visit_shape(
    shape_type: i32,
    visible: bool,
    printable: bool,
    effect_count: i32,
    transparency_type: i32,
) -> (res: ShapeVisit)
    ensures
        res == spec_visit_shape(
            shape_type,
            visible,
            printable,
            effect_count,
            transparency_type,
        ),
{
    if shape_type == NO_SHAPE || !visible || !printable {
        ShapeVisit::Skip
    } else if effect_count > 0 || transparency_type != 0 {
        ShapeVisit::Unsupported
    } else if shape_type == BITMAP_SHAPE {
        ShapeVisit::Bitmap
    } else {
        ShapeVisit::Children
    }
}

/// How deep an object is followed through its groups.
pub const GROUP_LIMIT: usize = 64;

/// Whether an object is clipped: `clipped` tells it of the object and of the groups
/// around it, from the inside out, as far as they are followed.
pub fn is_inside_powerclip(clipped: &[bool]) -> (res: bool)
    ensures
        res == exists|i: int| 0 <= i < clipped@.len() && i < GROUP_LIMIT && #[trigger] clipped@[i],
{
    for i in 0..clipped.len()
        invariant
            i <= GROUP_LIMIT,
            forall|k: int| 0 <= k < i ==> !#[trigger] clipped@[k],
    {
        if i == GROUP_LIMIT {
            return false;
        }
        if clipped[i] {
            return true;
        }
    }
    false
}

/// The resolution at which a bitmap is exported: at least 300, and 300 for more than
/// 1200.
pub open spec fn spec_export_dpi(x: int, y: int) -> int {
    let wanted = if x <= 300 && y <= 300 {
        300
    } else if x >= y {
        x
    } else {
        y
    };
    if wanted > 1200 {
        300
    } else {
        wanted
    }
}

/// The resolution at which a bitmap of the given resolution is exported.
pub fn export_dpi(x: i32, y: i32) -> (res: i32)
    ensures
        res == spec_export_dpi(x as int, y as int),
        300 <= res <= 1200,
{
    let mut dpi: i32 = 300;
    if x > dpi {
        dpi = x;
    }
    if y > dpi {
        dpi = y;
    }
    if dpi > 1200 {
        dpi = 300;
    }
    dpi
}

// ---------------------------------------------------------------------------
// Which image stands for which bitmap
// ---------------------------------------------------------------------------

/// Whether every picture of the document can stay: no bitmap has to be replaced, and
/// every image holds its picture.
pub open spec fn nothing_to_replace(replace: Seq<bool>, images: Seq<SpecImage>) -> bool {
    &&& forall|i: int| 0 <= i < replace.len() ==> !#[trigger] replace[i]
    &&& forall|i: int| 0 <= i < images.len() ==> (#[trigger] images[i]).embedded_data
}

/// Whether the images of the document are the bitmaps, and whether the document has to
/// be exported with markers.
pub fn needs_markers(replace: &[bool], native: &Vec<SvgImageTag>) -> (res: Result<
    bool,
    ExportError,
>)
    ensures
        match res {
            Ok(needed) => native@.len() == replace@.len() && needed == !nothing_to_replace(
                replace@,
                images_of(native@),
            ),
            Err(error) => native@.len() != replace@.len() && error == (ExportError::NativeCount {
                bitmaps: replace@.len() as usize,
                native: native@.len() as usize,
            }),
        },
{
    if native.len() != replace.len() {
        return Err(
            ExportError::NativeCount { bitmaps: replace.len(), native: native.len() },
        );
    }
    let ghost images = images_of(native@);
    for i in 0..replace.len()
        invariant
            native@.len() == replace@.len(),
            images == images_of(native@),
            forall|k: int| 0 <= k < i ==> !#[trigger] replace@[k],
            forall|k: int| 0 <= k < i ==> (#[trigger] images[k]).embedded_data,
    {
        if replace[i] {
            return Ok(true);
        }
        assert(images[i as int] == native@[i as int].model());
        if !native[i].embedded_data {
            return Ok(true);
        }
    }
    Ok(false)
}

/// The marker of the bitmap with that number; the first one has number one.
pub open spec fn spec_marker_name(number: nat) -> Seq<char> {
    "tsvgMap"@ + zero_padded(decimal(number), 6)
}

/// The number that a name marks, up to `count`.
pub open spec fn marked_number(name: Seq<char>, count: nat) -> Option<nat> {
    match after_prefix(name, "tsvgMap"@) {
        Some(rest) => match unsigned_number(rest, usize::MAX as nat) {
            Some(number) => if 1 <= number <= count {
                Some(number)
            } else {
                None
            },
            None => None,
        },
        None => None,
    }
}

/// A marker marks its number.
pub proof fn law_markers_read_back(number: nat, count: nat)
    requires
        1 <= number <= count <= usize::MAX,
    ensures
        marked_number(spec_marker_name(number), count) == Some(number),
{
    let name = spec_marker_name(number);
    let rest = zero_padded(decimal(number), 6);
    assert(name.subrange(0, "tsvgMap"@.len() as int) =~= "tsvgMap"@);
    assert(name.skip("tsvgMap"@.len() as int) =~= rest);
    law_padded_decimal_reads_back(number, 6, usize::MAX as nat);
}

/// The marker of the bitmap at `index`.
pub fn marker_name(index: usize) -> (res: String)
    requires
        index < usize::MAX,
    ensures
        res@ == spec_marker_name(index as nat + 1),
{
    let digits = decimal_chars(index as u64 + 1);
    let mut padded: Vec<char> = Vec::new();
    let mut missing: usize = if digits.len() < 6 {
        6 - digits.len()
    } else {
        0
    };
    while missing > 0
        invariant
            padded@.len() + missing == (if digits@.len() < 6 { 6 - digits@.len() } else { 0 }),
            forall|k: int| 0 <= k < padded@.len() ==> padded@[k] == '0',
        decreases missing,
    {
        padded.push('0');
        missing = missing - 1;
    }
    append_range(&mut padded, digits.as_slice(), 0, digits.len());
    assert(padded@ =~= zero_padded(digits@, 6));
    let mut res = "tsvgMap".to_owned();
    res.push_str(string_of(padded.as_slice()).as_str());
    res
}

/// The bitmap that an image stands for.
fn marked_index(name: &str, count: usize) -> (res: Option<usize>)
    ensures
        match res {
            Some(index) => marked_number(name@, count as nat) == Some((index + 1) as nat) && index
                < count,
            None => marked_number(name@, count as nat) is None,
        },
{
    let chars = chars_of(name);
    match strip_prefix(chars.as_slice(), "tsvgMap") {
        Some(rest) => match read_unsigned(rest.as_slice(), usize::MAX as u64) {
            Some(number) => if 1 <= number && number <= count as u64 {
                Some((number - 1) as usize)
            } else {
                None
            },
            None => None,
        },
        None => None,
    }
}

/// Which bitmap each image stands for, and which bitmaps have to be replaced.
pub struct BitmapMapping {
    /// For each image, the index of its bitmap.
    pub bitmap_indexes: Vec<usize>,
    /// For each bitmap, whether its picture has to be replaced.
    pub replacement_required: Vec<bool>,
}

/// What the first `count` images say: the bitmaps they stand for, or the first error.
pub open spec fn mapping(native: Seq<SpecImage>, tagged: Seq<SpecImage>, count: int) -> Result<
    Seq<int>,
    SpecMappingError,
>
    decreases count,
{
    if count <= 0 {
        Ok(Seq::empty())
    } else {
        match mapping(native, tagged, count - 1) {
            Err(error) => Err(error),
            Ok(before) => {
                let image = tagged[count - 1];
                if native[count - 1].geometry != image.geometry {
                    Err(SpecMappingError::GeometryChanged)
                } else {
                    match image.id {
                        None => Err(SpecMappingError::MissingId),
                        Some(id) => match marked_number(id, native.len()) {
                            None => Err(SpecMappingError::UnknownId(id)),
                            Some(number) => if before.contains(number - 1) {
                                Err(SpecMappingError::RepeatedId)
                            } else {
                                Ok(before.push(number - 1))
                            },
                        },
                    }
                }
            },
        }
    }
}

pub enum SpecMappingError {
    GeometryChanged,
    MissingId,
    UnknownId(Seq<char>),
    RepeatedId,
}

impl SpecMappingError {
    pub open spec fn is(self, error: ExportError) -> bool {
        match self {
            SpecMappingError::GeometryChanged => error is GeometryChanged,
            SpecMappingError::MissingId => error is MissingId,
            SpecMappingError::UnknownId(id) => error matches ExportError::UnknownId(text) && text@
                == id,
            SpecMappingError::RepeatedId => error is RepeatedId,
        }
    }
}

pub open spec fn as_ints(indexes: Seq<usize>) -> Seq<int> {
    indexes.map_values(|i: usize| i as int)
}

/// A mapping sends different images to different bitmaps.
pub proof fn law_mapping_is_one_to_one(native: Seq<SpecImage>, tagged: Seq<SpecImage>, count: int)
    requires
        0 <= count <= native.len(),
    ensures
        mapping(native, tagged, count) matches Ok(indexes) ==> {
            &&& indexes.len() == count
            &&& indexes.no_duplicates()
            &&& forall|k: int| 0 <= k < count ==> 0 <= #[trigger] indexes[k] < native.len()
        },
    decreases count,
{
    if count > 0 {
        law_mapping_is_one_to_one(native, tagged, count - 1);
    }
}

fn same_option(a: &Option<String>, b: &Option<String>) -> (res: bool)
    ensures
        res == (text_of(*a) == text_of(*b)),
{
    match (a, b) {
        (Some(left), Some(right)) => *left == *right,
        (None, None) => true,
        _ => false,
    }
}

fn same_geometry(a: &SvgImageTag, b: &SvgImageTag) -> (res: bool)
    ensures
        res == (a.model().geometry == b.model().geometry),
{
    let ghost left = a.model().geometry;
    let ghost right = b.model().geometry;
    if a.geometry.len() != b.geometry.len() {
        assert(left.len() != right.len());
        return false;
    }
    for i in 0..a.geometry.len()
        invariant
            left == a.model().geometry,
            right == b.model().geometry,
            a.geometry@.len() == b.geometry@.len(),
            forall|k: int| 0 <= k < i ==> left[k] == right[k],
    {
        if !same_option(&a.geometry[i], &b.geometry[i]) {
            assert(left[i as int] != right[i as int]);
            return false;
        }
    }
    assert(left =~= right);
    true
}

fn holds_index(indexes: &Vec<usize>, index: usize) -> (res: bool)
    ensures
        res == as_ints(indexes@).contains(index as int),
{
    let ghost all = as_ints(indexes@);
    for i in 0..indexes.len()
        invariant
            all == as_ints(indexes@),
            forall|k: int| 0 <= k < i ==> all[k] != index,
    {
        if indexes[i] == index {
            assert(all[i as int] == index);
            return true;
        }
    }
    false
}

/// Which bitmaps have to be replaced when the first `count` images are mapped.
pub open spec fn to_replace(
    replace: Seq<bool>,
    native: Seq<SpecImage>,
    indexes: Seq<int>,
    count: int,
) -> Seq<bool>
    decreases count,
{
    if count <= 0 {
        Seq::new(replace.len(), |i: int| false)
    } else {
        let index = indexes[count - 1];
        to_replace(replace, native, indexes, count - 1).update(
            index,
            replace[index] || !native[count - 1].embedded_data,
        )
    }
}

/// Finds out which bitmap each image stands for. `native` holds the images of the
/// document, `tagged` those of the marked document, and `replace` says which bitmaps
/// have to be replaced in any case.
pub fn map_bitmaps(
    replace: &[bool],
    native: &Vec<SvgImageTag>,
    tagged: &Vec<SvgImageTag>,
) -> (res: Result<BitmapMapping, ExportError>)
    requires
        native@.len() == replace@.len(),
    ensures
        match res {
            Ok(found) => {
                &&& tagged@.len() == replace@.len()
                &&& mapping(images_of(native@), images_of(tagged@), native@.len() as int) == Ok::<
                    _,
                    SpecMappingError,
                >(as_ints(found.bitmap_indexes@))
                &&& found.replacement_required@ == to_replace(
                    replace@,
                    images_of(native@),
                    as_ints(found.bitmap_indexes@),
                    native@.len() as int,
                )
            },
            Err(error) => if tagged@.len() != replace@.len() {
                error == (ExportError::TaggedCount {
                    bitmaps: replace@.len() as usize,
                    native: native@.len() as usize,
                    tagged: tagged@.len() as usize,
                })
            } else {
                mapping(images_of(native@), images_of(tagged@), native@.len() as int) matches Err(
                    found,
                ) && found.is(error)
            },
        },
{
    if tagged.len() != replace.len() {
        return Err(
            ExportError::TaggedCount {
                bitmaps: replace.len(),
                native: native.len(),
                tagged: tagged.len(),
            },
        );
    }
    let ghost native_images = images_of(native@);
    let ghost tagged_images = images_of(tagged@);
    let count: usize = native.len();
    let mut bitmap_indexes: Vec<usize> = Vec::new();
    let mut replacement_required: Vec<bool> = Vec::new();
    for i in 0..count
        invariant
            replacement_required@ == Seq::new(i as nat, |k: int| false),
    {
        replacement_required.push(false);
    }
    assert(as_ints(bitmap_indexes@) =~= Seq::<int>::empty());
    for i in 0..count
        invariant
            count == native@.len(),
            count == tagged@.len(),
            count == replace@.len(),
            native_images == images_of(native@),
            tagged_images == images_of(tagged@),
            bitmap_indexes@.len() == i,
            mapping(native_images, tagged_images, i as int) == Ok::<_, SpecMappingError>(
                as_ints(bitmap_indexes@),
            ),
            replacement_required@.len() == count,
            replacement_required@ == to_replace(
                replace@,
                native_images,
                as_ints(bitmap_indexes@),
                i as int,
            ),
    {
        assert(native_images[i as int] == native@[i as int].model());
        assert(tagged_images[i as int] == tagged@[i as int].model());
        let ghost before = bitmap_indexes@;
        if !same_geometry(&native[i], &tagged[i]) {
            proof {
                lemma_mapping_stops(native_images, tagged_images, i + 1, count as int);
            }
            return Err(ExportError::GeometryChanged);
        }
        let found = match &tagged[i].id {
            None => {
                proof {
                    lemma_mapping_stops(native_images, tagged_images, i + 1, count as int);
                }
                return Err(ExportError::MissingId);
            },
            Some(id) => match marked_index(id.as_str(), count) {
                None => {
                    proof {
                        lemma_mapping_stops(native_images, tagged_images, i + 1, count as int);
                    }
                    let name = id.as_str().to_owned();
                    return Err(ExportError::UnknownId(name));
                },
                Some(index) => index,
            },
        };
        if holds_index(&bitmap_indexes, found) {
            proof {
                lemma_mapping_stops(native_images, tagged_images, i + 1, count as int);
            }
            return Err(ExportError::RepeatedId);
        }
        replacement_required.set(found, replace[found] || !native[i].embedded_data);
        bitmap_indexes.push(found);
        proof {
            assert(as_ints(bitmap_indexes@) =~= as_ints(before).push(found as int));
            lemma_to_replace_prefix(
                replace@,
                native_images,
                as_ints(before),
                as_ints(bitmap_indexes@),
                i as int,
            );
        }
    }
    Ok(BitmapMapping { bitmap_indexes, replacement_required })
}

proof fn lemma_mapping_stops(native: Seq<SpecImage>, tagged: Seq<SpecImage>, from: int, to: int)
    requires
        from <= to,
        mapping(native, tagged, from) is Err,
    ensures
        mapping(native, tagged, to) == mapping(native, tagged, from),
    decreases to - from,
{
    if from < to {
        lemma_mapping_stops(native, tagged, from, to - 1);
    }
}

proof fn lemma_to_replace_prefix(
    replace: Seq<bool>,
    native: Seq<SpecImage>,
    shorter: Seq<int>,
    longer: Seq<int>,
    count: int,
)
    requires
        0 <= count <= shorter.len(),
        shorter.len() <= longer.len(),
        forall|k: int| 0 <= k < shorter.len() ==> shorter[k] == longer[k],
    ensures
        to_replace(replace, native, shorter, count) == to_replace(replace, native, longer, count),
    decreases count,
{
    if count > 0 {
        lemma_to_replace_prefix(replace, native, shorter, longer, count - 1);
    }
}

// ---------------------------------------------------------------------------
// Pictures
// ---------------------------------------------------------------------------

/// Whether the bytes are a PNG file whose color type has an alpha channel.
pub open spec fn is_png_with_alpha(png: Seq<u8>) -> bool {
    &&& png.len() >= 26
    &&& stands_at(png, png_signature(), 0)
    &&& png[25] == 4 || png[25] == 6
}

/// What a PNG file starts with.
pub open spec fn png_signature() -> Seq<u8> {
    seq![0x89u8, 0x50u8, 0x4eu8, 0x47u8, 0x0du8, 0x0au8, 0x1au8, 0x0au8]
}

/// Whether the picture of the bitmap at `index` keeps its alpha channel.
pub fn check_png(png: &[u8], index: usize) -> (res: Result<(), ExportError>)
    requires
        index < usize::MAX,
    ensures
        res == (if is_png_with_alpha(png@) {
            Ok(())
        } else {
            Err::<(), _>(ExportError::NoAlpha { number: (index + 1) as usize })
        }),
{
    let signature: [u8; 8] = [0x89, 0x50, 0x4e, 0x47, 0x0d, 0x0a, 0x1a, 0x0a];
    assert(signature@ =~= png_signature());
    if png.len() < 26 || !bytes_stand_at(png, signature.as_slice(), 0) || !(png[25] == 4 || png[25]
        == 6) {
        return Err(ExportError::NoAlpha { number: index + 1 });
    }
    Ok(())
}

/// The character that stands for six bits in Base64.
pub open spec fn base64_digit(value: int) -> u8 {
    if value < 26 {
        (0x41 + value) as u8
    } else if value < 52 {
        (0x61 + value - 26) as u8
    } else if value < 62 {
        (0x30 + value - 52) as u8
    } else if value == 62 {
        0x2b
    } else {
        0x2f
    }
}

/// The Base64 form of `bytes`: four characters for three bytes, padded at the end.
pub open spec fn base64_of(bytes: Seq<u8>) -> Seq<u8>
    decreases bytes.len(),
{
    if bytes.len() == 0 {
        Seq::empty()
    } else if bytes.len() == 1 {
        seq![base64_digit(bytes[0] as int / 4), base64_digit(bytes[0] % 4 * 16), 0x3du8, 0x3du8]
    } else if bytes.len() == 2 {
        seq![
            base64_digit(bytes[0] as int / 4),
            base64_digit(bytes[0] % 4 * 16 + bytes[1] / 16),
            base64_digit(bytes[1] % 16 * 4),
            0x3du8,
        ]
    } else {
        seq![
            base64_digit(bytes[0] as int / 4),
            base64_digit(bytes[0] % 4 * 16 + bytes[1] / 16),
            base64_digit(bytes[1] % 16 * 4 + bytes[2] / 64),
            base64_digit(bytes[2] as int % 64),
        ] + base64_of(bytes.skip(3))
    }
}

/// Whether the Base64 form of so many bytes fits into memory.
pub open spec fn fits_base64(len: nat) -> bool {
    (len + 2) / 3 * 4 <= isize::MAX
}

/// `base64::Engine::encode` of the standard engine: the standard alphabet with padding.
#[verifier::external_body]
fn encode_base64(bytes: &[u8]) -> (res: Vec<u8>)
    requires
        fits_base64(bytes@.len()),
    ensures
        res@ == base64_of(bytes@),
{
    base64::engine::general_purpose::STANDARD.encode(bytes).into_bytes()
}

/// The reference that embeds a picture.
pub open spec fn embedded_reference(png: Seq<u8>) -> Seq<u8> {
    ascii("data:image/png;base64,"@) + base64_of(png)
}

fn embed(png: &[u8]) -> (res: Vec<u8>)
    requires
        fits_base64(png@.len()),
    ensures
        res@ == embedded_reference(png@),
{
    let mut res = ascii_bytes("data:image/png;base64,");
    let encoded = encode_base64(png);
    append_range(&mut res, encoded.as_slice(), 0, encoded.len());
    assert(res@ =~= embedded_reference(png@));
    res
}

// ---------------------------------------------------------------------------
// Placing a bitmap
// ---------------------------------------------------------------------------

/// Finds the numbers of a coordinate of an image tag; a tag may lack the attribute.
pub fn read_coordinate(tag: &[u8], name: &[u8]) -> (res: Result<Option<NumberScan>, SvgFault>)
    ensures
        match res {
            Ok(Some(scan)) => spec_attribute_range(tag@, name@) matches Ok(Some((from, to))) && (
                texts(scan.numbers@),
                scan.fault,
            ) == numbers_from(tag@.subrange(from, to), 0),
            Ok(None) => spec_attribute_range(tag@, name@) == Ok::<_, SvgFault>(
                None::<(int, int)>,
            ),
            Err(fault) => spec_attribute_range(tag@, name@) == Err::<Option<(int, int)>, _>(
                fault,
            ),
        },
{
    match svg_attribute_range(tag, name) {
        Err(fault) => Err(fault),
        Ok(None) => Ok(None),
        Ok(Some((from, to))) => {
            let raw = copy_range(tag, from, to);
            Ok(Some(parse_svg_numbers(raw.as_slice())))
        },
    }
}

/// Scans the transform of an image tag; a tag may lack the attribute.
pub fn read_transform(tag: &[u8]) -> (res: Result<Option<TransformScan>, SvgFault>)
    ensures
        match res {
            Ok(Some(scan)) => spec_attribute_range(tag@, ascii("transform"@)) matches Ok(
                Some((from, to)),
            ) && scan.model() == transform_from(tag@.subrange(from, to), 0),
            Ok(None) => spec_attribute_range(tag@, ascii("transform"@)) == Ok::<_, SvgFault>(
                None::<(int, int)>,
            ),
            Err(fault) => spec_attribute_range(tag@, ascii("transform"@)) == Err::<
                Option<(int, int)>,
                _,
            >(fault),
        },
{
    let name = ascii_bytes("transform");
    match svg_attribute_range(tag, name.as_slice()) {
        Err(fault) => Err(fault),
        Ok(None) => Ok(None),
        Ok(Some((from, to))) => {
            let raw = copy_range(tag, from, to);
            Ok(Some(parse_svg_transform(raw.as_slice())))
        },
    }
}

/// Whether an image of that size can be placed.
pub fn check_size(width: u64, height: u64) -> (res: Result<(), SvgFault>)
    ensures
        res == (if not_above_zero(width) || not_above_zero(height) {
            Err::<(), _>(SvgFault::EmptyRectangle)
        } else {
            Ok(())
        }),
{
    if is_not_above_zero(width) || is_not_above_zero(height) {
        Err(SvgFault::EmptyRectangle)
    } else {
        Ok(())
    }
}

/// Where a bitmap is put in place of an image.
pub enum Placement {
    /// Where the image is.
    Keep,
    /// At the origin of a matrix, with a size, as texts.
    At { width: Vec<u8>, height: Vec<u8>, matrix: Vec<u8> },
}

/// A placement, by its content.
pub enum SpecPlacement {
    Keep,
    At { width: Seq<u8>, height: Seq<u8>, matrix: Seq<u8> },
}

impl Placement {
    pub open spec fn model(&self) -> SpecPlacement {
        match self {
            Placement::Keep => SpecPlacement::Keep,
            Placement::At { width, height, matrix } => SpecPlacement::At {
                width: width@,
                height: height@,
                matrix: matrix@,
            },
        }
    }
}

/// `tag` with attributes set one after the other.
pub open spec fn with_attributes(
    tag: Seq<u8>,
    attributes: Seq<(Seq<u8>, Seq<u8>)>,
    count: int,
) -> Result<Seq<u8>, SvgFault>
    decreases count,
{
    if count <= 0 {
        Ok(tag)
    } else {
        match with_attributes(tag, attributes, count - 1) {
            Err(fault) => Err(fault),
            Ok(set) => spec_set_attribute(
                set,
                attributes[count - 1].0,
                attributes[count - 1].1,
            ),
        }
    }
}

/// The attributes of an image that is placed by a matrix.
pub open spec fn placement_attributes(
    width: Seq<u8>,
    height: Seq<u8>,
    matrix: Seq<u8>,
) -> Seq<(Seq<u8>, Seq<u8>)> {
    seq![
        (ascii("x"@), ascii("0"@)),
        (ascii("y"@), ascii("0"@)),
        (ascii("width"@), width),
        (ascii("height"@), height),
        (ascii("transform"@), matrix),
        (ascii("preserveAspectRatio"@), ascii("none"@)),
    ]
}

/// An image tag that was placed.
pub open spec fn placed_tag(tag: Seq<u8>, placement: SpecPlacement) -> Result<Seq<u8>, SvgFault> {
    match placement {
        SpecPlacement::Keep => Ok(tag),
        SpecPlacement::At { width, height, matrix } => with_attributes(
            tag,
            placement_attributes(width, height, matrix),
            6,
        ),
    }
}

/// Puts an image tag where a bitmap belongs.
pub fn place_bitmap_svg_tag(tag: &[u8], placement: &Placement) -> (res: Result<Vec<u8>, SvgFault>)
    ensures
        match res {
            Ok(placed) => placed_tag(tag@, placement.model()) == Ok::<_, SvgFault>(placed@),
            Err(fault) => placed_tag(tag@, placement.model()) == Err::<Seq<u8>, _>(fault),
        },
{
    match placement {
        Placement::Keep => {
            let same = copy_range(tag, 0, tag.len());
            assert(same@ =~= tag@);
            Ok(same)
        },
        Placement::At { width, height, matrix } => {
            let names: [&str; 6] = ["x", "y", "width", "height", "transform", "preserveAspectRatio"];
            let zero = ascii_bytes("0");
            let none = ascii_bytes("none");
            let ghost attributes = placement_attributes(width@, height@, matrix@);
            let mut placed = copy_range(tag, 0, tag.len());
            assert(placed@ =~= tag@);
            for i in 0..6usize
                invariant
                    names@.len() == 6,
                    forall|k: int|
                        0 <= k < 6 ==> ascii((#[trigger] names@[k])@) == attributes[k].0,
                    attributes == placement_attributes(width@, height@, matrix@),
                    placed_tag(tag@, placement.model()) == with_attributes(tag@, attributes, 6),
                    zero@ == ascii("0"@),
                    none@ == ascii("none"@),
                    with_attributes(tag@, attributes, i as int) == Ok::<_, SvgFault>(placed@),
            {
                let name = ascii_bytes(names[i]);
                let value: &Vec<u8> = if i == 2 {
                    width
                } else if i == 3 {
                    height
                } else if i == 4 {
                    matrix
                } else if i == 5 {
                    &none
                } else {
                    &zero
                };
                assert(value@ == attributes[i as int].1);
                assert(name@ == attributes[i as int].0);
                match set_svg_attribute(placed.as_slice(), name.as_slice(), value.as_slice()) {
                    Ok(set) => {
                        placed = set;
                    },
                    Err(fault) => {
                        proof {
                            lemma_attributes_stop(tag@, attributes, i + 1, 6);
                        }
                        return Err(fault);
                    },
                }
            }
            Ok(placed)
        },
    }
}

proof fn lemma_attributes_stop(
    tag: Seq<u8>,
    attributes: Seq<(Seq<u8>, Seq<u8>)>,
    from: int,
    to: int,
)
    requires
        from <= to,
        with_attributes(tag, attributes, from) is Err,
    ensures
        with_attributes(tag, attributes, to) == with_attributes(tag, attributes, from),
    decreases to - from,
{
    if from < to {
        lemma_attributes_stop(tag, attributes, from, to - 1);
    }
}

// ---------------------------------------------------------------------------
// Replacing the pictures
// ---------------------------------------------------------------------------

/// An image tag that was placed and made to refer to a picture.
pub open spec fn pictured_tag(
    tag: Seq<u8>,
    placement: Result<SpecPlacement, SvgFault>,
    png: Seq<u8>,
) -> Result<Seq<u8>, SvgFault> {
    match placement {
        Err(fault) => Err(fault),
        Ok(placement) => match placed_tag(tag, placement) {
            Err(fault) => Err(fault),
            Ok(placed) => spec_replace_href(placed, embedded_reference(png)),
        },
    }
}

pub open spec fn placement_of(placement: Result<Placement, SvgFault>) -> Result<
    SpecPlacement,
    SvgFault,
> {
    match placement {
        Ok(placement) => Ok(placement.model()),
        Err(fault) => Err(fault),
    }
}

/// What the first `count` image tags become: for each one, the tag itself or the tag
/// with the picture of its bitmap.
pub open spec fn new_tags(
    svg: Seq<u8>,
    images: Seq<SpecImage>,
    indexes: Seq<usize>,
    pngs: Seq<Option<Vec<u8>>>,
    placements: Seq<Result<Placement, SvgFault>>,
    count: int,
) -> Result<Seq<Seq<u8>>, SvgFault>
    decreases count,
{
    if count <= 0 {
        Ok(Seq::empty())
    } else {
        match new_tags(svg, images, indexes, pngs, placements, count - 1) {
            Err(fault) => Err(fault),
            Ok(before) => {
                let tag = svg.subrange(images[count - 1].start, images[count - 1].end);
                let index = indexes[count - 1] as int;
                if index >= pngs.len() {
                    Err(SvgFault::MissingPicture)
                } else {
                    match pngs[index] {
                        None => Ok(before.push(tag)),
                        Some(png) => match pictured_tag(
                            tag,
                            placement_of(placements[count - 1]),
                            png@,
                        ) {
                            Err(fault) => Err(fault),
                            Ok(pictured) => Ok(before.push(pictured)),
                        },
                    }
                }
            },
        }
    }
}

/// Where the `count`th image tag ends; the zeroth one is the start of the document.
pub open spec fn tag_end_before(images: Seq<SpecImage>, count: int) -> int {
    if count <= 0 {
        0
    } else {
        images[count - 1].end
    }
}

/// The document up to the end of the `count`th image tag, with other tags.
pub open spec fn spliced(
    svg: Seq<u8>,
    images: Seq<SpecImage>,
    tags: Seq<Seq<u8>>,
    count: int,
) -> Seq<u8>
    decreases count,
{
    if count <= 0 {
        Seq::empty()
    } else {
        spliced(svg, images, tags, count - 1) + svg.subrange(
            tag_end_before(images, count - 1),
            images[count - 1].start,
        ) + tags[count - 1]
    }
}

/// The document with other image tags; everything between the tags is as it was.
pub open spec fn with_tags(svg: Seq<u8>, images: Seq<SpecImage>, tags: Seq<Seq<u8>>) -> Seq<u8> {
    spliced(svg, images, tags, images.len() as int) + svg.subrange(
        tag_end_before(images, images.len() as int),
        svg.len() as int,
    )
}

/// Whether the image tags follow each other in a document of that length.
pub open spec fn in_order(images: Seq<SpecImage>, len: int) -> bool {
    &&& forall|i: int|
        0 <= i < images.len() ==> tag_end_before(images, i) <= (#[trigger] images[i]).start
            <= images[i].end <= len
    &&& tag_end_before(images, images.len() as int) <= len
}

/// Gives images the pictures of their bitmaps: `bitmap_indexes` says which bitmap an
/// image stands for, `pngs` holds the pictures of the bitmaps that are replaced, and
/// `placements` says where each of those images goes.
pub fn replace_svg_images_with_pngs(
    svg: &[u8],
    images: &Vec<SvgImageTag>,
    bitmap_indexes: &[usize],
    pngs: &Vec<Option<Vec<u8>>>,
    placements: &Vec<Result<Placement, SvgFault>>,
) -> (res: Result<Vec<u8>, SvgFault>)
    requires
        in_order(images_of(images@), svg@.len() as int),
        placements@.len() == images@.len(),
        forall|i: int|
            0 <= i < pngs@.len() && (#[trigger] pngs@[i]) is Some ==> fits_base64(
                pngs@[i].unwrap()@.len(),
            ),
    ensures
        match res {
            Ok(replaced) => {
                &&& images@.len() == bitmap_indexes@.len()
                &&& new_tags(
                    svg@,
                    images_of(images@),
                    bitmap_indexes@,
                    pngs@,
                    placements@,
                    images@.len() as int,
                ) matches Ok(tags) && replaced@ == with_tags(svg@, images_of(images@), tags)
            },
            Err(fault) => if images@.len() != bitmap_indexes@.len() {
                fault == SvgFault::MappingCount
            } else {
                new_tags(
                    svg@,
                    images_of(images@),
                    bitmap_indexes@,
                    pngs@,
                    placements@,
                    images@.len() as int,
                ) == Err::<Seq<Seq<u8>>, _>(fault)
            },
        },
{
    if images.len() != bitmap_indexes.len() {
        return Err(SvgFault::MappingCount);
    }
    let ghost all = images_of(images@);
    let ghost mut tags: Seq<Seq<u8>> = Seq::empty();
    let mut output: Vec<u8> = Vec::new();
    let mut cursor: usize = 0;
    let count: usize = images.len();
    for i in 0..count
        invariant
            all == images_of(images@),
            count == images@.len(),
            count == bitmap_indexes@.len(),
            placements@.len() == count,
            in_order(all, svg@.len() as int),
            forall|k: int|
                0 <= k < pngs@.len() && (#[trigger] pngs@[k]) is Some ==> fits_base64(
                    pngs@[k].unwrap()@.len(),
                ),
            tags.len() == i,
            new_tags(svg@, all, bitmap_indexes@, pngs@, placements@, i as int) == Ok::<
                _,
                SvgFault,
            >(tags),
            output@ == spliced(svg@, all, tags, i as int),
            cursor == tag_end_before(all, i as int),
            cursor <= svg@.len(),
    {
        let image = &images[i];
        assert(all[i as int] == image.model());
        let ghost before = output@;
        let ghost tags_before = tags;
        let index: usize = bitmap_indexes[i];
        if index >= pngs.len() {
            proof {
                lemma_new_tags_stop(
                    svg@,
                    all,
                    bitmap_indexes@,
                    pngs@,
                    placements@,
                    i + 1,
                    count as int,
                );
            }
            return Err(SvgFault::MissingPicture);
        }
        append_range(&mut output, svg, cursor, image.start);
        let tag = copy_range(svg, image.start, image.end);
        match &pngs[index] {
            Some(png) => {
                assert(pngs@[index as int] is Some);
                let pictured = match picture(tag.as_slice(), &placements[i], png.as_slice()) {
                    Ok(pictured) => pictured,
                    Err(fault) => {
                        proof {
                            lemma_new_tags_stop(
                                svg@,
                                all,
                                bitmap_indexes@,
                                pngs@,
                                placements@,
                                i + 1,
                                count as int,
                            );
                        }
                        return Err(fault);
                    },
                };
                append_range(&mut output, pictured.as_slice(), 0, pictured.len());
                assert(pictured@.subrange(0, pictured@.len() as int) =~= pictured@);
                proof {
                    tags = tags.push(pictured@);
                }
            },
            None => {
                append_range(&mut output, tag.as_slice(), 0, tag.len());
                assert(tag@.subrange(0, tag@.len() as int) =~= tag@);
                proof {
                    tags = tags.push(tag@);
                }
            },
        }
        proof {
            lemma_spliced_prefix(svg@, all, tags_before, tags, i as int);
            assert(output@ =~= spliced(svg@, all, tags, i + 1));
        }
        cursor = image.end;
    }
    append_range(&mut output, svg, cursor, svg.len());
    Ok(output)
}

fn picture(tag: &[u8], placement: &Result<Placement, SvgFault>, png: &[u8]) -> (res: Result<
    Vec<u8>,
    SvgFault,
>)
    requires
        fits_base64(png@.len()),
    ensures
        match res {
            Ok(pictured) => pictured_tag(tag@, placement_of(*placement), png@) == Ok::<
                _,
                SvgFault,
            >(pictured@),
            Err(fault) => pictured_tag(tag@, placement_of(*placement), png@) == Err::<Seq<u8>, _>(
                fault,
            ),
        },
{
    match placement {
        Err(fault) => Err(*fault),
        Ok(placement) => match place_bitmap_svg_tag(tag, placement) {
            Err(fault) => Err(fault),
            Ok(placed) => {
                let reference = embed(png);
                replace_svg_href(placed.as_slice(), reference.as_slice())
            },
        },
    }
}

proof fn lemma_new_tags_stop(
    svg: Seq<u8>,
    images: Seq<SpecImage>,
    indexes: Seq<usize>,
    pngs: Seq<Option<Vec<u8>>>,
    placements: Seq<Result<Placement, SvgFault>>,
    from: int,
    to: int,
)
    requires
        from <= to,
        new_tags(svg, images, indexes, pngs, placements, from) is Err,
    ensures
        new_tags(svg, images, indexes, pngs, placements, to) == new_tags(
            svg,
            images,
            indexes,
            pngs,
            placements,
            from,
        ),
    decreases to - from,
{
    if from < to {
        lemma_new_tags_stop(svg, images, indexes, pngs, placements, from, to - 1);
    }
}

proof fn lemma_spliced_prefix(
    svg: Seq<u8>,
    images: Seq<SpecImage>,
    shorter: Seq<Seq<u8>>,
    longer: Seq<Seq<u8>>,
    count: int,
)
    requires
        0 <= count <= shorter.len(),
        shorter.len() <= longer.len(),
        forall|k: int| 0 <= k < shorter.len() ==> shorter[k] == longer[k],
    ensures
        spliced(svg, images, shorter, count) == spliced(svg, images, longer, count),
    decreases count,
{
    if count > 0 {
        lemma_spliced_prefix(svg, images, shorter, longer, count - 1);
    }
}

// ---------------------------------------------------------------------------
// What an export changes
// ---------------------------------------------------------------------------

proof fn lemma_spliced_unchanged(
    svg: Seq<u8>,
    images: Seq<SpecImage>,
    tags: Seq<Seq<u8>>,
    count: int,
)
    requires
        in_order(images, svg.len() as int),
        0 <= count <= images.len(),
        tags.len() == images.len(),
        forall|k: int|
            0 <= k < count ==> #[trigger] tags[k] == svg.subrange(images[k].start, images[k].end),
    ensures
        spliced(svg, images, tags, count) == svg.subrange(0, tag_end_before(images, count)),
        0 <= tag_end_before(images, count) <= svg.len(),
    decreases count,
{
    if count > 0 {
        lemma_spliced_unchanged(svg, images, tags, count - 1);
        let image = images[count - 1];
        assert(tag_end_before(images, count - 1) <= image.start <= image.end <= svg.len());
        assert(tags[count - 1] == svg.subrange(image.start, image.end));
        assert(spliced(svg, images, tags, count) =~= svg.subrange(0, image.end));
    } else {
        assert(svg.subrange(0, 0) =~= Seq::<u8>::empty());
    }
}

proof fn lemma_tags_unchanged(
    svg: Seq<u8>,
    images: Seq<SpecImage>,
    indexes: Seq<usize>,
    pngs: Seq<Option<Vec<u8>>>,
    placements: Seq<Result<Placement, SvgFault>>,
    count: int,
)
    requires
        0 <= count <= images.len(),
        indexes.len() == images.len(),
        forall|k: int|
            0 <= k < count ==> (#[trigger] indexes[k]) < pngs.len() && pngs[indexes[k] as int] is None,
    ensures
        new_tags(svg, images, indexes, pngs, placements, count) matches Ok(tags) && {
            &&& tags.len() == count
            &&& forall|k: int|
                0 <= k < count ==> #[trigger] tags[k] == svg.subrange(
                    images[k].start,
                    images[k].end,
                )
        },
    decreases count,
{
    if count > 0 {
        lemma_tags_unchanged(svg, images, indexes, pngs, placements, count - 1);
        assert(indexes[count - 1] < pngs.len());
    }
}

/// A document in which no picture is replaced stays byte for byte as it was.
pub proof fn law_nothing_replaced_nothing_changed(
    svg: Seq<u8>,
    images: Seq<SpecImage>,
    indexes: Seq<usize>,
    pngs: Seq<Option<Vec<u8>>>,
    placements: Seq<Result<Placement, SvgFault>>,
)
    requires
        in_order(images, svg.len() as int),
        indexes.len() == images.len(),
        forall|k: int|
            0 <= k < images.len() ==> (#[trigger] indexes[k]) < pngs.len()
                && pngs[indexes[k] as int] is None,
    ensures
        new_tags(svg, images, indexes, pngs, placements, images.len() as int) matches Ok(tags)
            && with_tags(svg, images, tags) == svg,
{
    let count = images.len() as int;
    lemma_tags_unchanged(svg, images, indexes, pngs, placements, count);
    let tags = new_tags(svg, images, indexes, pngs, placements, count).unwrap();
    lemma_spliced_unchanged(svg, images, tags, count);
    assert(with_tags(svg, images, tags) =~= svg);
}

/// An image without a replacement keeps its tag, whatever happens to the others.
pub proof fn law_other_images_are_untouched(
    svg: Seq<u8>,
    images: Seq<SpecImage>,
    indexes: Seq<usize>,
    pngs: Seq<Option<Vec<u8>>>,
    placements: Seq<Result<Placement, SvgFault>>,
    count: int,
    k: int,
)
    requires
        0 <= k < count <= images.len(),
        indexes.len() == images.len(),
        new_tags(svg, images, indexes, pngs, placements, count) is Ok,
        indexes[k] < pngs.len(),
        pngs[indexes[k] as int] is None,
    ensures
        new_tags(svg, images, indexes, pngs, placements, count).unwrap().len() == count,
        new_tags(svg, images, indexes, pngs, placements, count).unwrap()[k] == svg.subrange(
            images[k].start,
            images[k].end,
        ),
    decreases count,
{
    lemma_tag_count(svg, images, indexes, pngs, placements, count - 1);
    if k < count - 1 {
        law_other_images_are_untouched(svg, images, indexes, pngs, placements, count - 1, k);
    }
}

proof fn lemma_tag_count(
    svg: Seq<u8>,
    images: Seq<SpecImage>,
    indexes: Seq<usize>,
    pngs: Seq<Option<Vec<u8>>>,
    placements: Seq<Result<Placement, SvgFault>>,
    count: int,
)
    requires
        0 <= count,
    ensures
        new_tags(svg, images, indexes, pngs, placements, count) matches Ok(tags) ==> tags.len()
            == count,
    decreases count,
{
    if count > 0 {
        lemma_tag_count(svg, images, indexes, pngs, placements, count - 1);
    }
}

proof fn lemma_base64_is_plain(bytes: Seq<u8>)
    ensures
        forall|i: int|
            0 <= i < base64_of(bytes).len() ==> #[trigger] base64_of(bytes)[i] != 0x22
                && base64_of(bytes)[i] != 0x27,
    decreases bytes.len(),
{
    if bytes.len() >= 3 {
        lemma_base64_is_plain(bytes.skip(3));
        let rest = base64_of(bytes.skip(3));
        let all = base64_of(bytes);
        assert forall|i: int| 0 <= i < all.len() implies #[trigger] all[i] != 0x22 && all[i]
            != 0x27 by {
            if i >= 4 {
                assert(all[i] == rest[i - 4]);
            }
        }
    }
}

proof fn lemma_reference_is_plain(png: Seq<u8>)
    ensures
        !embedded_reference(png).contains(0x22),
        !embedded_reference(png).contains(0x27),
{
    reveal_strlit("data:image/png;base64,");
    lemma_base64_is_plain(png);
    let reference = embedded_reference(png);
    let prefix = ascii("data:image/png;base64,"@);
    assert forall|i: int| 0 <= i < reference.len() implies #[trigger] reference[i] != 0x22
        && reference[i] != 0x27 by {
        if i >= prefix.len() {
            assert(reference[i] == base64_of(png)[i - prefix.len()]);
        }
    }
}

/// The reference that was given to an image is the one that is read from it.
pub proof fn law_embedded_picture_reads_back(tag: Seq<u8>, png: Seq<u8>)
    requires
        spec_replace_href(tag, embedded_reference(png)) is Ok,
    ensures
        ({
            let set = spec_replace_href(tag, embedded_reference(png)).unwrap();
            let name = if spec_attribute_range(tag, ascii("xlink:href"@)) matches Ok(Some(_)) {
                ascii("xlink:href"@)
            } else {
                ascii("href"@)
            };
            spec_attribute_range(set, name) matches Ok(Some((from, to))) && 0 <= from <= to
                <= set.len() && set.subrange(from, to) == embedded_reference(png)
        }),
{
    let reference = embedded_reference(png);
    lemma_reference_is_plain(png);
    let linked = ascii("xlink:href"@);
    let plain = ascii("href"@);
    lemma_value_is_quoted(tag, attributes_start(tag), linked);
    lemma_value_is_quoted(tag, attributes_start(tag), plain);
    if spec_attribute_range(tag, linked) matches Ok(Some(_)) {
        law_attribute_reads_back(tag, linked, reference);
    } else {
        law_attribute_reads_back(tag, plain, reference);
    }
}

// ---------------------------------------------------------------------------
// Every picture on its image
// ---------------------------------------------------------------------------

proof fn lemma_to_replace(
    replace: Seq<bool>,
    native: Seq<SpecImage>,
    indexes: Seq<int>,
    count: int,
)
    requires
        0 <= count <= indexes.len(),
        indexes.no_duplicates(),
        forall|k: int| 0 <= k < indexes.len() ==> 0 <= #[trigger] indexes[k] < replace.len(),
    ensures
        to_replace(replace, native, indexes, count).len() == replace.len(),
        forall|k: int|
            0 <= k < count ==> to_replace(replace, native, indexes, count)[#[trigger] indexes[k]]
                == (replace[indexes[k]] || !native[k].embedded_data),
    decreases count,
{
    if count > 0 {
        lemma_to_replace(replace, native, indexes, count - 1);
        assert forall|k: int| 0 <= k < count implies to_replace(replace, native, indexes, count)[
        #[trigger] indexes[k]] == (replace[indexes[k]] || !native[k].embedded_data) by {
            if k < count - 1 {
                assert(indexes[k] != indexes[count - 1]);
            }
        }
    }
}

proof fn lemma_every_index_is_there(indexes: Seq<int>, i: int)
    requires
        indexes.no_duplicates(),
        forall|k: int| 0 <= k < indexes.len() ==> 0 <= #[trigger] indexes[k] < indexes.len(),
        0 <= i < indexes.len(),
    ensures
        indexes.contains(i),
{
    let all = vstd::set_lib::set_int_range(0, indexes.len() as int);
    vstd::set_lib::lemma_int_range(0, indexes.len() as int);
    indexes.unique_seq_to_set();
    vstd::seq_lib::seq_to_set_is_finite(indexes);
    assert(indexes.to_set().subset_of(all)) by {
        assert forall|x: int| indexes.to_set().contains(x) implies all.contains(x) by {
            let k = choose|k: int| 0 <= k < indexes.len() && indexes[k] == x;
            assert(indexes[k] == x);
        }
    }
    vstd::set_lib::lemma_subset_equality(indexes.to_set(), all);
    assert(all.contains(i));
    assert(indexes.to_set().contains(i));
}

/// Every bitmap that has to be replaced is replaced, and so is every bitmap whose image does
/// not hold its picture. No other bitmap is. Every bitmap has its image.
pub proof fn law_bitmaps_are_replaced_where_they_have_to(
    replace: Seq<bool>,
    native: Seq<SpecImage>,
    tagged: Seq<SpecImage>,
)
    requires
        native.len() == replace.len(),
        mapping(native, tagged, native.len() as int) is Ok,
    ensures
        ({
            let indexes = mapping(native, tagged, native.len() as int)->Ok_0;
            let required = to_replace(replace, native, indexes, native.len() as int);
            &&& required.len() == replace.len()
            &&& forall|k: int|
                0 <= k < native.len() ==> (required[#[trigger] indexes[k]] <==> replace[indexes[k]]
                    || !native[k].embedded_data)
            &&& forall|i: int|
                0 <= i < replace.len() && #[trigger] replace[i] ==> required[i]
            &&& forall|i: int|
                0 <= i < replace.len() ==> #[trigger] indexes.contains(i)
        }),
{
    let indexes = mapping(native, tagged, native.len() as int)->Ok_0;
    law_mapping_is_one_to_one(native, tagged, native.len() as int);
    lemma_to_replace(replace, native, indexes, native.len() as int);
    assert forall|i: int| 0 <= i < replace.len() implies #[trigger] indexes.contains(i) by {
        lemma_every_index_is_there(indexes, i);
    }
    let required = to_replace(replace, native, indexes, native.len() as int);
    assert forall|i: int| 0 <= i < replace.len() && #[trigger] replace[i] implies required[i] by {
        assert(indexes.contains(i));
        let k = choose|k: int| 0 <= k < indexes.len() && indexes[k] == i;
        assert(required[indexes[k]]);
    }
}

/// An image stands for the bitmap that its mark names, and stands in the marked document
/// where it stands in the other one.
pub proof fn law_images_are_mapped_by_their_marks(
    native: Seq<SpecImage>,
    tagged: Seq<SpecImage>,
    count: int,
)
    requires
        0 <= count <= native.len() <= usize::MAX,
        mapping(native, tagged, count) is Ok,
    ensures
        ({
            let indexes = mapping(native, tagged, count)->Ok_0;
            &&& indexes.len() == count
            &&& forall|k: int|
                0 <= k < count ==> {
                    &&& (#[trigger] tagged[k]).geometry == native[k].geometry
                    &&& tagged[k].id matches Some(id) && marked_number(id, native.len()) == Some(
                        (indexes[k] + 1) as nat,
                    )
                }
            &&& forall|k: int, bitmap: nat|
                0 <= k < count && bitmap < native.len() && (#[trigger] tagged[k]).id == Some(
                    #[trigger] spec_marker_name(bitmap + 1),
                ) ==> indexes[k] == bitmap
        }),
    decreases count,
{
    if count > 0 {
        law_images_are_mapped_by_their_marks(native, tagged, count - 1);
        let before = mapping(native, tagged, count - 1)->Ok_0;
        let indexes = mapping(native, tagged, count)->Ok_0;
        assert forall|k: int| 0 <= k < count - 1 implies #[trigger] indexes[k] == before[k] by {}
        assert forall|k: int, bitmap: nat|
            0 <= k < count && bitmap < native.len() && (#[trigger] tagged[k]).id == Some(
                #[trigger] spec_marker_name(bitmap + 1),
            ) implies indexes[k] == bitmap by {
            law_markers_read_back(bitmap + 1, native.len());
        }
    }
}

/// A document whose images are marked with different bitmaps, and are otherwise where they
/// were, is mapped as it is marked.
pub proof fn law_marked_documents_are_mapped(
    native: Seq<SpecImage>,
    tagged: Seq<SpecImage>,
    bitmaps: Seq<int>,
    count: int,
)
    requires
        0 <= count <= native.len() <= usize::MAX,
        bitmaps.len() == native.len(),
        bitmaps.no_duplicates(),
        forall|k: int| 0 <= k < native.len() ==> 0 <= #[trigger] bitmaps[k] < native.len(),
        forall|k: int|
            0 <= k < native.len() ==> (#[trigger] tagged[k]).geometry == native[k].geometry
                && tagged[k].id == Some(spec_marker_name((bitmaps[k] + 1) as nat)),
    ensures
        mapping(native, tagged, count) == Ok::<_, SpecMappingError>(bitmaps.take(count)),
    decreases count,
{
    if count > 0 {
        law_marked_documents_are_mapped(native, tagged, bitmaps, count - 1);
        let before = bitmaps.take(count - 1);
        let bitmap = bitmaps[count - 1];
        law_markers_read_back((bitmap + 1) as nat, native.len());
        assert(tagged[count - 1].geometry == native[count - 1].geometry);
        if before.contains(bitmap) {
            let k = choose|k: int| 0 <= k < before.len() && before[k] == bitmap;
            assert(bitmaps[k] == bitmaps[count - 1]);
        }
        assert(bitmaps.take(count) =~= before.push(bitmap));
    } else {
        assert(bitmaps.take(0) =~= Seq::<int>::empty());
    }
}

/// An image of a bitmap that has a picture is placed as it is to be placed and shows that
/// picture: the picture of its own bitmap.
pub proof fn law_images_get_the_pictures_of_their_bitmaps(
    svg: Seq<u8>,
    images: Seq<SpecImage>,
    indexes: Seq<usize>,
    pngs: Seq<Option<Vec<u8>>>,
    placements: Seq<Result<Placement, SvgFault>>,
    count: int,
    k: int,
)
    requires
        0 <= k < count <= images.len(),
        indexes.len() == images.len(),
        new_tags(svg, images, indexes, pngs, placements, count) is Ok,
        indexes[k] < pngs.len(),
        pngs[indexes[k] as int] is Some,
    ensures
        ({
            let tag = svg.subrange(images[k].start, images[k].end);
            let shown = new_tags(svg, images, indexes, pngs, placements, count).unwrap()[k];
            let reference = embedded_reference(pngs[indexes[k] as int].unwrap()@);
            &&& placements[k] is Ok
            &&& placed_tag(tag, placements[k]->Ok_0.model()) matches Ok(placed) && if attribute_value(
                placed,
                ascii("xlink:href"@),
            ) matches Ok(Some(_)) {
                attribute_value(shown, ascii("xlink:href"@)) == Ok::<_, SvgFault>(Some(reference))
            } else {
                attribute_value(shown, ascii("href"@)) == Ok::<_, SvgFault>(Some(reference))
            }
        }),
    decreases count,
{
    lemma_tag_count(svg, images, indexes, pngs, placements, count - 1);
    if k < count - 1 {
        law_images_get_the_pictures_of_their_bitmaps(
            svg,
            images,
            indexes,
            pngs,
            placements,
            count - 1,
            k,
        );
    } else {
        let tag = svg.subrange(images[k].start, images[k].end);
        let png = pngs[indexes[k] as int].unwrap()@;
        let placed = placed_tag(tag, placements[k]->Ok_0.model())->Ok_0;
        law_embedded_picture_reads_back(placed, png);
    }
}

// ---------------------------------------------------------------------------
// Everything else as it was
// ---------------------------------------------------------------------------

proof fn lemma_spliced_grows(
    svg: Seq<u8>,
    images: Seq<SpecImage>,
    tags: Seq<Seq<u8>>,
    from: int,
    to: int,
)
    requires
        0 <= from <= to,
    ensures
        spliced(svg, images, tags, from).len() <= spliced(svg, images, tags, to).len(),
        forall|i: int|
            0 <= i < spliced(svg, images, tags, from).len() ==> #[trigger] spliced(
                svg,
                images,
                tags,
                to,
            )[i] == spliced(svg, images, tags, from)[i],
    decreases to - from,
{
    if from < to {
        lemma_spliced_grows(svg, images, tags, from, to - 1);
    }
}

/// A document with other image tags has, for each image, what stood between the image before
/// it and the image itself, and then the new tag; behind the last one it goes on as it did.
pub proof fn law_documents_keep_what_is_between_their_images(
    svg: Seq<u8>,
    images: Seq<SpecImage>,
    tags: Seq<Seq<u8>>,
    k: int,
) -> (at: int)
    requires
        in_order(images, svg.len() as int),
        tags.len() == images.len(),
        0 <= k < images.len(),
    ensures
        ({
            let whole = with_tags(svg, images, tags);
            let previous = if k == 0 {
                0
            } else {
                images[k - 1].end
            };
            let gap = svg.subrange(previous, images[k].start);
            &&& k == 0 ==> at == 0
            &&& 0 <= at
            &&& at + gap.len() + tags[k].len() <= whole.len()
            &&& whole.subrange(at, at + gap.len()) == gap
            &&& whole.subrange(at + gap.len(), at + gap.len() + tags[k].len()) == tags[k]
            &&& k == images.len() - 1 ==> whole.skip(at + gap.len() + tags[k].len()) == svg.skip(
                images[k].end,
            )
        }),
{
    let count = images.len() as int;
    let at = spliced(svg, images, tags, k).len() as int;
    let whole = with_tags(svg, images, tags);
    let gap = svg.subrange(tag_end_before(images, k), images[k].start);
    let here = spliced(svg, images, tags, k + 1);
    lemma_spliced_grows(svg, images, tags, k + 1, count);
    assert(tag_end_before(images, k) <= images[k].start);
    assert(0 <= tag_end_before(images, k)) by {
        if k > 0 {
            lemma_ends_are_not_negative(images, svg.len() as int, k - 1);
        }
    }
    assert(here =~= spliced(svg, images, tags, k) + gap + tags[k]);
    assert(whole.subrange(at, at + gap.len()) =~= gap);
    assert(whole.subrange(at + gap.len(), at + gap.len() + tags[k].len()) =~= tags[k]);
    if k == count - 1 {
        assert(whole.skip(at + gap.len() + tags[k].len()) =~= svg.skip(images[k].end));
    }
    at
}

proof fn lemma_ends_are_not_negative(images: Seq<SpecImage>, len: int, k: int)
    requires
        in_order(images, len),
        0 <= k < images.len(),
    ensures
        0 <= images[k].start <= images[k].end <= len,
    decreases k,
{
    assert(tag_end_before(images, k) <= images[k].start <= images[k].end <= len);
    if k > 0 {
        lemma_ends_are_not_negative(images, len, k - 1);
    }
}

// ---------------------------------------------------------------------------
// Where images are put
// ---------------------------------------------------------------------------

proof fn lemma_with_attributes(
    tag: Seq<u8>,
    attributes: Seq<(Seq<u8>, Seq<u8>)>,
    count: int,
)
    requires
        is_regular_tag(tag),
        0 <= count <= attributes.len(),
        forall|k: int|
            0 <= k < attributes.len() ==> is_attribute_name((#[trigger] attributes[k]).0)
                && is_plain_value(attributes[k].1),
        forall|i: int, j: int|
            0 <= i < j < attributes.len() ==> (#[trigger] attributes[i]).0
                != (#[trigger] attributes[j]).0,
    ensures
        with_attributes(tag, attributes, count) is Ok,
        ({
            let set = with_attributes(tag, attributes, count)->Ok_0;
            &&& is_regular_tag(set)
            &&& forall|k: int|
                0 <= k < count ==> attribute_value(set, (#[trigger] attributes[k]).0) == Ok::<
                    _,
                    SvgFault,
                >(Some(attributes[k].1))
            &&& forall|other: Seq<u8>|
                (forall|k: int| 0 <= k < count ==> (#[trigger] attributes[k]).0 != other)
                    ==> #[trigger] attribute_value(set, other) == attribute_value(tag, other)
        }),
    decreases count,
{
    if count > 0 {
        lemma_with_attributes(tag, attributes, count - 1);
        let before = with_attributes(tag, attributes, count - 1)->Ok_0;
        let (name, value) = attributes[count - 1];
        assert(is_attribute_name(attributes[count - 1].0));
        law_setting_keeps_a_tag_regular(before, name, value);
        law_regular_tags_take_attributes(before, name, value);
        law_attribute_reads_back(before, name, value);
        let set = with_attributes(tag, attributes, count)->Ok_0;
        assert forall|k: int| 0 <= k < count implies attribute_value(
            set,
            (#[trigger] attributes[k]).0,
        ) == Ok::<_, SvgFault>(Some(attributes[k].1)) by {
            if k < count - 1 {
                assert(attributes[k].0 != attributes[count - 1].0);
                law_setting_keeps_other_attributes(before, name, value, attributes[k].0);
            }
        }
        assert forall|other: Seq<u8>|
            (forall|k: int| 0 <= k < count ==> (
            #[trigger] attributes[k]).0 != other) implies #[trigger] attribute_value(set, other)
            == attribute_value(tag, other) by {
            assert(attributes[count - 1].0 != other);
            law_setting_keeps_other_attributes(before, name, value, other);
        }
    }
}

proof fn lemma_placement_names()
    ensures
        is_attribute_name(ascii("x"@)),
        is_attribute_name(ascii("y"@)),
        is_attribute_name(ascii("width"@)),
        is_attribute_name(ascii("height"@)),
        is_attribute_name(ascii("transform"@)),
        is_attribute_name(ascii("preserveAspectRatio"@)),
        is_plain_value(ascii("0"@)),
        is_plain_value(ascii("none"@)),
        ascii("x"@).len() == 1 && ascii("y"@).len() == 1 && ascii("x"@)[0] != ascii("y"@)[0],
        ascii("width"@).len() == 5 && ascii("height"@).len() == 6,
        ascii("transform"@).len() == 9 && ascii("preserveAspectRatio"@).len() == 19,
        ascii("href"@).len() == 4 && ascii("xlink:href"@).len() == 10 && ascii("id"@).len() == 2,
{
    reveal_strlit("x");
    reveal_strlit("y");
    reveal_strlit("width");
    reveal_strlit("height");
    reveal_strlit("transform");
    reveal_strlit("preserveAspectRatio");
    reveal_strlit("0");
    reveal_strlit("none");
    reveal_strlit("href");
    reveal_strlit("xlink:href");
    reveal_strlit("id");
}

/// An image that is placed by a matrix stands at the origin of that matrix, with its own width
/// and height, stretched to them; its other attributes, such as what it is called and what it
/// refers to, are as they were. An image that keeps its place keeps its tag.
pub proof fn law_images_are_placed_by_their_matrix(
    tag: Seq<u8>,
    width: Seq<u8>,
    height: Seq<u8>,
    matrix: Seq<u8>,
)
    requires
        is_regular_tag(tag),
        is_plain_value(width),
        is_plain_value(height),
        is_plain_value(matrix),
    ensures
        placed_tag(tag, SpecPlacement::Keep) == Ok::<_, SvgFault>(tag),
        placed_tag(tag, SpecPlacement::At { width, height, matrix }) is Ok,
        ({
            let placed = placed_tag(tag, SpecPlacement::At { width, height, matrix })->Ok_0;
            let value = |name: Seq<char>| attribute_value(placed, ascii(name));
            &&& is_regular_tag(placed)
            &&& value("x"@) == Ok::<_, SvgFault>(Some(ascii("0"@)))
            &&& value("y"@) == Ok::<_, SvgFault>(Some(ascii("0"@)))
            &&& value("width"@) == Ok::<_, SvgFault>(Some(width))
            &&& value("height"@) == Ok::<_, SvgFault>(Some(height))
            &&& value("transform"@) == Ok::<_, SvgFault>(Some(matrix))
            &&& value("preserveAspectRatio"@) == Ok::<_, SvgFault>(Some(ascii("none"@)))
            &&& value("id"@) == attribute_value(tag, ascii("id"@))
            &&& value("href"@) == attribute_value(tag, ascii("href"@))
            &&& value("xlink:href"@) == attribute_value(tag, ascii("xlink:href"@))
        }),
{
    let attributes = placement_attributes(width, height, matrix);
    lemma_placement_names();
    assert forall|k: int| 0 <= k < attributes.len() implies is_attribute_name(
        (#[trigger] attributes[k]).0,
    ) && is_plain_value(attributes[k].1) by {
        if k == 0 {
        } else if k == 1 {
        } else if k == 2 {
        } else if k == 3 {
        } else if k == 4 {
        } else {
        }
    }
    assert forall|i: int, j: int| 0 <= i < j < attributes.len() implies (#[trigger] attributes[i]).0
        != (#[trigger] attributes[j]).0 by {
        assert(attributes[0].0 == ascii("x"@) && attributes[1].0 == ascii("y"@));
        assert(attributes[2].0 == ascii("width"@) && attributes[3].0 == ascii("height"@));
        assert(attributes[4].0 == ascii("transform"@));
        assert(attributes[5].0 == ascii("preserveAspectRatio"@));
    }
    lemma_with_attributes(tag, attributes, 6);
    assert(attributes[0] == (ascii("x"@), ascii("0"@)));
    assert(attributes[1] == (ascii("y"@), ascii("0"@)));
    assert(attributes[2] == (ascii("width"@), width));
    assert(attributes[3] == (ascii("height"@), height));
    assert(attributes[4] == (ascii("transform"@), matrix));
    assert(attributes[5] == (ascii("preserveAspectRatio"@), ascii("none"@)));
}

// ---------------------------------------------------------------------------
// Files and resolutions
// ---------------------------------------------------------------------------

/// The name of an exported file has nothing in it that a file name cannot have, and keeps all
/// the rest, in its place.
pub proof fn law_file_names_are_safe(stem: Seq<char>, i: int)
    requires
        0 <= i < stem.len(),
    ensures
        safe_name(stem).len() == stem.len(),
        ({
            let c = safe_name(stem)[i];
            &&& c != '<' && c != '>' && c != ':' && c != '"' && c != '/' && c != '\\' && c != '|'
                && c != '?' && c != '*'
            &&& c != stem[i] ==> c == '_'
        }),
        safe_name(safe_name(stem)) == safe_name(stem),
        is_forbidden_in_names(stem[i]) <==> safe_name(stem)[i] != stem[i],
{
    assert(safe_name(safe_name(stem)) =~= safe_name(stem));
}

/// A bitmap is exported at its own resolution, the larger one of its two, unless that is less
/// than 300 or more than 1200; then it is exported at 300.
pub proof fn law_bitmaps_are_exported_at_their_resolution(x: int, y: int)
    ensures
        spec_export_dpi(x, y) == spec_export_dpi(y, x),
        300 <= spec_export_dpi(x, y) <= 1200,
        300 <= x <= 1200 && y <= x ==> spec_export_dpi(x, y) == x,
        x > 1200 ==> spec_export_dpi(x, y) == 300,
        x <= 300 && y <= 300 ==> spec_export_dpi(x, y) == 300,
{
}

/// Nothing is exported of what cannot be seen or printed. Of the rest, bitmaps are exported
/// and other objects searched, unless they have an effect or a transparency.
pub proof fn law_what_shows_is_exported(
    shape_type: i32,
    visible: bool,
    printable: bool,
    effect_count: i32,
    transparency_type: i32,
)
    ensures
        ({
            let visit = spec_visit_shape(
                shape_type,
                visible,
                printable,
                effect_count,
                transparency_type,
            );
            let shown = shape_type != 0 && visible && printable;
            let plain = effect_count <= 0 && transparency_type == 0;
            &&& visit is Skip <==> !shown
            &&& visit is Unsupported <==> shown && !plain
            &&& visit is Bitmap <==> shown && plain && shape_type == 5
            &&& visit is Children <==> shown && plain && shape_type != 5
        }),
{
}

/// A picture keeps its transparency exactly if it is a PNG file whose color type is gray or color
/// with alpha; whatever else is in it does not matter.
pub proof fn law_pictures_keep_their_transparency(front: Seq<u8>, kind: u8, back: Seq<u8>)
    requires
        front.len() == 25,
        front.take(8) == seq![0x89u8, 0x50u8, 0x4eu8, 0x47u8, 0x0du8, 0x0au8, 0x1au8, 0x0au8],
    ensures
        is_png_with_alpha(front + seq![kind] + back) <==> kind == 4 || kind == 6,
        !is_png_with_alpha(front),
        !is_png_with_alpha(seq![0u8] + front + seq![kind] + back),
{
    let png = front + seq![kind] + back;
    let other = seq![0u8] + front + seq![kind] + back;
    assert(png[25] == kind);
    assert(png.subrange(0, 8) =~= front.take(8));
    assert(png_signature() =~= front.take(8));
    if stands_at(other, png_signature(), 0) {
        assert(other.subrange(0, 8)[0] == other[0]);
    }
}

/// A document is exported under its own name, unless it has none, or one of nothing but white
/// space.
pub proof fn law_documents_keep_their_names(stem: Seq<char>, blank: Seq<char>)
    requires
        crate::text::is_blank(blank),
        stem.len() > 0,
        !crate::text::is_white_space(stem[0]),
        !crate::text::is_white_space(stem.last()),
    ensures
        export_stem(Some(stem)) == stem,
        export_stem(Some(blank)) == "transparent-native"@,
        export_stem(None) == "transparent-native"@,
{
    let empty = Seq::<char>::empty();
    crate::text::law_trimming_leaves_the_text(empty, stem, empty);
    assert(empty + stem + empty =~= stem);
    crate::text::law_trimming_leaves_the_text(blank, stem, empty);
}

/// There is nothing to replace exactly if no bitmap turns out to need it once the images are
/// mapped, so a document is exported with markers only when it has to be.
pub proof fn law_markers_are_needed_to_replace_something(
    replace: Seq<bool>,
    native: Seq<SpecImage>,
    tagged: Seq<SpecImage>,
)
    requires
        native.len() == replace.len(),
        mapping(native, tagged, native.len() as int) is Ok,
    ensures
        ({
            let indexes = mapping(native, tagged, native.len() as int)->Ok_0;
            let required = to_replace(replace, native, indexes, native.len() as int);
            nothing_to_replace(replace, native) <==> forall|i: int|
                0 <= i < required.len() ==> !#[trigger] required[i]
        }),
{
    let indexes = mapping(native, tagged, native.len() as int)->Ok_0;
    let required = to_replace(replace, native, indexes, native.len() as int);
    law_bitmaps_are_replaced_where_they_have_to(replace, native, tagged);
    law_mapping_is_one_to_one(native, tagged, native.len() as int);
    if nothing_to_replace(replace, native) {
        assert forall|i: int| 0 <= i < required.len() implies !#[trigger] required[i] by {
            assert(indexes.contains(i));
            let k = choose|k: int| 0 <= k < indexes.len() && indexes[k] == i;
            assert(required[indexes[k]] <==> replace[indexes[k]] || !native[k].embedded_data);
            assert(!replace[i]);
            assert(native[k].embedded_data);
        }
    } else if forall|i: int| 0 <= i < required.len() ==> !#[trigger] required[i] {
        if exists|i: int| 0 <= i < replace.len() && #[trigger] replace[i] {
            let i = choose|i: int| 0 <= i < replace.len() && #[trigger] replace[i];
            assert(required[i]);
        } else {
            let k = choose|k: int| 0 <= k < native.len() && !(#[trigger] native[k]).embedded_data;
            assert(required[indexes[k]]);
        }
    }
}

} // verus!
