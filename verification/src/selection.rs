//! Processing the selected objects: which bitmaps are meant, which of them can be
//! processed, and what comes out of it.

use vstd::prelude::*;

use crate::deployment::names_of;
use crate::measure::{
    finite, finite_not_negative, finite_positive, is_finite_not_negative, is_finite_positive,
    is_less, is_not_above_zero, less, magnitude, not_a_number, not_above_zero, SIGN,
};
use crate::names::{
    generated_shape_name, outline_id, parse_generated_outline_id, shape_name, SelectionOperation,
    CURVE_SHAPE, GROUP_SHAPE,
};
use crate::raster::OutlineSettings;
use crate::svg_export::BITMAP_SHAPE;
use crate::text::{decimal, decimal_int, push_decimal, push_decimal_int, same_text};

verus! {

// ---------------------------------------------------------------------------
// Settings
// ---------------------------------------------------------------------------

/// How bitmaps are processed; measurements are bit patterns.
#[derive(Debug, Clone, Copy, PartialEq, Eq, Structural)]
pub struct ProcessingSettings {
    pub outline_offset_mm: u64,
    pub hole_diameter_mm: u64,
    pub hole_edge_clearance_mm: u64,
    pub tool_diameter_mm: u64,
    pub smoothing_mm: u64,
}

/// Two millimeters.
pub const OUTLINE_OFFSET_MM: u64 = 0x4000_0000_0000_0000;

/// Three and a half millimeters.
pub const HOLE_DIAMETER_MM: u64 = 0x400c_0000_0000_0000;

/// Two millimeters.
pub const HOLE_EDGE_CLEARANCE_MM: u64 = 0x4000_0000_0000_0000;

/// Two millimeters.
pub const TOOL_DIAMETER_MM: u64 = 0x4000_0000_0000_0000;

/// A fiftieth of a millimeter.
pub const SMOOTHING_MM: u64 = 0x3f94_7ae1_47ae_147b;

/// Pixels whose alpha is above this are inside an outline.
pub const ALPHA_THRESHOLD: u8 = 127;

/// A quarter of a square millimeter.
pub const MINIMUM_COMPONENT_AREA_MM2: u64 = 0x3fd0_0000_0000_0000;

/// A millionth.
pub const MILLIONTH: u64 = 0x3eb0_c6f7_a0b5_ed8d;

impl Default for ProcessingSettings {
    fn default() -> (res: Self)
        ensures
            res == default_settings(),
    {
        ProcessingSettings {
            outline_offset_mm: OUTLINE_OFFSET_MM,
            hole_diameter_mm: HOLE_DIAMETER_MM,
            hole_edge_clearance_mm: HOLE_EDGE_CLEARANCE_MM,
            tool_diameter_mm: TOOL_DIAMETER_MM,
            smoothing_mm: SMOOTHING_MM,
        }
    }
}

/// The settings that are used where none are given.
pub open spec fn default_settings() -> ProcessingSettings {
    ProcessingSettings {
        outline_offset_mm: OUTLINE_OFFSET_MM,
        hole_diameter_mm: HOLE_DIAMETER_MM,
        hole_edge_clearance_mm: HOLE_EDGE_CLEARANCE_MM,
        tool_diameter_mm: TOOL_DIAMETER_MM,
        smoothing_mm: SMOOTHING_MM,
    }
}

impl ProcessingSettings {
    /// The offset and the clearance are more than nothing; the other measurements are
    /// not less than nothing.
    pub open spec fn is_valid(self) -> bool {
        &&& finite_positive(self.outline_offset_mm)
        &&& finite_not_negative(self.hole_diameter_mm)
        &&& finite_positive(self.hole_edge_clearance_mm)
        &&& finite_not_negative(self.tool_diameter_mm)
        &&& finite_not_negative(self.smoothing_mm)
    }

    /// Whether bitmaps can be processed with these settings.
    pub fn validate(self) -> (res: Result<(), SelectionError>)
        ensures
            res == (if self.is_valid() {
                Ok(())
            } else {
                Err::<(), _>(SelectionError::InvalidSettings)
            }),
    {
        if is_finite_positive(self.outline_offset_mm) && is_finite_not_negative(
            self.hole_diameter_mm,
        ) && is_finite_positive(self.hole_edge_clearance_mm) && is_finite_not_negative(
            self.tool_diameter_mm,
        ) && is_finite_not_negative(self.smoothing_mm) {
            Ok(())
        } else {
            Err(SelectionError::InvalidSettings)
        }
    }

    /// How the outline of a bitmap is traced: a trimmed one is traced along its edge, at
    /// the threshold at which it was trimmed; any other one is traced at a distance.
    pub fn outline_settings(self, operation: SelectionOperation) -> (res: OutlineSettings)
        ensures
            res == self.spec_outline_settings(operation),
    {
        if operation == SelectionOperation::TrimTransparent {
            OutlineSettings {
                alpha_threshold: crate::trim::TRIM_ALPHA_THRESHOLD,
                offset_mm: 0,
                tool_diameter_mm: 0,
                smoothing_mm: self.smoothing_mm,
                minimum_component_area_mm2: MINIMUM_COMPONENT_AREA_MM2,
            }
        } else {
            OutlineSettings {
                alpha_threshold: ALPHA_THRESHOLD,
                offset_mm: self.outline_offset_mm,
                tool_diameter_mm: self.tool_diameter_mm,
                smoothing_mm: self.smoothing_mm,
                minimum_component_area_mm2: MINIMUM_COMPONENT_AREA_MM2,
            }
        }
    }

    pub open spec fn spec_outline_settings(self, operation: SelectionOperation) -> OutlineSettings {
        if operation == SelectionOperation::TrimTransparent {
            OutlineSettings {
                alpha_threshold: crate::trim::TRIM_ALPHA_THRESHOLD,
                offset_mm: 0,
                tool_diameter_mm: 0,
                smoothing_mm: self.smoothing_mm,
                minimum_component_area_mm2: MINIMUM_COMPONENT_AREA_MM2,
            }
        } else {
            OutlineSettings {
                alpha_threshold: ALPHA_THRESHOLD,
                offset_mm: self.outline_offset_mm,
                tool_diameter_mm: self.tool_diameter_mm,
                smoothing_mm: self.smoothing_mm,
                minimum_component_area_mm2: MINIMUM_COMPONENT_AREA_MM2,
            }
        }
    }
}

/// The default settings are valid.
pub proof fn law_default_settings_are_valid()
    ensures
        default_settings().is_valid(),
{
}

// ---------------------------------------------------------------------------
// Errors
// ---------------------------------------------------------------------------

/// Why the selection cannot be processed.
#[derive(Debug, Clone, Copy, PartialEq, Eq, Structural)]
pub enum SelectionError {
    InvalidSettings,
    NoDocument,
    EmptySelection,
    /// The bitmap that an outline was generated for is gone.
    MissingSource { static_id: i32 },
    /// There is nothing that holes can be added to.
    NoHoleSource,
    /// There is no bitmap.
    NoBitmap,
    Rotated { index: i32 },
    Mirrored { index: i32 },
    Cropped { index: i32 },
    /// The exported picture does not have the size of the bitmap.
    WrongSize {
        index: i32,
        static_id: i32,
        expected_width: u32,
        expected_height: u32,
        width: u32,
        height: u32,
    },
    /// Holes without a diameter were to be added.
    NoHoleDiameter,
    /// No bitmap has a transparent edge.
    NothingToDo,
    /// There are too many layers.
    NoLayerName,
}

impl SelectionError {
    /// The text shown for the error.
    pub open spec fn spec_message(self) -> Seq<char> {
        match self {
            SelectionError::InvalidSettings =>
                "巡边和孔边距必须大于 0；孔径和平滑值必须大于或等于 0"@,
            SelectionError::NoDocument => "CorelDRAW 中没有活动文档；请先打开文档并选择位图"@,
            SelectionError::EmptySelection => "当前没有选择对象；请先选择要处理的内容"@,
            SelectionError::MissingSource { static_id } =>
                "找不到巡边曲线对应的原始位图（StaticID "@ + decimal_int(static_id as int)
                + "）；请保留原始位图后再加孔"@,
            SelectionError::NoHoleSource =>
                "加孔需要选择位图或已生成的巡边曲线；当前选择中没有可用来源"@,
            SelectionError::NoBitmap => "当前选择中没有可处理的位图"@,
            SelectionError::Rotated { index } => "选择中的第 "@ + decimal_int(index as int)
                + " 张位图存在旋转或倾斜；当前版本暂不处理此变换"@,
            SelectionError::Mirrored { index } => "选择中的第 "@ + decimal_int(index as int)
                + " 张位图存在镜像变换；当前版本暂不处理镜像"@,
            SelectionError::Cropped { index } => "选择中的第 "@ + decimal_int(index as int)
                + " 张位图已裁剪；当前版本暂不处理裁剪位图"@,
            SelectionError::WrongSize {
                index,
                static_id,
                expected_width,
                expected_height,
                width,
                height,
            } => spec_source_id(index as int, static_id as int) + " 导出尺寸异常：预期 "@
                + decimal(expected_width as nat) + "x"@ + decimal(expected_height as nat)
                + "，实际 "@ + decimal(width as nat) + "x"@ + decimal(height as nat),
            SelectionError::NoHoleDiameter => "孔径为 0 mm，未生成孔位"@,
            SelectionError::NothingToDo =>
                "所选位图都没有可用的透明像素边缘，未对文档进行任何修改"@,
            SelectionError::NoLayerName => "无法为输出图层生成唯一名称"@,
        }
    }

    /// The text shown for the error.
    pub fn message(self) -> (res: String)
        ensures
            res@ == self.spec_message(),
    {
        match self {
            SelectionError::InvalidSettings =>
                "巡边和孔边距必须大于 0；孔径和平滑值必须大于或等于 0".to_owned(),
            SelectionError::NoDocument =>
                "CorelDRAW 中没有活动文档；请先打开文档并选择位图".to_owned(),
            SelectionError::EmptySelection => "当前没有选择对象；请先选择要处理的内容".to_owned(),
            SelectionError::MissingSource { static_id } => {
                let mut res = "找不到巡边曲线对应的原始位图（StaticID ".to_owned();
                push_decimal_int(&mut res, static_id);
                res.push_str("）；请保留原始位图后再加孔");
                res
            },
            SelectionError::NoHoleSource =>
                "加孔需要选择位图或已生成的巡边曲线；当前选择中没有可用来源".to_owned(),
            SelectionError::NoBitmap => "当前选择中没有可处理的位图".to_owned(),
            SelectionError::Rotated { index } => {
                let mut res = "选择中的第 ".to_owned();
                push_decimal_int(&mut res, index);
                res.push_str(" 张位图存在旋转或倾斜；当前版本暂不处理此变换");
                res
            },
            SelectionError::Mirrored { index } => {
                let mut res = "选择中的第 ".to_owned();
                push_decimal_int(&mut res, index);
                res.push_str(" 张位图存在镜像变换；当前版本暂不处理镜像");
                res
            },
            SelectionError::Cropped { index } => {
                let mut res = "选择中的第 ".to_owned();
                push_decimal_int(&mut res, index);
                res.push_str(" 张位图已裁剪；当前版本暂不处理裁剪位图");
                res
            },
            SelectionError::WrongSize {
                index,
                static_id,
                expected_width,
                expected_height,
                width,
                height,
            } => {
                let mut res = source_id(index, static_id);
                res.push_str(" 导出尺寸异常：预期 ");
                push_decimal(&mut res, expected_width as u64);
                res.push_str("x");
                push_decimal(&mut res, expected_height as u64);
                res.push_str("，实际 ");
                push_decimal(&mut res, width as u64);
                res.push_str("x");
                push_decimal(&mut res, height as u64);
                res
            },
            SelectionError::NoHoleDiameter => "孔径为 0 mm，未生成孔位".to_owned(),
            SelectionError::NothingToDo =>
                "所选位图都没有可用的透明像素边缘，未对文档进行任何修改".to_owned(),
            SelectionError::NoLayerName => "无法为输出图层生成唯一名称".to_owned(),
        }
    }
}

/// How a bitmap of the selection is identified.
pub open spec fn spec_source_id(index: int, static_id: int) -> Seq<char> {
    "selection."@ + decimal_int(index) + ".id-"@ + decimal_int(static_id)
}

/// How a bitmap of the selection is identified.
pub fn source_id(index: i32, static_id: i32) -> (res: String)
    ensures
        res@ == spec_source_id(index as int, static_id as int),
{
    let mut res = "selection.".to_owned();
    push_decimal_int(&mut res, index);
    res.push_str(".id-");
    push_decimal_int(&mut res, static_id);
    res
}

// ---------------------------------------------------------------------------
// Sources
// ---------------------------------------------------------------------------

/// What a selected object means.
#[derive(Debug, Clone, Copy, PartialEq, Eq, Structural)]
pub enum SourceStep {
    /// Nothing.
    Ignore,
    /// It is a bitmap to process.
    Itself,
    /// The bitmap with that number is to be processed.
    BitmapOf(i32),
}

/// Whether the name of a selected object matters: holes can be added to what an outline
/// was generated for.
pub open spec fn name_matters(operation: SelectionOperation, shape_type: i32) -> bool {
    operation == SelectionOperation::AddHoles && (shape_type == CURVE_SHAPE || shape_type
        == GROUP_SHAPE)
}

/// Whether the name of a selected object has to be read.
pub fn needs_name(operation: SelectionOperation, shape_type: i32) -> (res: bool)
    ensures
        res == name_matters(operation, shape_type),
{
    operation == SelectionOperation::AddHoles && (shape_type == CURVE_SHAPE || shape_type
        == GROUP_SHAPE)
}

/// What a selected object means.
pub fn classify_source(operation: SelectionOperation, shape_type: i32, name: &str) -> (res:
    SourceStep)
    ensures
        match res {
            SourceStep::Itself => shape_type == BITMAP_SHAPE,
            SourceStep::BitmapOf(static_id) => name_matters(operation, shape_type) && outline_id(
                name@,
            ) == Some(static_id as int),
            SourceStep::Ignore => shape_type != BITMAP_SHAPE && (name_matters(
                operation,
                shape_type,
            ) ==> outline_id(name@) is None),
        },
{
    if shape_type == BITMAP_SHAPE {
        return SourceStep::Itself;
    }
    if !needs_name(operation, shape_type) {
        return SourceStep::Ignore;
    }
    match parse_generated_outline_id(name) {
        Some(static_id) => SourceStep::BitmapOf(static_id),
        None => SourceStep::Ignore,
    }
}

/// What an object means for the search of a bitmap.
#[derive(Debug, Clone, Copy, PartialEq, Eq, Structural)]
pub enum SearchStep {
    /// It is the bitmap.
    Found,
    /// What it holds has to be searched.
    Descend,
    /// Nothing.
    Skip,
}

/// What an object means for the search of the bitmap with the number `wanted`: bitmaps
/// are found in groups, and in what curves and groups clip.
pub open spec fn spec_search_shape(shape_type: i32, static_id: i32, wanted: i32) -> SearchStep {
    if shape_type == BITMAP_SHAPE && static_id == wanted {
        SearchStep::Found
    } else if shape_type == CURVE_SHAPE || shape_type == GROUP_SHAPE {
        SearchStep::Descend
    } else {
        SearchStep::Skip
    }
}

/// What an object means for the search of the bitmap with the number `wanted`.
pub fn search_shape(shape_type: i32, static_id: i32, wanted: i32) -> (res: SearchStep)
    ensures
        res == spec_search_shape(shape_type, static_id, wanted),
{
    if shape_type == BITMAP_SHAPE && static_id == wanted {
        SearchStep::Found
    } else if shape_type == CURVE_SHAPE || shape_type == GROUP_SHAPE {
        SearchStep::Descend
    } else {
        SearchStep::Skip
    }
}

/// Whether something is selected.
pub fn check_selected(selected_count: i32) -> (res: Result<(), SelectionError>)
    ensures
        res == (if selected_count == 0 {
            Err::<(), _>(SelectionError::EmptySelection)
        } else {
            Ok(())
        }),
{
    if selected_count == 0 {
        Err(SelectionError::EmptySelection)
    } else {
        Ok(())
    }
}

/// Whether there is something to process.
pub fn check_sources(operation: SelectionOperation, count: usize) -> (res: Result<
    (),
    SelectionError,
>)
    ensures
        res == (if count > 0 {
            Ok(())
        } else if operation == SelectionOperation::AddHoles {
            Err::<(), _>(SelectionError::NoHoleSource)
        } else {
            Err(SelectionError::NoBitmap)
        }),
{
    if count > 0 {
        Ok(())
    } else if operation == SelectionOperation::AddHoles {
        Err(SelectionError::NoHoleSource)
    } else {
        Err(SelectionError::NoBitmap)
    }
}

/// How a bitmap stands on its page; measurements are bit patterns.
#[derive(Debug, Clone, Copy, PartialEq, Eq, Structural)]
pub struct BitmapTransform {
    /// The angle to the nearest full turn.
    pub angle: u64,
    pub skew: u64,
    pub horizontal_scale: u64,
    pub vertical_scale: u64,
}

/// The measurement without its sign.
pub open spec fn unsigned(bits: u64) -> u64 {
    magnitude(bits) as u64
}

/// Why a bitmap cannot be processed, in the order in which it is found out.
pub open spec fn transform_error(transform: BitmapTransform, index: i32) -> Option<SelectionError> {
    if less(MILLIONTH, transform.angle) || less(MILLIONTH, unsigned(transform.skew)) {
        Some(SelectionError::Rotated { index })
    } else if not_above_zero(transform.horizontal_scale) || not_above_zero(
        transform.vertical_scale,
    ) {
        Some(SelectionError::Mirrored { index })
    } else {
        None
    }
}

/// Whether a bitmap stands upright on its page.
pub fn validate_selected_bitmap_transform(transform: BitmapTransform, index: i32) -> (res: Result<
    (),
    SelectionError,
>)
    ensures
        match res {
            Ok(_) => transform_error(transform, index) is None,
            Err(error) => transform_error(transform, index) == Some(error),
        },
{
    let skew: u64 = if transform.skew >= SIGN {
        transform.skew - SIGN
    } else {
        transform.skew
    };
    if is_less(MILLIONTH, transform.angle) || is_less(MILLIONTH, skew) {
        return Err(SelectionError::Rotated { index });
    }
    if is_not_above_zero(transform.horizontal_scale) || is_not_above_zero(
        transform.vertical_scale,
    ) {
        return Err(SelectionError::Mirrored { index });
    }
    Ok(())
}

/// Whether the picture of a bitmap has the size of the bitmap.
pub fn check_exported_bitmap(
    index: i32,
    static_id: i32,
    expected_width: u32,
    expected_height: u32,
    width: u32,
    height: u32,
) -> (res: Result<(), SelectionError>)
    ensures
        res == (if width != expected_width || height != expected_height {
            Err::<(), _>(
                SelectionError::WrongSize {
                    index,
                    static_id,
                    expected_width,
                    expected_height,
                    width,
                    height,
                },
            )
        } else {
            Ok(())
        }),
{
    if width != expected_width || height != expected_height {
        Err(
            SelectionError::WrongSize {
                index,
                static_id,
                expected_width,
                expected_height,
                width,
                height,
            },
        )
    } else {
        Ok(())
    }
}

// ---------------------------------------------------------------------------
// Results
// ---------------------------------------------------------------------------

/// What came out of processing the selection.
#[derive(Debug, Clone)]
pub struct ProcessOutcome {
    pub document_name: String,
    pub selected_count: i32,
    pub processed_count: usize,
    pub untouched_hole_count: usize,
    pub skipped_no_alpha: Vec<String>,
    pub output_layer: String,
    pub operation: SelectionOperation,
}

/// The bitmaps of a run, as they are processed or skipped one after the other.
pub struct SelectionRun {
    operation: SelectionOperation,
    /// The numbers of the processed bitmaps.
    processed: Vec<i32>,
    /// The identifications of the processed bitmaps.
    paths: Vec<String>,
    /// The names of what was generated for them.
    names: Vec<String>,
    /// The identifications of the bitmaps without a transparent edge.
    skipped: Vec<String>,
}

impl SelectionRun {
    pub closed spec fn spec_operation(&self) -> SelectionOperation {
        self.operation
    }

    pub closed spec fn spec_processed(&self) -> Seq<i32> {
        self.processed@
    }

    pub closed spec fn spec_paths(&self) -> Seq<Seq<char>> {
        names_of(self.paths@)
    }

    pub closed spec fn spec_names(&self) -> Seq<Seq<char>> {
        names_of(self.names@)
    }

    pub closed spec fn spec_skipped(&self) -> Seq<Seq<char>> {
        names_of(self.skipped@)
    }

    /// Every processed bitmap has one generated object.
    pub open spec fn well_formed(&self) -> bool {
        &&& self.spec_names().len() == self.spec_processed().len()
        &&& self.spec_paths().len() == self.spec_processed().len()
    }

    /// Every generated object has the name that belongs to its bitmap.
    pub open spec fn names_belong(&self) -> bool {
        forall|k: int|
            0 <= k < self.spec_processed().len() ==> #[trigger] self.spec_names()[k] == shape_name(
                self.spec_operation(),
                self.spec_processed()[k] as int,
            )
    }

    pub fn new(operation: SelectionOperation) -> (res: Self)
        ensures
            res.well_formed(),
            res.names_belong(),
            res.spec_operation() == operation,
            res.spec_processed() == Seq::<i32>::empty(),
            res.spec_paths() == Seq::<Seq<char>>::empty(),
            res.spec_skipped() == Seq::<Seq<char>>::empty(),
    {
        let res = SelectionRun {
            operation,
            processed: Vec::new(),
            paths: Vec::new(),
            names: Vec::new(),
            skipped: Vec::new(),
        };
        assert(names_of(res.skipped@) =~= Seq::<Seq<char>>::empty());
        assert(names_of(res.paths@) =~= Seq::<Seq<char>>::empty());
        res
    }

    /// Takes a bitmap into the run: it is processed if it has a transparent edge, and
    /// skipped if not. Says whether it is processed.
    pub fn take(&mut self, index: i32, static_id: i32, has_transparent_edge: bool) -> (res: bool)
        requires
            old(self).well_formed(),
            old(self).names_belong(),
        ensures
            final(self).well_formed(),
            final(self).names_belong(),
            final(self).spec_operation() == old(self).spec_operation(),
            res == has_transparent_edge,
            final(self).spec_processed() == (if has_transparent_edge {
                old(self).spec_processed().push(static_id)
            } else {
                old(self).spec_processed()
            }),
            final(self).spec_paths() == (if has_transparent_edge {
                old(self).spec_paths().push(spec_source_id(index as int, static_id as int))
            } else {
                old(self).spec_paths()
            }),
            final(self).spec_skipped() == (if has_transparent_edge {
                old(self).spec_skipped()
            } else {
                old(self).spec_skipped().push(spec_source_id(index as int, static_id as int))
            }),
    {
        let ghost paths = names_of(self.paths@);
        let ghost names = names_of(self.names@);
        let ghost skipped = names_of(self.skipped@);
        let path = source_id(index, static_id);
        if has_transparent_edge {
            let name = generated_shape_name(self.operation, static_id);
            self.processed.push(static_id);
            self.paths.push(path);
            self.names.push(name);
            assert(names_of(self.paths@) =~= paths.push(path@));
            assert(names_of(self.names@) =~= names.push(name@));
            assert(self.spec_names() == names.push(name@));
            assert forall|k: int| 0 <= k < self.spec_processed().len() implies #[trigger] self.spec_names()[k]
                == shape_name(self.spec_operation(), self.spec_processed()[k] as int) by {
                if k < names.len() {
                    assert(old(self).spec_names()[k] == shape_name(
                        old(self).spec_operation(),
                        old(self).spec_processed()[k] as int,
                    ));
                }
            }
            true
        } else {
            self.skipped.push(path);
            assert(names_of(self.skipped@) =~= skipped.push(path@));
            false
        }
    }

    /// Whether something was processed.
    pub fn check(&self) -> (res: Result<(), SelectionError>)
        ensures
            res == (if self.spec_processed().len() == 0 {
                Err::<(), _>(SelectionError::NothingToDo)
            } else {
                Ok(())
            }),
    {
        if self.processed.len() == 0 {
            Err(SelectionError::NothingToDo)
        } else {
            Ok(())
        }
    }

    /// How many bitmaps were processed.
    pub fn processed_count(&self) -> (res: usize)
        ensures
            res == self.spec_processed().len(),
    {
        self.processed.len()
    }

    /// The identifications of the bitmaps without a transparent edge.
    pub fn skipped(&self) -> (res: Vec<String>)
        ensures
            names_of(res@) == self.spec_skipped(),
    {
        let mut res: Vec<String> = Vec::new();
        for i in 0..self.skipped.len()
            invariant
                names_of(res@) =~= names_of(self.skipped@).take(i as int),
        {
            let ghost before = names_of(res@);
            res.push(self.skipped[i].as_str().to_owned());
            assert(names_of(res@) =~= before.push(names_of(self.skipped@)[i as int]));
        }
        assert(names_of(res@) =~= names_of(self.skipped@));
        res
    }

    /// The number of a processed bitmap.
    pub fn processed_id(&self, k: usize) -> (res: i32)
        requires
            k < self.spec_processed().len(),
        ensures
            res == self.spec_processed()[k as int],
    {
        self.processed[k]
    }

    /// The name of what was generated for a processed bitmap.
    pub fn name(&self, k: usize) -> (res: String)
        requires
            self.well_formed(),
            k < self.spec_processed().len(),
        ensures
            res@ == self.spec_names()[k as int],
    {
        assert(self.spec_names().len() == self.names@.len());
        let res = self.names[k].as_str().to_owned();
        assert(res@ == names_of(self.names@)[k as int]);
        res
    }

    /// The identification of a processed bitmap.
    pub fn path(&self, k: usize) -> (res: String)
        requires
            self.well_formed(),
            k < self.spec_processed().len(),
        ensures
            res@ == self.spec_paths()[k as int],
    {
        assert(self.spec_paths().len() == self.paths@.len());
        let res = self.paths[k].as_str().to_owned();
        assert(res@ == names_of(self.paths@)[k as int]);
        res
    }

    /// Notes that a bitmap was replaced by an imported one: the first object that was
    /// generated for the former now belongs to the latter. Says whether there is one.
    pub fn rename_trimmed(&mut self, static_id: i32, imported_id: i32) -> (res: bool)
        requires
            old(self).well_formed(),
        ensures
            final(self).well_formed(),
            final(self).spec_operation() == old(self).spec_operation(),
            final(self).spec_processed() == old(self).spec_processed(),
            final(self).spec_paths() == old(self).spec_paths(),
            final(self).spec_skipped() == old(self).spec_skipped(),
            ({
                let wanted = shape_name(SelectionOperation::TrimTransparent, static_id as int);
                let at = first_named(old(self).spec_names(), wanted, 0);
                &&& res == (at < old(self).spec_names().len())
                &&& final(self).spec_names() == (if res {
                    old(self).spec_names().update(
                        at,
                        shape_name(SelectionOperation::TrimTransparent, imported_id as int),
                    )
                } else {
                    old(self).spec_names()
                })
            }),
    {
        let wanted = generated_shape_name(SelectionOperation::TrimTransparent, static_id);
        let ghost names = names_of(self.names@);
        let mut at: usize = 0;
        while at < self.names.len() && !same_text(self.names[at].as_str(), wanted.as_str())
            invariant
                at <= self.names@.len(),
                *self == *old(self),
                names == names_of(self.names@),
                first_named(names, wanted@, 0) == first_named(names, wanted@, at as int),
            decreases self.names@.len() - at,
        {
            assert(names[at as int] == self.names@[at as int]@);
            at = at + 1;
        }
        if at < self.names.len() {
            assert(names[at as int] == self.names@[at as int]@);
            let name = generated_shape_name(SelectionOperation::TrimTransparent, imported_id);
            self.names.set(at, name);
            assert(names_of(self.names@) =~= names.update(at as int, name@));
            true
        } else {
            false
        }
    }

    /// What came out of the run.
    pub fn outcome(self, document_name: String, selected_count: i32, output_layer: String) -> (res:
        ProcessOutcome)
        ensures
            res.document_name@ == document_name@,
            res.selected_count == selected_count,
            res.processed_count == self.spec_processed().len(),
            res.untouched_hole_count == 0,
            names_of(res.skipped_no_alpha@) == self.spec_skipped(),
            res.output_layer@ == output_layer@,
            res.operation == self.spec_operation(),
    {
        ProcessOutcome {
            document_name,
            selected_count,
            processed_count: self.processed.len(),
            untouched_hole_count: 0,
            skipped_no_alpha: self.skipped,
            output_layer,
            operation: self.operation,
        }
    }
}

/// Where `name` first stands among `names`, at or after `from`.
pub open spec fn first_named(names: Seq<Seq<char>>, name: Seq<char>, from: int) -> int
    decreases names.len() - from,
{
    if from < names.len() && names[from] != name {
        first_named(names, name, from + 1)
    } else {
        from
    }
}

/// What came out of a merge.
pub fn merge_outcome(
    document_name: String,
    selected_count: i32,
    group_count: usize,
    untouched_hole_count: usize,
) -> (res: ProcessOutcome)
    ensures
        res.document_name@ == document_name@,
        res.selected_count == selected_count,
        res.processed_count == group_count,
        res.untouched_hole_count == untouched_hole_count,
        res.skipped_no_alpha@.len() == 0,
        res.output_layer@ == "Corel 原生焊接结果"@,
        res.operation == SelectionOperation::MergeHoles,
{
    ProcessOutcome {
        document_name,
        selected_count,
        processed_count: group_count,
        untouched_hole_count,
        skipped_no_alpha: Vec::new(),
        output_layer: "Corel 原生焊接结果".to_owned(),
        operation: SelectionOperation::MergeHoles,
    }
}

/// What is shown for what came out of a run.
pub open spec fn spec_summary(
    operation: SelectionOperation,
    processed: nat,
    selected: int,
    untouched: nat,
    layer: Seq<char>,
) -> Seq<char> {
    if operation == SelectionOperation::MergeHoles {
        operation.spec_progress_prefix() + "完成：已融合 "@ + decimal(processed)
            + " 组曲线，选择对象 "@ + decimal_int(selected) + " 个；未接触的孔 "@ + decimal(
            untouched,
        ) + " 个保持独立，文档未自动保存"@
    } else {
        operation.spec_progress_prefix() + "完成：已处理 "@ + decimal(processed) + "/"@
            + decimal_int(selected) + " 张位图，输出图层 "@ + layer + "；文档未自动保存"@
    }
}

/// What is shown for what came out of a run.
pub fn summary(outcome: &ProcessOutcome) -> (res: String)
    ensures
        res@ == spec_summary(
            outcome.operation,
            outcome.processed_count as nat,
            outcome.selected_count as int,
            outcome.untouched_hole_count as nat,
            outcome.output_layer@,
        ),
{
    let mut res = outcome.operation.progress_prefix().to_owned();
    if outcome.operation == SelectionOperation::MergeHoles {
        res.push_str("完成：已融合 ");
        push_decimal(&mut res, outcome.processed_count as u64);
        res.push_str(" 组曲线，选择对象 ");
        push_decimal_int(&mut res, outcome.selected_count);
        res.push_str(" 个；未接触的孔 ");
        push_decimal(&mut res, outcome.untouched_hole_count as u64);
        res.push_str(" 个保持独立，文档未自动保存");
    } else {
        res.push_str("完成：已处理 ");
        push_decimal(&mut res, outcome.processed_count as u64);
        res.push_str("/");
        push_decimal_int(&mut res, outcome.selected_count);
        res.push_str(" 张位图，输出图层 ");
        res.push_str(outcome.output_layer.as_str());
        res.push_str("；文档未自动保存");
    }
    res
}

/// The first `end` of `items`, with a comma and a space between them.
pub open spec fn joined(items: Seq<Seq<char>>, end: int) -> Seq<char>
    decreases end,
{
    if end <= 0 {
        Seq::empty()
    } else if end == 1 {
        items[0]
    } else {
        joined(items, end - 1) + ", "@ + items[end - 1]
    }
}

/// What is shown for the bitmaps that were skipped, if there are any.
pub fn skipped_summary(skipped: &Vec<String>) -> (res: Option<String>)
    ensures
        match res {
            Some(text) => skipped@.len() > 0 && text@ == "跳过 "@ + decimal(skipped@.len())
                + " 张无透明边缘位图: "@ + joined(names_of(skipped@), skipped@.len() as int),
            None => skipped@.len() == 0,
        },
{
    if skipped.len() == 0 {
        return None;
    }
    let mut list = skipped[0].as_str().to_owned();
    let ghost items = names_of(skipped@);
    assert(list@ == items[0]);
    let mut i: usize = 1;
    while i < skipped.len()
        invariant
            1 <= i <= skipped@.len(),
            items == names_of(skipped@),
            list@ == joined(items, i as int),
        decreases skipped@.len() - i,
    {
        list.push_str(", ");
        list.push_str(skipped[i].as_str());
        assert(items[i as int] == skipped@[i as int]@);
        i = i + 1;
    }
    let mut res = "跳过 ".to_owned();
    push_decimal(&mut res, skipped.len() as u64);
    res.push_str(" 张无透明边缘位图: ");
    res.push_str(list.as_str());
    Some(res)
}

// ---------------------------------------------------------------------------
// What the settings are for
// ---------------------------------------------------------------------------

/// An outline runs at the outline offset around the pixels that are more than half opaque,
/// closes the grooves that the tool cannot enter, and is smoothed as wanted. The contour of a
/// trimmed bitmap runs along its content and closes nothing. The hole has no part in it.
pub proof fn law_outlines_are_traced_as_configured(
    settings: ProcessingSettings,
    operation: SelectionOperation,
)
    ensures
        settings.spec_outline_settings(operation).smoothing_mm == settings.smoothing_mm,
        settings.spec_outline_settings(operation).minimum_component_area_mm2
            == 0x3fd0_0000_0000_0000,
        operation != SelectionOperation::TrimTransparent ==> {
            &&& settings.spec_outline_settings(operation).offset_mm == settings.outline_offset_mm
            &&& settings.spec_outline_settings(operation).tool_diameter_mm
                == settings.tool_diameter_mm
            &&& settings.spec_outline_settings(operation).alpha_threshold == 127
        },
        operation == SelectionOperation::TrimTransparent ==> {
            &&& settings.spec_outline_settings(operation).offset_mm == 0
            &&& settings.spec_outline_settings(operation).tool_diameter_mm == 0
            &&& settings.spec_outline_settings(operation).alpha_threshold == 96
        },
{
}

/// Two selections that are processed with the same offset, tool and smoothing get the same
/// outlines, whatever their holes are like.
pub proof fn law_holes_do_not_change_outlines(
    a: ProcessingSettings,
    b: ProcessingSettings,
    operation: SelectionOperation,
)
    requires
        a.outline_offset_mm == b.outline_offset_mm,
        a.tool_diameter_mm == b.tool_diameter_mm,
        a.smoothing_mm == b.smoothing_mm,
    ensures
        a.spec_outline_settings(operation) == b.spec_outline_settings(operation),
{
}

/// Measurements can be processed exactly if each of them can: none is negative, infinite or no
/// number, and the offset and the clearance are not zero. A hole, a tool or a smoothing of
/// zero is in order.
pub proof fn law_settings_are_judged_one_by_one(settings: ProcessingSettings)
    ensures
        settings.is_valid() <==> {
            &&& finite(settings.outline_offset_mm) && less(0, settings.outline_offset_mm)
            &&& finite(settings.hole_edge_clearance_mm) && less(
                0,
                settings.hole_edge_clearance_mm,
            )
            &&& finite(settings.hole_diameter_mm) && !less(settings.hole_diameter_mm, 0)
            &&& finite(settings.tool_diameter_mm) && !less(settings.tool_diameter_mm, 0)
            &&& finite(settings.smoothing_mm) && !less(settings.smoothing_mm, 0)
        },
        settings.is_valid() ==> (ProcessingSettings { hole_diameter_mm: 0, ..settings }).is_valid()
            && (ProcessingSettings { tool_diameter_mm: 0, ..settings }).is_valid() && (
        ProcessingSettings { smoothing_mm: 0, ..settings }).is_valid(),
        !(ProcessingSettings { outline_offset_mm: 0, ..settings }).is_valid(),
        !(ProcessingSettings { hole_edge_clearance_mm: 0, ..settings }).is_valid(),
{
}

// ---------------------------------------------------------------------------
// What the selection is for
// ---------------------------------------------------------------------------

/// Holes are added to what an outline was generated for, by selecting the outline or the
/// group that it is in. For everything else only bitmaps themselves count.
pub proof fn law_outlines_lead_to_their_bitmaps(
    operation: SelectionOperation,
    shape_type: i32,
    static_id: int,
)
    requires
        i32::MIN <= static_id <= i32::MAX,
    ensures
        name_matters(operation, shape_type) ==> operation == SelectionOperation::AddHoles,
        name_matters(SelectionOperation::AddHoles, shape_type) <==> shape_type == 3 || shape_type
            == 7,
        outline_id(shape_name(SelectionOperation::Outline, static_id)) == Some(static_id),
        outline_id(shape_name(SelectionOperation::TrimTransparent, static_id)) == Some(static_id),
        outline_id(shape_name(SelectionOperation::AddHoles, static_id)) is None,
{
    crate::names::law_outline_names_resolve(SelectionOperation::Outline, static_id);
    crate::names::law_outline_names_resolve(SelectionOperation::TrimTransparent, static_id);
    crate::names::law_outline_names_resolve(SelectionOperation::AddHoles, static_id);
}

/// The search for a bitmap ends at that bitmap only, and looks into curves and groups and
/// nowhere else.
pub proof fn law_a_search_finds_the_wanted_bitmap(shape_type: i32, static_id: i32, wanted: i32)
    ensures
        spec_search_shape(shape_type, static_id, wanted) is Found <==> shape_type == 5 && static_id
            == wanted,
        spec_search_shape(shape_type, static_id, wanted) is Descend <==> shape_type == 3
            || shape_type == 7,
{
}

/// A bitmap is refused for its transform exactly if it is turned or skewed, to either side,
/// or mirrored along either axis; the two axes are treated alike.
pub proof fn law_upright_bitmaps_are_accepted(transform: BitmapTransform, index: i32)
    requires
        !not_a_number(transform.angle),
        !not_a_number(transform.skew),
        !not_a_number(transform.horizontal_scale),
        !not_a_number(transform.vertical_scale),
    ensures
        transform_error(transform, index) is None <==> {
            &&& !less(MILLIONTH, transform.angle)
            &&& magnitude(transform.skew) <= MILLIONTH
            &&& less(0, transform.horizontal_scale)
            &&& less(0, transform.vertical_scale)
        },
        transform_error(transform, index) == transform_error(
            BitmapTransform {
                horizontal_scale: transform.vertical_scale,
                vertical_scale: transform.horizontal_scale,
                ..transform
            },
            index,
        ),
        transform_error(transform, index) matches Some(error) ==> error == (
        SelectionError::Rotated { index }) || error == (SelectionError::Mirrored { index }),
        less(MILLIONTH, transform.angle) ==> transform_error(transform, index) == Some(
            SelectionError::Rotated { index },
        ),
{
}

/// Two bitmaps of a selection are told apart by their identification.
pub proof fn law_sources_are_told_apart(
    index: int,
    static_id: int,
    other_index: int,
    other_id: int,
)
    requires
        i32::MIN <= index <= i32::MAX,
        i32::MIN <= static_id <= i32::MAX,
        i32::MIN <= other_index <= i32::MAX,
        i32::MIN <= other_id <= i32::MAX,
        spec_source_id(index, static_id) == spec_source_id(other_index, other_id),
    ensures
        index == other_index,
        static_id == other_id,
{
    reveal_strlit("selection.");
    reveal_strlit(".id-");
    let a = spec_source_id(index, static_id);
    let b = spec_source_id(other_index, other_id);
    let x = decimal_int(index);
    let y = decimal_int(other_index);
    lemma_number_chars(index);
    lemma_number_chars(other_index);
    let at = 10 + x.len() as int;
    let other_at = 10 + y.len() as int;
    assert("selection."@.len() == 10 && ".id-"@.len() == 4);
    assert(a[at] == '.' && b[other_at] == '.');
    if at < other_at {
        assert(b[at] == y[at - 10]);
    } else if other_at < at {
        assert(a[other_at] == x[other_at - 10]);
    }
    assert(a.subrange(10, at) =~= x);
    assert(b.subrange(10, at) =~= y);
    assert(a.skip(at + 4) =~= decimal_int(static_id));
    assert(b.skip(at + 4) =~= decimal_int(other_id));
    crate::text::law_decimal_int_reads_back(index);
    crate::text::law_decimal_int_reads_back(other_index);
    crate::text::law_decimal_int_reads_back(static_id);
    crate::text::law_decimal_int_reads_back(other_id);
}

proof fn lemma_digits(n: nat)
    ensures
        forall|i: int| 0 <= i < decimal(n).len() ==> #[trigger] decimal(n)[i] != '.',
    decreases n,
{
    if n >= 10 {
        lemma_digits(n / 10);
        assert forall|i: int| 0 <= i < decimal(n).len() implies #[trigger] decimal(n)[i] != '.' by {
            if i < decimal(n / 10).len() {
                assert(decimal(n)[i] == decimal(n / 10)[i]);
            }
        }
    }
}

proof fn lemma_number_chars(n: int)
    ensures
        forall|i: int| 0 <= i < decimal_int(n).len() ==> #[trigger] decimal_int(n)[i] != '.',
{
    let size = if n < 0 {
        (-n) as nat
    } else {
        n as nat
    };
    lemma_digits(size);
    assert forall|i: int| 0 <= i < decimal_int(n).len() implies #[trigger] decimal_int(n)[i]
        != '.' by {
        if n < 0 && i > 0 {
            assert(decimal_int(n)[i] == decimal(size)[i - 1]);
        }
    }
}

/// The first object of a name is one of that name, and none before it is.
pub proof fn law_the_first_named_is_first(names: Seq<Seq<char>>, name: Seq<char>, from: int)
    requires
        0 <= from <= names.len(),
    ensures
        from <= first_named(names, name, from) <= names.len(),
        first_named(names, name, from) < names.len() ==> names[first_named(names, name, from)]
            == name,
        forall|k: int| from <= k < first_named(names, name, from) ==> names[k] != name,
    decreases names.len() - from,
{
    if from < names.len() && names[from] != name {
        law_the_first_named_is_first(names, name, from + 1);
    }
}

/// Skipped bitmaps are told one by one, with a comma between two.
pub proof fn law_skipped_bitmaps_are_told_one_by_one(items: Seq<Seq<char>>, more: Seq<char>)
    ensures
        joined(seq![more], 1) == more,
        items.len() > 0 ==> joined(items.push(more), (items.len() + 1) as int) == joined(
            items,
            items.len() as int,
        ) + ", "@ + more,
{
    if items.len() > 0 {
        lemma_joined_prefix(items, items.push(more), items.len() as int);
    }
}

proof fn lemma_joined_prefix(a: Seq<Seq<char>>, b: Seq<Seq<char>>, end: int)
    requires
        0 <= end <= a.len(),
        end <= b.len(),
        forall|i: int| 0 <= i < end ==> a[i] == b[i],
    ensures
        joined(a, end) == joined(b, end),
    decreases end,
{
    if end > 1 {
        lemma_joined_prefix(a, b, end - 1);
    }
}

/// The summary of a merge tells how many groups were merged and how many holes stayed as they
/// were, and no layer; every other summary ends with the layer that was drawn on, and tells of
/// no such holes.
pub proof fn law_summaries_tell_what_was_done(
    operation: SelectionOperation,
    processed: nat,
    selected: int,
    untouched: nat,
    layer: Seq<char>,
    other_untouched: nat,
    other_layer: Seq<char>,
)
    ensures
        operation == SelectionOperation::MergeHoles ==> {
            let told = spec_summary(operation, processed, selected, untouched, layer);
            &&& told == spec_summary(operation, processed, selected, untouched, other_layer)
            &&& exists|front: Seq<char>|
                told == #[trigger] (front + decimal(untouched) + " 个保持独立，文档未自动保存"@)
        },
        operation != SelectionOperation::MergeHoles ==> {
            let told = spec_summary(operation, processed, selected, untouched, layer);
            &&& told == spec_summary(operation, processed, selected, other_untouched, layer)
            &&& exists|front: Seq<char>|
                told == #[trigger] (front + layer + "；文档未自动保存"@)
        },
{
    let told = spec_summary(operation, processed, selected, untouched, layer);
    if operation == SelectionOperation::MergeHoles {
        let front = operation.spec_progress_prefix() + "完成：已融合 "@ + decimal(processed)
            + " 组曲线，选择对象 "@ + decimal_int(selected) + " 个；未接触的孔 "@;
        assert(told == front + decimal(untouched) + " 个保持独立，文档未自动保存"@);
    } else {
        let front = operation.spec_progress_prefix() + "完成：已处理 "@ + decimal(processed) + "/"@
            + decimal_int(selected) + " 张位图，输出图层 "@;
        assert(told == front + layer + "；文档未自动保存"@);
    }
}

} // verus!
