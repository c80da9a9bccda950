//! Alpha channels: what they hold, where their content is, and how their silhouette
//! is cut out and softened.

use vstd::prelude::*;

use crate::domain::{
    all_points_finite, is_closed_path, polygon, without_closing, ClosedPath, PointMm,
};
use crate::measure::{
    finite_not_negative, finite_positive, is_finite_not_negative, is_finite_positive, is_less,
    is_nan, is_not_above_zero, less, not_above_zero, not_a_number,
};
use crate::text::{copy_range, decimal, push_decimal};

verus! {

/// A box of pixels; all four sides belong to it.
#[derive(Debug, Clone, Copy, PartialEq, Eq, Structural)]
pub struct PixelBounds {
    pub left: u32,
    pub top: u32,
    pub right: u32,
    pub bottom: u32,
}

/// What an alpha channel holds.
#[derive(Debug, Clone, Copy, PartialEq, Eq)]
pub struct AlphaStats {
    pub transparent_pixels: u64,
    pub partial_pixels: u64,
    pub opaque_pixels: u64,
    pub content_bounds: Option<PixelBounds>,
}

impl AlphaStats {
    /// Whether there is an edge between content and transparency.
    pub fn has_transparent_edge(self) -> (res: bool)
        ensures
            res == (self.transparent_pixels > 0 && (self.partial_pixels > 0 || self.opaque_pixels
                > 0)),
    {
        self.transparent_pixels > 0 && (self.partial_pixels > 0 || self.opaque_pixels > 0)
    }
}

/// Why a raster cannot be processed.
#[derive(Debug, Clone, PartialEq, Eq)]
pub enum RasterError {
    DimensionsTooLarge,
    AlphaLengthMismatch { expected: usize, actual: usize },
    InvalidPhysicalSize,
    InvalidOutlineSettings,
    NoTransparentEdge,
    NoUsableContour,
    InvalidHoleSettings,
    NoTopCenterIntersection,
    Contour(String),
    ImageProcessing(String),
}

impl RasterError {
    /// The text shown for the error.
    pub open spec fn spec_message(self) -> Seq<char> {
        match self {
            RasterError::DimensionsTooLarge => "raster dimensions are too large"@,
            RasterError::AlphaLengthMismatch { expected, actual } =>
                "alpha channel length mismatch: expected "@ + decimal(expected as nat) + ", got "@
                + decimal(actual as nat),
            RasterError::InvalidPhysicalSize =>
                "physical raster dimensions must be finite and positive"@,
            RasterError::InvalidOutlineSettings => "outline settings are invalid"@,
            RasterError::NoTransparentEdge => "raster does not contain a transparent edge"@,
            RasterError::NoUsableContour => "no usable alpha contour was found"@,
            RasterError::InvalidHoleSettings => "hole settings are invalid"@,
            RasterError::NoTopCenterIntersection =>
                "outline does not intersect its top-center axis"@,
            RasterError::Contour(message) => "contour extraction failed: "@ + message@,
            RasterError::ImageProcessing(message) => "OpenCV alpha processing failed: "@
                + message@,
        }
    }

    /// The text shown for the error.
    pub fn message(&self) -> (res: String)
        ensures
            res@ == self.spec_message(),
    {
        match self {
            RasterError::DimensionsTooLarge => "raster dimensions are too large".to_owned(),
            RasterError::AlphaLengthMismatch { expected, actual } => {
                let mut res = "alpha channel length mismatch: expected ".to_owned();
                push_decimal(&mut res, *expected as u64);
                res.push_str(", got ");
                push_decimal(&mut res, *actual as u64);
                res
            },
            RasterError::InvalidPhysicalSize =>
                "physical raster dimensions must be finite and positive".to_owned(),
            RasterError::InvalidOutlineSettings => "outline settings are invalid".to_owned(),
            RasterError::NoTransparentEdge =>
                "raster does not contain a transparent edge".to_owned(),
            RasterError::NoUsableContour => "no usable alpha contour was found".to_owned(),
            RasterError::InvalidHoleSettings => "hole settings are invalid".to_owned(),
            RasterError::NoTopCenterIntersection =>
                "outline does not intersect its top-center axis".to_owned(),
            RasterError::Contour(message) => {
                let mut res = "contour extraction failed: ".to_owned();
                res.push_str(message.as_str());
                res
            },
            RasterError::ImageProcessing(message) => {
                let mut res = "OpenCV alpha processing failed: ".to_owned();
                res.push_str(message.as_str());
                res
            },
        }
    }
}

// ---------------------------------------------------------------------------
// The mask
// ---------------------------------------------------------------------------

/// An alpha channel, row by row.
#[derive(Debug, PartialEq, Eq)]
pub struct AlphaMask {
    width: u32,
    height: u32,
    values: Vec<u8>,
}

/// How many of the first `end` values are `value`.
pub open spec fn count_of(values: Seq<u8>, value: u8, end: int) -> nat
    decreases end,
{
    if end <= 0 {
        0
    } else {
        count_of(values, value, end - 1) + if values[end - 1] == value {
            1nat
        } else {
            0nat
        }
    }
}

/// Whether `bounds` is the smallest box around the first `end` values above
/// `threshold`; there is none if nothing is above it.
pub open spec fn bounds_above(
    values: Seq<u8>,
    width: int,
    threshold: u8,
    end: int,
    bounds: Option<PixelBounds>,
) -> bool {
    match bounds {
        None => forall|i: int| 0 <= i < end ==> #[trigger] values[i] <= threshold,
        Some(found) => {
            &&& forall|i: int|
                0 <= i < end && #[trigger] values[i] > threshold ==> found.left <= i % width
                    <= found.right && found.top <= i / width <= found.bottom
            &&& exists|i: int|
                0 <= i < end && #[trigger] values[i] > threshold && i % width == found.left
            &&& exists|i: int|
                0 <= i < end && #[trigger] values[i] > threshold && i % width == found.right
            &&& exists|i: int|
                0 <= i < end && #[trigger] values[i] > threshold && i / width == found.top
            &&& exists|i: int|
                0 <= i < end && #[trigger] values[i] > threshold && i / width == found.bottom
        },
    }
}

impl AlphaMask {
    /// The alpha values, row by row.
    pub closed spec fn view(&self) -> Seq<u8> {
        self.values@
    }

    pub closed spec fn spec_width(&self) -> u32 {
        self.width
    }

    pub closed spec fn spec_height(&self) -> u32 {
        self.height
    }

    #[verifier::type_invariant]
    closed spec fn is_rectangle(self) -> bool {
        self.values@.len() == self.width as int * self.height as int
    }

    /// A mask of the given size; `values` holds a value for every pixel.
    pub fn try_new(width: u32, height: u32, values: Vec<u8>) -> (res: Result<Self, RasterError>)
        ensures
            match res {
                Ok(mask) => {
                    &&& values@.len() == width as int * height as int
                    &&& mask.spec_width() == width
                    &&& mask.spec_height() == height
                    &&& mask@ == values@
                },
                Err(error) => if width as int * height as int > usize::MAX {
                    error is DimensionsTooLarge
                } else {
                    &&& values@.len() != width as int * height as int
                    &&& error == (RasterError::AlphaLengthMismatch {
                        expected: (width as int * height as int) as usize,
                        actual: values@.len() as usize,
                    })
                },
            },
    {
        assert(width as int * height as int <= 0xffff_ffff * 0xffff_ffff) by (nonlinear_arith)
            requires
                width <= 0xffff_ffff,
                height <= 0xffff_ffff,
        ;
        let area: u64 = width as u64 * height as u64;
        if area > usize::MAX as u64 {
            return Err(RasterError::DimensionsTooLarge);
        }
        let expected: usize = area as usize;
        if values.len() != expected {
            return Err(RasterError::AlphaLengthMismatch { expected, actual: values.len() });
        }
        Ok(AlphaMask { width, height, values })
    }

    pub fn width(&self) -> (res: u32)
        ensures
            res == self.spec_width(),
            self@.len() == self.spec_width() as int * self.spec_height() as int,
    {
        proof {
            use_type_invariant(self);
        }
        self.width
    }

    pub fn height(&self) -> (res: u32)
        ensures
            res == self.spec_height(),
            self@.len() == self.spec_width() as int * self.spec_height() as int,
    {
        proof {
            use_type_invariant(self);
        }
        self.height
    }

    /// Counts the pixels by how transparent they are, and finds the box around those
    /// that are not fully transparent.
    pub fn stats(&self) -> (res: AlphaStats)
        ensures
            res.transparent_pixels == count_of(self@, 0, self@.len() as int),
            res.opaque_pixels == count_of(self@, 255, self@.len() as int),
            res.transparent_pixels + res.partial_pixels + res.opaque_pixels == self@.len(),
            bounds_above(
                self@,
                self.spec_width() as int,
                0,
                self@.len() as int,
                res.content_bounds,
            ),
    {
        let mut transparent_pixels: u64 = 0;
        let mut partial_pixels: u64 = 0;
        let mut opaque_pixels: u64 = 0;
        for i in 0..self.values.len()
            invariant
                transparent_pixels == count_of(self@, 0, i as int),
                opaque_pixels == count_of(self@, 255, i as int),
                transparent_pixels + partial_pixels + opaque_pixels == i,
                i <= self.values@.len() <= u64::MAX,
        {
            let alpha = self.values[i];
            if alpha == 0 {
                transparent_pixels = transparent_pixels + 1;
            } else if alpha == 255 {
                opaque_pixels = opaque_pixels + 1;
            } else {
                partial_pixels = partial_pixels + 1;
            }
        }
        AlphaStats {
            transparent_pixels,
            partial_pixels,
            opaque_pixels,
            content_bounds: self.content_bounds_above(0),
        }
    }

    /// The box around the pixels whose alpha is above the threshold.
    pub fn content_bounds_above(&self, alpha_threshold: u8) -> (res: Option<PixelBounds>)
        ensures
            bounds_above(
                self@,
                self.spec_width() as int,
                alpha_threshold,
                self@.len() as int,
                res,
            ),
    {
        proof {
            use_type_invariant(self);
        }
        let mut bounds: Option<PixelBounds> = None;
        let width: usize = self.width as usize;
        for i in 0..self.values.len()
            invariant
                width == self.width,
                self.values@.len() == self.width as int * self.height as int,
                bounds_above(self@, width as int, alpha_threshold, i as int, bounds),
        {
            let alpha = self.values[i];
            if alpha > alpha_threshold {
                proof {
                    lemma_pixel(i as int, width as int, self.height as int);
                }
                let ghost before = bounds;
                let x: u32 = (i % width) as u32;
                let y: u32 = (i / width) as u32;
                bounds = Some(
                    match bounds {
                        None => PixelBounds { left: x, top: y, right: x, bottom: y },
                        Some(current) => PixelBounds {
                            left: if x < current.left { x } else { current.left },
                            top: if y < current.top { y } else { current.top },
                            right: if x > current.right { x } else { current.right },
                            bottom: if y > current.bottom { y } else { current.bottom },
                        },
                    },
                );
                proof {
                    lemma_bounds_grow(
                        self@,
                        width as int,
                        alpha_threshold,
                        i as int,
                        before,
                        bounds.unwrap(),
                    );
                }
            }
        }
        bounds
    }

    /// A silhouette of the pixels above the threshold, softened at its edge by one
    /// pixel.
    pub fn antialiased_threshold(&self, alpha_threshold: u8) -> (res: Result<Vec<u8>, RasterError>)
        ensures
            res matches Ok(softened) && softened@ == softened_silhouette(
                self@,
                self.spec_width() as int,
                self.spec_height() as int,
                alpha_threshold,
            ),
    {
        proof {
            use_type_invariant(self);
        }
        let binary = threshold_alpha(self.values.as_slice(), alpha_threshold);
        Ok(smooth_binary_alpha(binary.as_slice(), self.width, self.height))
    }
}

impl Clone for AlphaMask {
    fn clone(&self) -> (res: Self)
        ensures
            res@ == self@,
            res.spec_width() == self.spec_width(),
            res.spec_height() == self.spec_height(),
    {
        proof {
            use_type_invariant(self);
        }
        let values = copy_range(self.values.as_slice(), 0, self.values.len());
        assert(values@ =~= self.values@);
        AlphaMask { width: self.width, height: self.height, values }
    }
}

/// A pixel stands in a column and a row of its mask.
pub proof fn lemma_pixel(index: int, width: int, height: int)
    requires
        0 <= index < width * height,
        0 <= width,
        0 <= height,
    ensures
        0 < width,
        0 <= index % width < width,
        0 <= index / width < height,
{
    assert(0 < width) by (nonlinear_arith)
        requires
            0 <= index < width * height,
            0 <= width,
            0 <= height,
    ;
    vstd::arithmetic::div_mod::lemma_div_pos_is_pos(index, width);
    vstd::arithmetic::div_mod::lemma_mod_bound(index, width);
    assert(index / width < height) by {
        vstd::arithmetic::div_mod::lemma_fundamental_div_mod(index, width);
        assert(width * (index / width) <= index);
        if index / width >= height {
            assert(width * (index / width) >= width * height) by (nonlinear_arith)
                requires
                    index / width >= height,
                    width > 0,
            ;
        }
    }
}

/// The box that also holds pixel `at` is the smallest one around it and the others.
proof fn lemma_bounds_grow(
    values: Seq<u8>,
    width: int,
    threshold: u8,
    at: int,
    before: Option<PixelBounds>,
    after: PixelBounds,
)
    requires
        0 <= at < values.len(),
        values[at] > threshold,
        0 < width,
        bounds_above(values, width, threshold, at, before),
        ({
            let x = at % width;
            let y = at / width;
            match before {
                None => after.left == x && after.right == x && after.top == y && after.bottom == y,
                Some(current) => {
                    &&& after.left == if x < current.left { x } else { current.left as int }
                    &&& after.top == if y < current.top { y } else { current.top as int }
                    &&& after.right == if x > current.right { x } else { current.right as int }
                    &&& after.bottom == if y > current.bottom { y } else { current.bottom as int }
                },
            }
        }),
    ensures
        bounds_above(values, width, threshold, at + 1, Some(after)),
{
    assert(values[at] > threshold);
    match before {
        None => {},
        Some(current) => {
            let l = choose|i: int|
                0 <= i < at && #[trigger] values[i] > threshold && i % width == current.left;
            let r = choose|i: int|
                0 <= i < at && #[trigger] values[i] > threshold && i % width == current.right;
            let t = choose|i: int|
                0 <= i < at && #[trigger] values[i] > threshold && i / width == current.top;
            let b = choose|i: int|
                0 <= i < at && #[trigger] values[i] > threshold && i / width == current.bottom;
            assert(values[l] > threshold && values[r] > threshold && values[t] > threshold
                && values[b] > threshold);
        },
    }
}

// ---------------------------------------------------------------------------
// Silhouettes
// ---------------------------------------------------------------------------

/// Fully opaque above the threshold, fully transparent elsewhere.
pub open spec fn silhouette(values: Seq<u8>, threshold: u8) -> Seq<u8> {
    values.map_values(|alpha: u8| if alpha > threshold { 255u8 } else { 0u8 })
}

/// Fully opaque above the threshold, fully transparent elsewhere.
pub fn threshold_alpha(values: &[u8], alpha_threshold: u8) -> (res: Vec<u8>)
    ensures
        res@ == silhouette(values@, alpha_threshold),
{
    let mut res: Vec<u8> = Vec::new();
    for i in 0..values.len()
        invariant
            res@ == silhouette(values@, alpha_threshold).take(i as int),
    {
        if values[i] > alpha_threshold {
            res.push(255);
        } else {
            res.push(0);
        }
    }
    assert(res@ =~= silhouette(values@, alpha_threshold));
    res
}

/// The value of a pixel; there is nothing outside the image.
pub open spec fn pixel(values: Seq<u8>, width: int, height: int, x: int, y: int) -> int {
    if 0 <= x < width && 0 <= y < height {
        values[y * width + x] as int
    } else {
        0
    }
}

/// Three pixels of a row around `x`, weighted one, two and one.
pub open spec fn row_sum(values: Seq<u8>, width: int, height: int, x: int, y: int) -> int {
    pixel(values, width, height, x - 1, y) + 2 * pixel(values, width, height, x, y) + pixel(
        values,
        width,
        height,
        x + 1,
        y,
    )
}

/// The weighted mean of the nine pixels around a pixel, rounded.
pub open spec fn softened(values: Seq<u8>, width: int, height: int, x: int, y: int) -> int {
    (row_sum(values, width, height, x, y - 1) + 2 * row_sum(values, width, height, x, y) + row_sum(
        values,
        width,
        height,
        x,
        y + 1,
    ) + 8) / 16
}

/// An image whose pixels are softened.
pub open spec fn softened_image(values: Seq<u8>, width: int, height: int) -> Seq<u8> {
    Seq::new(
        (width * height) as nat,
        |i: int| softened(values, width, height, i % width, i / width) as u8,
    )
}

/// A silhouette whose edge is softened.
pub open spec fn softened_silhouette(
    values: Seq<u8>,
    width: int,
    height: int,
    threshold: u8,
) -> Seq<u8> {
    softened_image(silhouette(values, threshold), width, height)
}

fn pixel_at(values: &[u8], width: u32, height: u32, x: i64, y: i64) -> (res: u32)
    requires
        values@.len() == width as int * height as int,
    ensures
        res == pixel(values@, width as int, height as int, x as int, y as int),
        res <= 255,
{
    if x < 0 || y < 0 || x >= width as i64 || y >= height as i64 {
        return 0;
    }
    let len: usize = values.len();
    proof {
        lemma_pixel_index(x as int, y as int, width as int, height as int);
        assert(y as int * width as int + x as int <= len);
    }
    values[y as usize * width as usize + x as usize] as u32
}

/// A column and a row are those of the pixel at their index.
pub proof fn lemma_pixel_index(x: int, y: int, width: int, height: int)
    requires
        0 <= x < width,
        0 <= y < height,
    ensures
        0 <= y * width,
        y * width + x < width * height,
        (y * width + x) % width == x,
        (y * width + x) / width == y,
{
    assert(0 <= y * width && y * width + x < width * height) by (nonlinear_arith)
        requires
            0 <= x < width,
            0 <= y < height,
    ;
    assert(y * width + x == x + width * y) by (nonlinear_arith);
    vstd::arithmetic::div_mod::lemma_fundamental_div_mod_converse(y * width + x, width, y, x);
}

fn soften_row(values: &[u8], width: u32, height: u32, x: i64, y: i64) -> (res: u32)
    requires
        values@.len() == width as int * height as int,
        0 <= x < width,
        -1 <= y <= height,
    ensures
        res == row_sum(values@, width as int, height as int, x as int, y as int),
        res <= 1020,
{
    pixel_at(values, width, height, x - 1, y) + 2 * pixel_at(values, width, height, x, y)
        + pixel_at(values, width, height, x + 1, y)
}

/// Softens every pixel of an image with the pixels around it.
pub fn smooth_binary_alpha(values: &[u8], width: u32, height: u32) -> (res: Vec<u8>)
    requires
        values@.len() == width as int * height as int,
    ensures
        res@ == softened_image(values@, width as int, height as int),
{
    let mut res: Vec<u8> = Vec::new();
    let ghost goal = softened_image(values@, width as int, height as int);
    assert(0int * (width as int) == 0) by (nonlinear_arith);
    for y in 0..height
        invariant
            values@.len() == width as int * height as int,
            goal == softened_image(values@, width as int, height as int),
            res@.len() == y as int * width as int,
            forall|i: int| 0 <= i < res@.len() ==> res@[i] == goal[i],
    {
        assert(y as int * width as int + width as int <= width as int * height as int)
            by (nonlinear_arith)
            requires
                y < height,
        ;
        for x in 0..width
            invariant
                y < height,
                values@.len() == width as int * height as int,
                goal == softened_image(values@, width as int, height as int),
                res@.len() == y as int * width as int + x as int,
                forall|i: int| 0 <= i < res@.len() ==> res@[i] == goal[i],
        {
            let above = soften_row(values, width, height, x as i64, y as i64 - 1);
            let middle = soften_row(values, width, height, x as i64, y as i64);
            let below = soften_row(values, width, height, x as i64, y as i64 + 1);
            let mean: u32 = (above + 2 * middle + below + 8) / 16;
            assert(mean <= 255);
            proof {
                lemma_pixel_index(x as int, y as int, width as int, height as int);
                assert(goal[y as int * width as int + x as int] == mean as u8);
            }
            res.push(mean as u8);
        }
        assert((y as int + 1) * width as int == y as int * width as int + width as int)
            by (nonlinear_arith);
    }
    assert(height as int * width as int == width as int * height as int) by (nonlinear_arith);
    assert(res@ =~= goal);
    res
}

/// The edge is softened by one pixel: a pixel keeps its value if all nine pixels
/// around it, itself and those outside the image included, have the same one.
pub proof fn law_only_the_edge_is_softened(
    values: Seq<u8>,
    width: int,
    height: int,
    x: int,
    y: int,
    value: u8,
)
    requires
        0 <= x < width,
        0 <= y < height,
        values.len() == width * height,
        forall|dx: int, dy: int|
            -1 <= dx <= 1 && -1 <= dy <= 1 ==> #[trigger] pixel(
                values,
                width,
                height,
                x + dx,
                y + dy,
            ) == value,
    ensures
        softened_image(values, width, height)[y * width + x] == value,
{
    lemma_pixel_index(x, y, width, height);
    assert(pixel(values, width, height, x + (-1), y + (-1)) == value);
    assert(pixel(values, width, height, x + 0, y + (-1)) == value);
    assert(pixel(values, width, height, x + 1, y + (-1)) == value);
    assert(pixel(values, width, height, x + (-1), y + 0) == value);
    assert(pixel(values, width, height, x + 0, y + 0) == value);
    assert(pixel(values, width, height, x + 1, y + 0) == value);
    assert(pixel(values, width, height, x + (-1), y + 1) == value);
    assert(pixel(values, width, height, x + 0, y + 1) == value);
    assert(pixel(values, width, height, x + 1, y + 1) == value);
    assert(softened(values, width, height, x, y) == value);
}

// ---------------------------------------------------------------------------
// Contours
// ---------------------------------------------------------------------------

/// How an outline is traced; measurements are bit patterns.
#[derive(Debug, Clone, Copy, PartialEq, Eq, Structural)]
pub struct OutlineSettings {
    pub alpha_threshold: u8,
    pub offset_mm: u64,
    /// The least diameter of a tool in millimeters; narrower grooves are closed.
    pub tool_diameter_mm: u64,
    /// The tolerance of simplification in millimeters; zero keeps all points.
    pub smoothing_mm: u64,
    pub minimum_component_area_mm2: u64,
}

/// How a keyhole is placed; measurements are bit patterns.
#[derive(Debug, Clone, Copy, PartialEq, Eq, Structural)]
pub struct HolePlacementSettings {
    pub diameter_mm: u64,
    pub edge_clearance_mm: u64,
    pub smoothing_mm: u64,
}

/// A silhouette with a border of one transparent pixel.
pub struct PaddedSilhouette {
    pub width: usize,
    pub height: usize,
    pub values: Vec<u8>,
}

/// A silhouette with a border of one transparent pixel.
pub open spec fn padded(values: Seq<u8>, width: int, height: int) -> Seq<u8> {
    Seq::new(
        ((width + 2) * (height + 2)) as nat,
        |i: int| pixel(values, width, height, i % (width + 2) - 1, i / (width + 2) - 1) as u8,
    )
}

/// Whether an image has pixels of both kinds: transparent ones and others.
pub open spec fn has_edge(values: Seq<u8>) -> bool {
    let transparent = count_of(values, 0, values.len() as int);
    0 < transparent < values.len()
}

/// Why a contour cannot be traced, in the order in which it is found out.
pub open spec fn trace_error(
    values: Seq<u8>,
    width: int,
    height: int,
    physical_width_mm: u64,
    physical_height_mm: u64,
    settings: OutlineSettings,
) -> Option<RasterError> {
    if !finite_positive(physical_width_mm) || !finite_positive(physical_height_mm) {
        Some(RasterError::InvalidPhysicalSize)
    } else if !finite_not_negative(settings.tool_diameter_mm) || !finite_not_negative(
        settings.smoothing_mm,
    ) || !finite_not_negative(settings.minimum_component_area_mm2) {
        Some(RasterError::InvalidOutlineSettings)
    } else if !has_edge(values) {
        Some(RasterError::NoTransparentEdge)
    } else if width + 2 > usize::MAX || height + 2 > usize::MAX || (width + 2) * (height + 2)
        > usize::MAX {
        Some(RasterError::DimensionsTooLarge)
    } else {
        None
    }
}

impl AlphaMask {
    /// Prepares the silhouette whose contour is traced: checks the physical size and
    /// the settings, and puts a border of transparent pixels around the image, so that
    /// every contour is closed.
    pub fn trace_contour(
        &self,
        physical_width_mm: u64,
        physical_height_mm: u64,
        settings: OutlineSettings,
    ) -> (res: Result<PaddedSilhouette, RasterError>)
        ensures
            match res {
                Ok(grid) => {
                    &&& trace_error(
                        self@,
                        self.spec_width() as int,
                        self.spec_height() as int,
                        physical_width_mm,
                        physical_height_mm,
                        settings,
                    ) is None
                    &&& grid.width == self.spec_width() + 2
                    &&& grid.height == self.spec_height() + 2
                    &&& grid.values@ == padded(
                        silhouette(self@, settings.alpha_threshold),
                        self.spec_width() as int,
                        self.spec_height() as int,
                    )
                },
                Err(error) => trace_error(
                    self@,
                    self.spec_width() as int,
                    self.spec_height() as int,
                    physical_width_mm,
                    physical_height_mm,
                    settings,
                ) == Some(error),
            },
    {
        proof {
            use_type_invariant(self);
        }
        if !is_finite_positive(physical_width_mm) || !is_finite_positive(physical_height_mm) {
            return Err(RasterError::InvalidPhysicalSize);
        }
        if !is_finite_not_negative(settings.tool_diameter_mm) || !is_finite_not_negative(
            settings.smoothing_mm,
        ) || !is_finite_not_negative(settings.minimum_component_area_mm2) {
            return Err(RasterError::InvalidOutlineSettings);
        }
        if !self.stats().has_transparent_edge() {
            return Err(RasterError::NoTransparentEdge);
        }
        let padded_width: usize = match (self.width as usize).checked_add(2) {
            Some(width) => width,
            None => return Err(RasterError::DimensionsTooLarge),
        };
        let padded_height: usize = match (self.height as usize).checked_add(2) {
            Some(height) => height,
            None => return Err(RasterError::DimensionsTooLarge),
        };
        let padded_len: usize = match padded_width.checked_mul(padded_height) {
            Some(len) => len,
            None => return Err(RasterError::DimensionsTooLarge),
        };
        let binary = threshold_alpha(self.values.as_slice(), settings.alpha_threshold);
        let mut values: Vec<u8> = Vec::new();
        let ghost goal = padded(binary@, self.width as int, self.height as int);
        for i in 0..padded_len
            invariant
                padded_width == self.width + 2,
                padded_height == self.height + 2,
                padded_len == padded_width as int * padded_height as int,
                binary@.len() == self.width as int * self.height as int,
                goal == padded(binary@, self.width as int, self.height as int),
                values@ == goal.take(i as int),
        {
            proof {
                lemma_pixel(i as int, padded_width as int, padded_height as int);
            }
            let x: i64 = (i % padded_width) as i64 - 1;
            let y: i64 = (i / padded_width) as i64 - 1;
            let value = pixel_at(binary.as_slice(), self.width, self.height, x, y);
            assert(goal[i as int] == value as u8);
            values.push(value as u8);
        }
        assert(values@ =~= goal);
        Ok(PaddedSilhouette { width: padded_width, height: padded_height, values })
    }

    /// Prepares the silhouette whose contour is offset outward: the offset has to be a
    /// finite number above zero.
    pub fn offset_outline(
        &self,
        physical_width_mm: u64,
        physical_height_mm: u64,
        settings: OutlineSettings,
    ) -> (res: Result<PaddedSilhouette, RasterError>)
        ensures
            match res {
                Ok(grid) => {
                    &&& finite_positive(settings.offset_mm)
                    &&& trace_error(
                        self@,
                        self.spec_width() as int,
                        self.spec_height() as int,
                        physical_width_mm,
                        physical_height_mm,
                        settings,
                    ) is None
                    &&& grid.width == self.spec_width() + 2
                    &&& grid.height == self.spec_height() + 2
                    &&& grid.values@ == padded(
                        silhouette(self@, settings.alpha_threshold),
                        self.spec_width() as int,
                        self.spec_height() as int,
                    )
                },
                Err(error) => if !finite_positive(settings.offset_mm) {
                    error is InvalidOutlineSettings
                } else {
                    trace_error(
                        self@,
                        self.spec_width() as int,
                        self.spec_height() as int,
                        physical_width_mm,
                        physical_height_mm,
                        settings,
                    ) == Some(error)
                },
            },
    {
        if !is_finite_positive(settings.offset_mm) {
            return Err(RasterError::InvalidOutlineSettings);
        }
        self.trace_contour(physical_width_mm, physical_height_mm, settings)
    }
}

/// The first and last rows and columns of a padded silhouette are transparent, so a
/// contour never leaves it.
pub proof fn law_padding_is_transparent(
    values: Seq<u8>,
    width: int,
    height: int,
    x: int,
    y: int,
)
    requires
        0 <= width,
        0 <= height,
        0 <= x < width + 2,
        0 <= y < height + 2,
        x == 0 || x == width + 1 || y == 0 || y == height + 1,
    ensures
        padded(values, width, height)[y * (width + 2) + x] == 0,
{
    lemma_pixel_index(x, y, width + 2, height + 2);
}

/// Inside its border a padded silhouette is the silhouette.
pub proof fn law_padding_keeps_the_silhouette(
    values: Seq<u8>,
    width: int,
    height: int,
    x: int,
    y: int,
)
    requires
        0 <= x < width,
        0 <= y < height,
        values.len() == width * height,
    ensures
        padded(values, width, height)[(y + 1) * (width + 2) + x + 1] == values[y * width + x],
{
    lemma_pixel_index(x + 1, y + 1, width + 2, height + 2);
}

/// Whether a component of that area is kept.
pub open spec fn is_usable(area: u64, minimum: u64) -> bool {
    !not_a_number(area) && !not_a_number(minimum) && !less(area, minimum)
}

/// The indexes of the first `end` areas that are not below the minimum.
pub open spec fn usable(areas: Seq<u64>, minimum: u64, end: int) -> Seq<usize>
    decreases end,
{
    if end <= 0 {
        Seq::empty()
    } else if is_usable(areas[end - 1], minimum) {
        usable(areas, minimum, end - 1).push((end - 1) as usize)
    } else {
        usable(areas, minimum, end - 1)
    }
}

/// Selects the components whose area is not below the minimum; there has to be one.
pub fn usable_components(areas: &[u64], minimum: u64) -> (res: Result<Vec<usize>, RasterError>)
    ensures
        match res {
            Ok(kept) => kept@ == usable(areas@, minimum, areas@.len() as int) && kept@.len() > 0,
            Err(error) => usable(areas@, minimum, areas@.len() as int).len() == 0
                && error is NoUsableContour,
        },
{
    let mut kept: Vec<usize> = Vec::new();
    for i in 0..areas.len()
        invariant
            kept@ == usable(areas@, minimum, i as int),
    {
        if !is_nan(areas[i]) && !is_nan(minimum) && !is_less(areas[i], minimum) {
            kept.push(i);
        }
    }
    if kept.len() == 0 {
        return Err(RasterError::NoUsableContour);
    }
    Ok(kept)
}

/// The bit pattern of the distance between one and the next larger number.
pub const EPSILON: u64 = 0x3cb0_0000_0000_0000;

/// Whether a component of that area is kept when grooves are closed.
pub open spec fn survives(area: u64, minimum: u64) -> bool {
    less(EPSILON, area) && is_usable(area, minimum)
}

/// Whether a component is kept when grooves are closed: its area is more than nothing
/// and not below the minimum.
pub fn survives_closing(area: u64, minimum: u64) -> (res: bool)
    ensures
        res == (less(EPSILON, area) && is_usable(area, minimum)),
        res == survives(area, minimum),
{
    is_less(EPSILON, area) && !is_nan(minimum) && !is_less(area, minimum)
}

/// Whether grooves are closed for a tool of that diameter.
pub fn closes_grooves(tool_diameter_mm: u64) -> (res: bool)
    ensures
        res == !not_above_zero(tool_diameter_mm),
{
    !is_not_above_zero(tool_diameter_mm)
}

/// Whether a keyhole can be placed with these settings.
pub open spec fn hole_settings_are_valid(settings: HolePlacementSettings) -> bool {
    &&& finite_not_negative(settings.diameter_mm)
    &&& finite_positive(settings.edge_clearance_mm)
    &&& finite_not_negative(settings.smoothing_mm)
}

/// Whether a keyhole is placed with these settings: none is if its diameter is zero.
pub fn check_hole_settings(settings: HolePlacementSettings) -> (res: Result<bool, RasterError>)
    ensures
        match res {
            Ok(placed) => hole_settings_are_valid(settings) && placed == less(
                0,
                settings.diameter_mm,
            ),
            Err(error) => !hole_settings_are_valid(settings) && error is InvalidHoleSettings,
        },
{
    if !is_finite_not_negative(settings.diameter_mm) || !is_finite_positive(
        settings.edge_clearance_mm,
    ) || !is_finite_not_negative(settings.smoothing_mm) {
        return Err(RasterError::InvalidHoleSettings);
    }
    Ok(is_less(0, settings.diameter_mm))
}

// ---------------------------------------------------------------------------
// Rings made of lines and arcs
// ---------------------------------------------------------------------------

/// Consecutive edges of a ring: a line, or edges that make up one arc.
#[derive(Debug, Clone, Copy, PartialEq, Eq, Structural)]
pub struct RingRun {
    /// The first edge.
    pub first: usize,
    /// How many edges.
    pub count: usize,
    pub is_arc: bool,
}

/// How a ring is drawn.
#[derive(Debug, Clone, PartialEq, Eq)]
pub enum RingPlan {
    /// With lines only.
    Lines,
    /// As a whole circle.
    Circle,
    /// With lines and arcs, from behind the first edge that is not on the circle.
    Runs(Vec<RingRun>),
}

/// The first edge that is not on the circle.
pub open spec fn first_line(circular: Seq<bool>, from: int) -> int
    decreases circular.len() - from,
{
    if from < circular.len() && circular[from] {
        first_line(circular, from + 1)
    } else {
        from
    }
}

/// The edge that comes `offset` edges behind the first line.
pub open spec fn edge_at(circular: Seq<bool>, offset: int) -> int {
    (first_line(circular, 0) + 1 + offset) % (circular.len() as int)
}

/// How many edges from `offset` on are on the circle.
pub open spec fn arc_length(circular: Seq<bool>, offset: int) -> int
    decreases circular.len() - offset,
{
    if offset < circular.len() && circular[edge_at(circular, offset)] {
        1 + arc_length(circular, offset + 1)
    } else {
        0
    }
}

/// The runs from `offset` on.
pub open spec fn runs_from(circular: Seq<bool>, offset: int) -> Seq<RingRun>
    decreases circular.len() - offset,
{
    if offset >= circular.len() {
        Seq::empty()
    } else {
        let first = edge_at(circular, offset) as usize;
        if !circular[edge_at(circular, offset)] {
            seq![RingRun { first, count: 1, is_arc: false }] + runs_from(circular, offset + 1)
        } else {
            let count = arc_length(circular, offset);
            proof {
                lemma_arc_length(circular, offset);
            }
            seq![RingRun { first, count: count as usize, is_arc: true }] + runs_from(
                circular,
                offset + count,
            )
        }
    }
}

/// An arc has at least one edge and ends with the ring.
pub proof fn lemma_arc_length(circular: Seq<bool>, offset: int)
    ensures
        0 <= arc_length(circular, offset),
        offset <= circular.len() ==> offset + arc_length(circular, offset) <= circular.len(),
        offset < circular.len() && circular[edge_at(circular, offset)] ==> arc_length(
            circular,
            offset,
        ) >= 1,
    decreases circular.len() - offset,
{
    if offset < circular.len() && circular[edge_at(circular, offset)] {
        lemma_arc_length(circular, offset + 1);
    }
}

proof fn lemma_first_line(circular: Seq<bool>, from: int)
    requires
        0 <= from <= circular.len(),
    ensures
        from <= first_line(circular, from) <= circular.len(),
        first_line(circular, from) < circular.len() ==> !circular[first_line(circular, from)],
        forall|i: int| from <= i < first_line(circular, from) ==> circular[i],
    decreases circular.len() - from,
{
    if from < circular.len() && circular[from] {
        lemma_first_line(circular, from + 1);
    }
}

/// Plans how a ring is drawn: `circular` says which of its edges are on the circle.
pub fn plan_ring(circular: &[bool]) -> (res: Result<RingPlan, RasterError>)
    ensures
        match res {
            Ok(RingPlan::Lines) => circular@.len() >= 3 && forall|i: int|
                0 <= i < circular@.len() ==> !#[trigger] circular@[i],
            Ok(RingPlan::Circle) => circular@.len() >= 3 && forall|i: int|
                0 <= i < circular@.len() ==> #[trigger] circular@[i],
            Ok(RingPlan::Runs(runs)) => {
                &&& circular@.len() >= 3
                &&& exists|i: int| 0 <= i < circular@.len() && #[trigger] circular@[i]
                &&& exists|i: int| 0 <= i < circular@.len() && !#[trigger] circular@[i]
                &&& runs@ == runs_from(circular@, 0)
            },
            Err(error) => circular@.len() < 3 && error is NoUsableContour,
        },
{
    if circular.len() < 3 {
        return Err(RasterError::NoUsableContour);
    }
    let count: usize = circular.len();
    let mut arcs: usize = 0;
    let mut line: usize = count;
    for i in 0..count
        invariant
            count == circular@.len(),
            arcs <= i,
            line <= count,
            arcs == 0 <==> forall|k: int| 0 <= k < i ==> !#[trigger] circular@[k],
            line == count ==> arcs == i && first_line(circular@, 0) == first_line(
                circular@,
                i as int,
            ) && forall|k: int| 0 <= k < i ==> #[trigger] circular@[k],
            line < count ==> line == first_line(circular@, 0) && !circular@[line as int],
    {
        if circular[i] {
            arcs = arcs + 1;
        } else if line == count {
            line = i;
        }
    }
    if arcs == 0 {
        return Ok(RingPlan::Lines);
    }
    if line == count {
        return Ok(RingPlan::Circle);
    }
    let mut runs: Vec<RingRun> = Vec::new();
    let mut offset: usize = 0;
    let ghost goal = runs_from(circular@, 0);
    assert(runs@ + goal =~= goal);
    while offset < count
        invariant
            count == circular@.len(),
            3 <= count,
            line < count,
            line == first_line(circular@, 0),
            offset <= count,
            goal == runs_from(circular@, 0),
            runs@ + runs_from(circular@, offset as int) == goal,
        decreases count - offset,
    {
        let first = ring_index(line, offset, count);
        let ghost before = runs@;
        let ghost rest = runs_from(circular@, offset as int);
        proof {
            lemma_arc_length(circular@, offset as int);
        }
        let mut length: usize = 0;
        if circular[first] {
            let mut going = true;
            while going
                invariant
                    count == circular@.len(),
                    3 <= count,
                    line < count,
                    line == first_line(circular@, 0),
                    offset + length <= count,
                    going ==> arc_length(circular@, offset as int) == length + arc_length(
                        circular@,
                        offset + length,
                    ),
                    !going ==> arc_length(circular@, offset as int) == length,
                decreases count - offset - length + if going { 1int } else { 0int },
            {
                if offset + length < count && circular[ring_index(line, offset + length, count)] {
                    length = length + 1;
                } else {
                    going = false;
                }
            }
            let run = RingRun { first, count: length, is_arc: true };
            runs.push(run);
            proof {
                let next = runs_from(circular@, offset + length);
                assert(rest == seq![run] + next);
                assert(runs@ + next =~= before + rest);
            }
            offset = offset + length;
        } else {
            let run = RingRun { first, count: 1, is_arc: false };
            runs.push(run);
            proof {
                let next = runs_from(circular@, offset + 1);
                assert(rest == seq![run] + next);
                assert(runs@ + next =~= before + rest);
            }
            offset = offset + 1;
        }
    }
    assert(runs@ =~= goal);
    Ok(RingPlan::Runs(runs))
}

fn ring_index(line: usize, offset: usize, count: usize) -> (res: usize)
    requires
        line < count,
        offset < count,
    ensures
        res == (line + 1 + offset) % (count as int),
        res < count,
{
    let room: usize = count - 1 - line;
    if offset < room {
        let res: usize = line + 1 + offset;
        assert(res == res % count) by {
            vstd::arithmetic::div_mod::lemma_small_mod(res as nat, count as nat);
        }
        res
    } else {
        let res: usize = offset - room;
        assert((line + 1 + offset) % (count as int) == res) by {
            vstd::arithmetic::div_mod::lemma_small_mod(res as nat, count as nat);
            vstd::arithmetic::div_mod::lemma_mod_add_multiples_vanish(res as int, count as int);
        }
        res
    }
}

/// How many edges the runs from `from` on have.
pub open spec fn edge_count(runs: Seq<RingRun>) -> nat
    decreases runs.len(),
{
    if runs.len() == 0 {
        0
    } else {
        runs[0].count as nat + edge_count(runs.skip(1))
    }
}

/// The runs of a ring with a line are all of its edges, each once, in their order.
pub proof fn law_runs_cover_the_ring(circular: Seq<bool>, offset: int)
    requires
        0 <= offset <= circular.len() <= usize::MAX,
    ensures
        edge_count(runs_from(circular, offset)) == circular.len() - offset,
        runs_follow(runs_from(circular, offset), circular, offset),
    decreases circular.len() - offset,
{
    if offset < circular.len() {
        lemma_arc_length(circular, offset);
        let runs = runs_from(circular, offset);
        let count = if circular[edge_at(circular, offset)] {
            arc_length(circular, offset)
        } else {
            1
        };
        vstd::arithmetic::div_mod::lemma_mod_bound(
            first_line(circular, 0) + 1 + offset,
            circular.len() as int,
        );
        law_runs_cover_the_ring(circular, offset + count);
        assert(runs.skip(1) =~= runs_from(circular, offset + count));
    }
}

/// Whether each run starts where the one before it ends, the first one at `offset`.
pub open spec fn runs_follow(runs: Seq<RingRun>, circular: Seq<bool>, offset: int) -> bool
    decreases runs.len(),
{
    runs.len() > 0 ==> {
        &&& runs[0].first == edge_at(circular, offset)
        &&& runs[0].count >= 1
        &&& runs_follow(runs.skip(1), circular, offset + runs[0].count)
    }
}

/// The path along the vertices of a ring; the first one may be repeated at the end.
pub fn line_curve_path(vertices: Vec<PointMm>) -> (res: Result<ClosedPath, RasterError>)
    ensures
        match res {
            Ok(path) => {
                &&& all_points_finite(vertices@)
                &&& without_closing(vertices@).len() >= 3
                &&& path@ == polygon(without_closing(vertices@))
                &&& is_closed_path(path@)
            },
            Err(error) => {
                &&& !all_points_finite(vertices@) || without_closing(vertices@).len() < 3
                &&& error is NoUsableContour
            },
        },
{
    match ClosedPath::try_from_vertices(vertices) {
        Ok(path) => Ok(path),
        Err(_) => Err(RasterError::NoUsableContour),
    }
}

// ---------------------------------------------------------------------------
// What masks, silhouettes and rings are for
// ---------------------------------------------------------------------------

/// The box around the content holds every pixel above the threshold, and each of its four
/// sides touches one. There is only one such box.
pub proof fn law_content_fills_its_box(
    values: Seq<u8>,
    width: int,
    height: int,
    threshold: u8,
    bounds: PixelBounds,
    other: PixelBounds,
)
    requires
        0 < width,
        0 <= height,
        values.len() == width * height,
        bounds_above(values, width, threshold, values.len() as int, Some(bounds)),
    ensures
        forall|x: int, y: int|
            0 <= x < width && 0 <= y < height && #[trigger] pixel(values, width, height, x, y)
                > threshold ==> bounds.left <= x <= bounds.right && bounds.top <= y
                <= bounds.bottom,
        exists|y: int| #[trigger]
            pixel(values, width, height, bounds.left as int, y) > threshold,
        exists|y: int| #[trigger]
            pixel(values, width, height, bounds.right as int, y) > threshold,
        exists|x: int| #[trigger] pixel(values, width, height, x, bounds.top as int) > threshold,
        exists|x: int| #[trigger]
            pixel(values, width, height, x, bounds.bottom as int) > threshold,
        bounds_above(values, width, threshold, values.len() as int, Some(other)) ==> other
            == bounds,
        !bounds_above(values, width, threshold, values.len() as int, None),
{
    assert forall|x: int, y: int|
        0 <= x < width && 0 <= y < height && #[trigger] pixel(values, width, height, x, y)
            > threshold implies bounds.left <= x <= bounds.right && bounds.top <= y
        <= bounds.bottom by {
        lemma_pixel_index(x, y, width, height);
        assert(values[y * width + x] > threshold);
    }
    lemma_bounds_touch(values, width, height, threshold, bounds);
    if bounds_above(values, width, threshold, values.len() as int, Some(other)) {
        lemma_bounds_touch(values, width, height, threshold, other);
    }
    let l = choose|i: int|
        0 <= i < values.len() && #[trigger] values[i] > threshold && i % width == bounds.left;
    assert(values[l] > threshold);
}

proof fn lemma_bounds_touch(
    values: Seq<u8>,
    width: int,
    height: int,
    threshold: u8,
    bounds: PixelBounds,
)
    requires
        0 < width,
        0 <= height,
        values.len() == width * height,
        bounds_above(values, width, threshold, values.len() as int, Some(bounds)),
    ensures
        exists|y: int| #[trigger]
            pixel(values, width, height, bounds.left as int, y) > threshold,
        exists|y: int| #[trigger]
            pixel(values, width, height, bounds.right as int, y) > threshold,
        exists|x: int| #[trigger] pixel(values, width, height, x, bounds.top as int) > threshold,
        exists|x: int| #[trigger]
            pixel(values, width, height, x, bounds.bottom as int) > threshold,
{
    let l = choose|i: int|
        0 <= i < values.len() && #[trigger] values[i] > threshold && i % width == bounds.left;
    let r = choose|i: int|
        0 <= i < values.len() && #[trigger] values[i] > threshold && i % width == bounds.right;
    let t = choose|i: int|
        0 <= i < values.len() && #[trigger] values[i] > threshold && i / width == bounds.top;
    let b = choose|i: int|
        0 <= i < values.len() && #[trigger] values[i] > threshold && i / width == bounds.bottom;
    lemma_pixel_of_index(values, l, width, height);
    lemma_pixel_of_index(values, r, width, height);
    lemma_pixel_of_index(values, t, width, height);
    lemma_pixel_of_index(values, b, width, height);
}

proof fn lemma_pixel_of_index(values: Seq<u8>, i: int, width: int, height: int)
    requires
        0 < width,
        0 <= height,
        values.len() == width * height,
        0 <= i < values.len(),
    ensures
        pixel(values, width, height, i % width, i / width) == values[i],
{
    lemma_pixel(i, width, height);
    vstd::arithmetic::div_mod::lemma_fundamental_div_mod(i, width);
    assert(i / width * width + i % width == i) by (nonlinear_arith)
        requires
            i == width * (i / width) + i % width,
    ;
}

/// A pixel of a silhouette is opaque exactly if its alpha is above the threshold; what is
/// opaque at a threshold is opaque at every lower one.
pub proof fn law_silhouettes_shrink_with_the_threshold(
    values: Seq<u8>,
    threshold: u8,
    higher: u8,
    i: int,
)
    requires
        threshold <= higher,
        0 <= i < values.len(),
    ensures
        silhouette(values, threshold).len() == values.len(),
        silhouette(values, threshold)[i] == 255 || silhouette(values, threshold)[i] == 0,
        silhouette(values, threshold)[i] == 0 <==> values[i] <= threshold,
        silhouette(values, higher)[i] <= silhouette(values, threshold)[i],
{
}

/// A softened pixel is the mean of the nine pixels around it, rounded to the nearest: the
/// pixel itself counts four times, those that share a side with it twice, those that share a
/// corner once.
pub proof fn law_softening_weighs_by_nearness(
    values: Seq<u8>,
    width: int,
    height: int,
    x: int,
    y: int,
)
    requires
        0 <= x < width,
        0 <= y < height,
        values.len() == width * height,
    ensures
        ({
            let p = |dx: int, dy: int| pixel(values, width, height, x + dx, y + dy);
            let sum = 4 * p(0, 0) + 2 * (p(-1, 0) + p(1, 0) + p(0, -1) + p(0, 1)) + p(-1, -1) + p(
                1,
                -1,
            ) + p(-1, 1) + p(1, 1);
            let mean = softened_image(values, width, height)[y * width + x];
            16 * mean <= sum + 8 < 16 * mean + 16
        }),
{
    lemma_pixel_index(x, y, width, height);
    let mean = softened(values, width, height, x, y);
    assert(0 <= mean <= 255);
    assert(softened_image(values, width, height)[y * width + x] == mean as u8);
}

/// There is an edge exactly if some pixel is fully transparent and some pixel is not.
pub proof fn law_an_edge_has_two_sides(values: Seq<u8>)
    ensures
        has_edge(values) <==> (exists|i: int| 0 <= i < values.len() && #[trigger] values[i] == 0)
            && (exists|i: int| 0 <= i < values.len() && #[trigger] values[i] != 0),
{
    lemma_count_of(values, 0, values.len() as int);
}

proof fn lemma_count_of(values: Seq<u8>, value: u8, end: int)
    requires
        0 <= end <= values.len(),
    ensures
        count_of(values, value, end) <= end,
        count_of(values, value, end) == 0 <==> forall|i: int|
            0 <= i < end ==> #[trigger] values[i] != value,
        count_of(values, value, end) == end <==> forall|i: int|
            0 <= i < end ==> #[trigger] values[i] == value,
    decreases end,
{
    if end > 0 {
        lemma_count_of(values, value, end - 1);
    }
}

/// The components that are kept are those that are not smaller than the minimum, each once,
/// in their order.
pub proof fn law_large_components_are_kept(areas: Seq<u64>, minimum: u64, end: int)
    requires
        0 <= end <= areas.len() <= usize::MAX,
    ensures
        ({
            let kept = usable(areas, minimum, end);
            &&& forall|i: usize| #[trigger]
                kept.contains(i) <==> i < end && !not_a_number(areas[i as int]) && !not_a_number(
                    minimum,
                ) && !less(areas[i as int], minimum)
            &&& forall|a: int, b: int|
                0 <= a < b < kept.len() ==> #[trigger] kept[a] < #[trigger] kept[b]
        }),
    decreases end,
{
    if end > 0 {
        law_large_components_are_kept(areas, minimum, end - 1);
        let before = usable(areas, minimum, end - 1);
        let kept = usable(areas, minimum, end);
        assert forall|i: usize| #[trigger] kept.contains(i) <==> i < end && is_usable(
            areas[i as int],
            minimum,
        ) by {
            if kept.contains(i) {
                let k = choose|k: int| 0 <= k < kept.len() && kept[k] == i;
                if k < before.len() {
                    assert(before[k] == i);
                    assert(before.contains(i));
                }
            }
            if i < end && is_usable(areas[i as int], minimum) {
                if i < end - 1 {
                    assert(before.contains(i));
                    let k = choose|k: int| 0 <= k < before.len() && before[k] == i;
                    assert(kept[k] == i);
                } else {
                    assert(kept[kept.len() - 1] == i);
                }
            }
        }
        assert forall|a: int, b: int| 0 <= a < b < kept.len() implies #[trigger] kept[a]
            < #[trigger] kept[b] by {
            assert(a < before.len() && before.contains(before[a]));
            if b < before.len() {
                assert(before[a] < before[b]);
            }
        }
    }
}

/// How an outline can be traced: with a size above zero, with measurements that are not below
/// zero, from a picture with an edge. Anything else is refused, and the size comes first.
pub proof fn law_contours_are_traced_around_edges(
    values: Seq<u8>,
    width: int,
    height: int,
    physical_width_mm: u64,
    physical_height_mm: u64,
    settings: OutlineSettings,
)
    requires
        (width + 2) * (height + 2) <= usize::MAX,
        width + 2 <= usize::MAX,
        height + 2 <= usize::MAX,
    ensures
        ({
            let error = trace_error(
                values,
                width,
                height,
                physical_width_mm,
                physical_height_mm,
                settings,
            );
            let sized = finite_positive(physical_width_mm) && finite_positive(physical_height_mm);
            let set = finite_not_negative(settings.tool_diameter_mm) && finite_not_negative(
                settings.smoothing_mm,
            ) && finite_not_negative(settings.minimum_component_area_mm2);
            &&& error is None <==> sized && set && has_edge(values)
            &&& error == Some(RasterError::InvalidPhysicalSize) <==> !sized
            &&& error == Some(RasterError::NoTransparentEdge) <==> sized && set && !has_edge(
                values,
            )
        }),
{
}

/// Whether the edges of a run are all of its kind.
pub open spec fn is_run_of_its_kind(run: RingRun, circular: Seq<bool>) -> bool {
    &&& run.count >= 1
    &&& !run.is_arc ==> run.count == 1
    &&& forall|j: int|
        0 <= j < run.count ==> #[trigger] circular[(run.first + j) % (circular.len() as int)]
            == run.is_arc
}

proof fn lemma_edge_at(circular: Seq<bool>, offset: int, j: int)
    requires
        circular.len() > 0,
    ensures
        (edge_at(circular, offset) + j) % (circular.len() as int) == edge_at(circular, offset + j),
{
    let n = circular.len() as int;
    vstd::arithmetic::div_mod::lemma_add_mod_noop_right(
        j,
        first_line(circular, 0) + 1 + offset,
        n,
    );
}

proof fn lemma_arc_is_circular(circular: Seq<bool>, offset: int, j: int)
    requires
        0 <= j < arc_length(circular, offset),
    ensures
        circular[edge_at(circular, offset + j)],
    decreases j,
{
    if j > 0 {
        lemma_arc_is_circular(circular, offset + 1, j - 1);
    }
}

proof fn lemma_arc_ends(circular: Seq<bool>, offset: int)
    requires
        0 <= offset,
        offset + arc_length(circular, offset) < circular.len(),
    ensures
        !circular[edge_at(circular, offset + arc_length(circular, offset))],
    decreases circular.len() - offset,
{
    if offset < circular.len() && circular[edge_at(circular, offset)] {
        lemma_arc_ends(circular, offset + 1);
    }
}

/// A run of a ring is one line that is not on the circle, or an arc of edges that all are.
/// Arcs are as long as they can be: no arc follows another.
pub proof fn law_runs_are_lines_or_whole_arcs(circular: Seq<bool>, offset: int)
    requires
        0 <= offset <= circular.len() <= usize::MAX,
    ensures
        ({
            let runs = runs_from(circular, offset);
            &&& forall|k: int|
                0 <= k < runs.len() ==> is_run_of_its_kind(#[trigger] runs[k], circular)
            &&& forall|k: int|
                0 <= k && k + 1 < runs.len() && (#[trigger] runs[k]).is_arc ==> !runs[k + 1].is_arc
            &&& offset < circular.len() ==> runs.len() > 0 && runs[0].is_arc == circular[edge_at(
                circular,
                offset,
            )]
        }),
    decreases circular.len() - offset,
{
    if offset < circular.len() {
        lemma_arc_length(circular, offset);
        let runs = runs_from(circular, offset);
        let edge = edge_at(circular, offset);
        let count = if circular[edge] {
            arc_length(circular, offset)
        } else {
            1
        };
        vstd::arithmetic::div_mod::lemma_mod_bound(
            first_line(circular, 0) + 1 + offset,
            circular.len() as int,
        );
        law_runs_are_lines_or_whole_arcs(circular, offset + count);
        let rest = runs_from(circular, offset + count);
        assert(runs =~= seq![runs[0]] + rest);
        assert forall|j: int| 0 <= j < count implies #[trigger] circular[(edge + j) % (
        circular.len() as int)] == runs[0].is_arc by {
            lemma_edge_at(circular, offset, j);
            if circular[edge] {
                lemma_arc_is_circular(circular, offset, j);
            }
        }
        assert(is_run_of_its_kind(runs[0], circular));
        assert forall|k: int| 0 <= k < runs.len() implies is_run_of_its_kind(
            #[trigger] runs[k],
            circular,
        ) by {
            if k > 0 {
                assert(runs[k] == rest[k - 1]);
            }
        }
        assert forall|k: int| 0 <= k && k + 1 < runs.len() && (
        #[trigger] runs[k]).is_arc implies !runs[k + 1].is_arc by {
            assert(runs[k + 1] == rest[k]);
            if k > 0 {
                assert(runs[k] == rest[k - 1]);
            } else {
                lemma_arc_ends(circular, offset);
            }
        }
    }
}

/// The runs of a ring start behind a line: no arc is cut where the ring is opened.
pub proof fn law_a_ring_is_opened_behind_a_line(circular: Seq<bool>)
    requires
        exists|i: int| 0 <= i < circular.len() && !#[trigger] circular[i],
        circular.len() <= usize::MAX,
    ensures
        runs_from(circular, 0).len() > 0,
        ({
            let first = runs_from(circular, 0)[0].first as int;
            let before = if first == 0 {
                circular.len() - 1
            } else {
                first - 1
            };
            0 <= first < circular.len() && !circular[before]
        }),
{
    lemma_first_line(circular, 0);
    let n = circular.len() as int;
    let line = first_line(circular, 0);
    let i = choose|i: int| 0 <= i < circular.len() && !#[trigger] circular[i];
    assert(line < n);
    lemma_arc_length(circular, 0);
    if line + 1 == n {
        vstd::arithmetic::div_mod::lemma_mod_self_0(n);
    } else {
        vstd::arithmetic::div_mod::lemma_small_mod((line + 1) as nat, n as nat);
    }
}

/// A component survives the closing of grooves only if it is kept at all, and is more than
/// nothing; a larger component survives where a smaller one does.
pub proof fn law_large_components_survive(area: u64, larger: u64, minimum: u64)
    ensures
        survives(area, minimum) ==> is_usable(area, minimum) && less(0, area),
        is_usable(area, minimum) && less(EPSILON, area) ==> survives(area, minimum),
        survives(area, minimum) && less(area, larger) ==> survives(larger, minimum),
        !survives(0, minimum),
{
}

/// A keyhole can be placed with a clearance above zero and a diameter and a smoothing that are
/// not below; a diameter of zero is in order.
pub proof fn law_keyholes_need_a_clearance(settings: HolePlacementSettings)
    ensures
        hole_settings_are_valid(settings) <==> crate::measure::finite(settings.diameter_mm)
            && !less(settings.diameter_mm, 0) && crate::measure::finite(
            settings.edge_clearance_mm,
        ) && less(0, settings.edge_clearance_mm) && crate::measure::finite(settings.smoothing_mm)
            && !less(settings.smoothing_mm, 0),
        hole_settings_are_valid(settings) ==> hole_settings_are_valid(
            HolePlacementSettings { diameter_mm: 0, ..settings },
        ),
        !hole_settings_are_valid(HolePlacementSettings { edge_clearance_mm: 0, ..settings }),
{
}

} // verus!
