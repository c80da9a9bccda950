//! Cutting a picture down to its content and softening its edge.

use vstd::prelude::*;

use crate::raster::{
    bounds_above, lemma_pixel_index, pixel, softened, softened_silhouette, silhouette, AlphaMask,
    PixelBounds,
};

verus! {

/// Pixels whose alpha is not above this are not content.
pub const TRIM_ALPHA_THRESHOLD: u8 = 96;

/// The width of the border around the content of a trimmed picture.
pub const TRIM_BORDER: u32 = 2;

/// A pixel.
#[derive(Debug, Clone, Copy, PartialEq, Eq, Structural)]
pub struct Rgba {
    pub red: u8,
    pub green: u8,
    pub blue: u8,
    pub alpha: u8,
}

/// Nothing.
pub open spec fn clear() -> Rgba {
    Rgba { red: 0, green: 0, blue: 0, alpha: 0 }
}

/// A picture, row by row.
#[derive(Debug, PartialEq, Eq)]
pub struct Picture {
    width: u32,
    height: u32,
    pixels: Vec<Rgba>,
}

/// The alpha channel of a picture.
pub open spec fn alphas(pixels: Seq<Rgba>) -> Seq<u8> {
    pixels.map_values(|p: Rgba| p.alpha)
}

impl Picture {
    /// The pixels, row by row.
    pub closed spec fn view(&self) -> Seq<Rgba> {
        self.pixels@
    }

    pub closed spec fn spec_width(&self) -> u32 {
        self.width
    }

    pub closed spec fn spec_height(&self) -> u32 {
        self.height
    }

    #[verifier::type_invariant]
    closed spec fn is_rectangle(self) -> bool {
        self.pixels@.len() == self.width as int * self.height as int
    }

    /// The pixel in a column and a row.
    pub open spec fn at(&self, x: int, y: int) -> Rgba {
        self@[y * self.spec_width() + x]
    }

    /// A picture of the given size; `pixels` has to hold every pixel.
    pub fn try_new(width: u32, height: u32, pixels: Vec<Rgba>) -> (res: Option<Picture>)
        ensures
            match res {
                Some(picture) => {
                    &&& pixels@.len() == width as int * height as int
                    &&& picture@ == pixels@
                    &&& picture.spec_width() == width
                    &&& picture.spec_height() == height
                },
                None => pixels@.len() != width as int * height as int,
            },
    {
        assert(width as int * height as int <= 0xffff_ffff * 0xffff_ffff) by (nonlinear_arith)
            requires
                width <= 0xffff_ffff,
                height <= 0xffff_ffff,
        ;
        if pixels.len() as u64 != width as u64 * height as u64 {
            return None;
        }
        Some(Picture { width, height, pixels })
    }

    pub fn width(&self) -> (res: u32)
        ensures
            res == self.spec_width(),
            self@.len() == self.spec_width() as int * self.spec_height() as int,
    {
        proof {
            use_type_invariant(self);
        }
        self.width
    }

    pub fn height(&self) -> (res: u32)
        ensures
            res == self.spec_height(),
            self@.len() == self.spec_width() as int * self.spec_height() as int,
    {
        proof {
            use_type_invariant(self);
        }
        self.height
    }

    /// The pixel in a column and a row.
    pub fn get_pixel(&self, x: u32, y: u32) -> (res: Rgba)
        requires
            x < self.spec_width(),
            y < self.spec_height(),
        ensures
            res == self.at(x as int, y as int),
    {
        proof {
            use_type_invariant(self);
            lemma_pixel_index(x as int, y as int, self.width as int, self.height as int);
        }
        let len: usize = self.pixels.len();
        assert(y as int * self.width as int + x as int <= len);
        self.pixels[y as usize * self.width as usize + x as usize]
    }

    /// The alpha channel of the picture.
    pub fn alpha_mask(&self) -> (res: AlphaMask)
        ensures
            res@ == alphas(self@),
            res.spec_width() == self.spec_width(),
            res.spec_height() == self.spec_height(),
    {
        proof {
            use_type_invariant(self);
        }
        let mut values: Vec<u8> = Vec::new();
        for i in 0..self.pixels.len()
            invariant
                values@ == alphas(self.pixels@).take(i as int),
        {
            values.push(self.pixels[i].alpha);
        }
        let len: usize = values.len();
        assert(values@ =~= alphas(self.pixels@));
        AlphaMask::try_new(self.width, self.height, values).unwrap()
    }
}

// ---------------------------------------------------------------------------
// Trimming
// ---------------------------------------------------------------------------

/// The content of `picture` in `bounds`, with a border of nothing around it.
pub open spec fn bordered(
    pixels: Seq<Rgba>,
    picture_width: int,
    bounds: PixelBounds,
    x: int,
    y: int,
) -> Rgba {
    let left = x - TRIM_BORDER + bounds.left;
    let top = y - TRIM_BORDER + bounds.top;
    if bounds.left <= left <= bounds.right && bounds.top <= top <= bounds.bottom {
        pixels[top * picture_width + left]
    } else {
        clear()
    }
}

/// The width of what is trimmed to `bounds`.
pub open spec fn trimmed_width(bounds: PixelBounds) -> int {
    bounds.right - bounds.left + 1 + 2 * TRIM_BORDER
}

/// The height of what is trimmed to `bounds`.
pub open spec fn trimmed_height(bounds: PixelBounds) -> int {
    bounds.bottom - bounds.top + 1 + 2 * TRIM_BORDER
}

/// The bordered content as a picture.
pub open spec fn bordered_picture(
    pixels: Seq<Rgba>,
    picture_width: int,
    bounds: PixelBounds,
) -> Seq<Rgba> {
    let width = trimmed_width(bounds);
    Seq::new(
        (width * trimmed_height(bounds)) as nat,
        |i: int| bordered(pixels, picture_width, bounds, i % width, i / width),
    )
}

/// Whether a pixel is content.
pub open spec fn is_content(p: Rgba) -> bool {
    p.alpha > TRIM_ALPHA_THRESHOLD
}

/// The column of the neighbor with that number; neighbors are counted row by row.
pub open spec fn neighbor_x(x: int, k: int) -> int {
    x - 1 + k % 3
}

/// The row of the neighbor with that number.
pub open spec fn neighbor_y(y: int, k: int) -> int {
    y - 1 + k / 3
}

/// The square of the distance to the neighbor with that number.
pub open spec fn neighbor_distance(k: int) -> int {
    (if k % 3 == 1 {
        0int
    } else {
        1int
    }) + (if k / 3 == 1 {
        0int
    } else {
        1int
    })
}

/// The nearest of the first `count` neighbors that is content; the first of those that
/// are equally near.
pub open spec fn nearest(
    pixels: Seq<Rgba>,
    width: int,
    height: int,
    x: int,
    y: int,
    count: int,
) -> Option<int>
    decreases count,
{
    if count <= 0 {
        None
    } else {
        let before = nearest(pixels, width, height, x, y, count - 1);
        let k = count - 1;
        let column = neighbor_x(x, k);
        let row = neighbor_y(y, k);
        let inside = 0 <= column < width && 0 <= row < height;
        if inside && is_content(pixels[row * width + column]) && match before {
            Some(found) => neighbor_distance(k) < neighbor_distance(found),
            None => true,
        } {
            Some(k)
        } else {
            before
        }
    }
}

/// Whether a pixel belongs to the border of a trimmed picture.
pub open spec fn in_border(width: int, height: int, x: int, y: int) -> bool {
    x < TRIM_BORDER || y < TRIM_BORDER || x + TRIM_BORDER >= width || y + TRIM_BORDER >= height
}

/// A pixel of a trimmed picture: content keeps its color and loses alpha at the edge,
/// the border takes the color of the nearest content where the edge reaches into it.
pub open spec fn trimmed_pixel(
    source: Seq<Rgba>,
    softened: Seq<u8>,
    width: int,
    height: int,
    x: int,
    y: int,
) -> Rgba {
    let i = y * width + x;
    let own = source[i];
    let soft = softened[i];
    if in_border(width, height, x, y) {
        match nearest(source, width, height, x, y, 9) {
            Some(k) => if soft == 0 {
                clear()
            } else {
                let p = source[neighbor_y(y, k) * width + neighbor_x(x, k)];
                Rgba { red: p.red, green: p.green, blue: p.blue, alpha: soft }
            },
            None => clear(),
        }
    } else if !is_content(own) {
        clear()
    } else {
        Rgba {
            red: own.red,
            green: own.green,
            blue: own.blue,
            alpha: if own.alpha < soft {
                own.alpha
            } else {
                soft
            },
        }
    }
}

/// What is left of a picture that is trimmed to `bounds`.
pub open spec fn trimmed_picture(
    pixels: Seq<Rgba>,
    picture_width: int,
    bounds: PixelBounds,
) -> Seq<Rgba> {
    let width = trimmed_width(bounds);
    let height = trimmed_height(bounds);
    let source = bordered_picture(pixels, picture_width, bounds);
    let soft = softened_silhouette(alphas(source), width, height, TRIM_ALPHA_THRESHOLD);
    Seq::new(
        (width * height) as nat,
        |i: int| trimmed_pixel(source, soft, width, height, i % width, i / width),
    )
}

fn border(picture: &Picture, bounds: PixelBounds, width: u32, height: u32) -> (res: Picture)
    requires
        bounds.left <= bounds.right < picture.spec_width(),
        bounds.top <= bounds.bottom < picture.spec_height(),
        width == trimmed_width(bounds),
        height == trimmed_height(bounds),
        width as int * height as int <= usize::MAX,
    ensures
        res@ == bordered_picture(picture@, picture.spec_width() as int, bounds),
        res.spec_width() == width,
        res.spec_height() == height,
{
    let ghost goal = bordered_picture(picture@, picture.spec_width() as int, bounds);
    let mut pixels: Vec<Rgba> = Vec::new();
    assert(0int * (width as int) == 0) by (nonlinear_arith);
    for y in 0..height
        invariant
            bounds.left <= bounds.right < picture.spec_width(),
            bounds.top <= bounds.bottom < picture.spec_height(),
            width == trimmed_width(bounds),
            height == trimmed_height(bounds),
            goal == bordered_picture(picture@, picture.spec_width() as int, bounds),
            pixels@.len() == y as int * width as int,
            forall|i: int| 0 <= i < pixels@.len() ==> pixels@[i] == goal[i],
    {
        for x in 0..width
            invariant
                y < height,
                bounds.left <= bounds.right < picture.spec_width(),
                bounds.top <= bounds.bottom < picture.spec_height(),
                width == trimmed_width(bounds),
                height == trimmed_height(bounds),
                goal == bordered_picture(picture@, picture.spec_width() as int, bounds),
                pixels@.len() == y as int * width as int + x as int,
                forall|i: int| 0 <= i < pixels@.len() ==> pixels@[i] == goal[i],
        {
            let inside = x >= TRIM_BORDER && y >= TRIM_BORDER && x - TRIM_BORDER <= bounds.right
                - bounds.left && y - TRIM_BORDER <= bounds.bottom - bounds.top;
            let own = if inside {
                picture.get_pixel(
                    x - TRIM_BORDER + bounds.left,
                    y - TRIM_BORDER + bounds.top,
                )
            } else {
                Rgba { red: 0, green: 0, blue: 0, alpha: 0 }
            };
            proof {
                lemma_pixel_index(x as int, y as int, width as int, height as int);
                assert(goal[y as int * width as int + x as int] == own);
            }
            pixels.push(own);
        }
        assert((y as int + 1) * width as int == y as int * width as int + width as int)
            by (nonlinear_arith);
    }
    assert(height as int * width as int == width as int * height as int) by (nonlinear_arith);
    assert(pixels@ =~= goal);
    Picture { width, height, pixels }
}

/// The color of the nearest content around a pixel.
fn nearest_content_rgb(picture: &Picture, x: u32, y: u32) -> (res: Option<Rgba>)
    requires
        x < picture.spec_width() < u32::MAX,
        y < picture.spec_height() < u32::MAX,
    ensures
        match res {
            Some(p) => nearest(
                picture@,
                picture.spec_width() as int,
                picture.spec_height() as int,
                x as int,
                y as int,
                9,
            ) matches Some(k) && p == picture.at(
                neighbor_x(x as int, k),
                neighbor_y(y as int, k),
            ),
            None => nearest(
                picture@,
                picture.spec_width() as int,
                picture.spec_height() as int,
                x as int,
                y as int,
                9,
            ) is None,
        },
{
    let width: u32 = picture.width();
    let height: u32 = picture.height();
    let mut found: Option<u32> = None;
    let mut color = Rgba { red: 0, green: 0, blue: 0, alpha: 0 };
    for k in 0..9u32
        invariant
            width == picture.spec_width() < u32::MAX,
            height == picture.spec_height() < u32::MAX,
            x < width,
            y < height,
            match found {
                Some(n) => n < 9 && nearest(
                    picture@,
                    width as int,
                    height as int,
                    x as int,
                    y as int,
                    k as int,
                ) == Some(n as int) && color == picture.at(
                    neighbor_x(x as int, n as int),
                    neighbor_y(y as int, n as int),
                ),
                None => nearest(
                    picture@,
                    width as int,
                    height as int,
                    x as int,
                    y as int,
                    k as int,
                ) is None,
            },
    {
        let column: u32 = x + k % 3;
        let row: u32 = y + k / 3;
        if column >= 1 && row >= 1 && column - 1 < width && row - 1 < height {
            let p = picture.get_pixel(column - 1, row - 1);
            if p.alpha > TRIM_ALPHA_THRESHOLD {
                let closer = match found {
                    Some(n) => distance_of(k) < distance_of(n),
                    None => true,
                };
                if closer {
                    found = Some(k);
                    color = p;
                }
            }
        }
    }
    match found {
        Some(_) => Some(color),
        None => None,
    }
}

fn distance_of(k: u32) -> (res: u32)
    requires
        k < 9,
    ensures
        res == neighbor_distance(k as int),
{
    let dx: u32 = if k % 3 == 1 {
        0
    } else {
        1
    };
    let dy: u32 = if k / 3 == 1 {
        0
    } else {
        1
    };
    dx + dy
}

/// A picture that holds nothing to keep.
#[derive(Debug, Clone, Copy, PartialEq, Eq, Structural)]
pub struct NoContent;

/// What is shown for a picture that holds nothing to keep.
pub fn no_content_message() -> (res: &'static str)
    ensures
        res@ == "位图没有高于透明阈值的可见像素"@,
{
    "位图没有高于透明阈值的可见像素"
}

/// Whether the trimmed form of any picture of that size fits into memory.
pub open spec fn fits_trimming(width: int, height: int) -> bool {
    &&& width + 4 < u32::MAX
    &&& height + 4 < u32::MAX
    &&& (width + 4) * (height + 4) * 4 <= usize::MAX
}

/// Cuts a picture down to the box around its content, with a border into which the
/// softened edge reaches.
pub fn trim_rgba_image(picture: &Picture) -> (res: Result<Picture, NoContent>)
    requires
        fits_trimming(picture.spec_width() as int, picture.spec_height() as int),
    ensures
        match res {
            Ok(trimmed) => exists|bounds: PixelBounds|
                bounds_above(
                    alphas(picture@),
                    picture.spec_width() as int,
                    TRIM_ALPHA_THRESHOLD,
                    picture@.len() as int,
                    Some(bounds),
                ) && trimmed.spec_width() == trimmed_width(bounds) && trimmed.spec_height()
                    == trimmed_height(bounds) && trimmed@ == #[trigger] trimmed_picture(
                    picture@,
                    picture.spec_width() as int,
                    bounds,
                ),
            Err(_) => forall|i: int|
                0 <= i < picture@.len() ==> !is_content(#[trigger] picture@[i]),
        },
{
    let mask = picture.alpha_mask();
    let picture_width: u32 = picture.width();
    let picture_height: u32 = picture.height();
    let bounds = match mask.content_bounds_above(TRIM_ALPHA_THRESHOLD) {
        Some(bounds) => bounds,
        None => {
            assert forall|i: int| 0 <= i < picture@.len() implies !is_content(
                #[trigger] picture@[i],
            ) by {
                assert(alphas(picture@)[i] <= TRIM_ALPHA_THRESHOLD);
            }
            return Err(NoContent);
        },
    };
    proof {
        lemma_bounds_inside(
            alphas(picture@),
            picture_width as int,
            picture_height as int,
            bounds,
        );
    }
    let width: u32 = bounds.right - bounds.left + 1 + 2 * TRIM_BORDER;
    let height: u32 = bounds.bottom - bounds.top + 1 + 2 * TRIM_BORDER;
    assert(width as int * height as int <= (picture_width + 4) * (picture_height + 4)) by (
    nonlinear_arith)
        requires
            width <= picture_width + 4,
            height <= picture_height + 4,
    ;
    let source = border(picture, bounds, width, height);
    let soft = source.alpha_mask().antialiased_threshold(TRIM_ALPHA_THRESHOLD).unwrap();
    let ghost goal = trimmed_picture(picture@, picture_width as int, bounds);
    let mut pixels: Vec<Rgba> = Vec::new();
    assert(0int * (width as int) == 0) by (nonlinear_arith);
    for y in 0..height
        invariant
            width == trimmed_width(bounds),
            height == trimmed_height(bounds),
            4 < width < u32::MAX,
            4 < height < u32::MAX,
            width as int * height as int <= usize::MAX,
            goal == trimmed_picture(picture@, picture_width as int, bounds),
            source@ == bordered_picture(picture@, picture_width as int, bounds),
            source.spec_width() == width,
            source.spec_height() == height,
            soft@ == softened_silhouette(
                alphas(source@),
                width as int,
                height as int,
                TRIM_ALPHA_THRESHOLD,
            ),
            pixels@.len() == y as int * width as int,
            forall|i: int| 0 <= i < pixels@.len() ==> pixels@[i] == goal[i],
    {
        for x in 0..width
            invariant
                y < height,
                width == trimmed_width(bounds),
                height == trimmed_height(bounds),
                4 < width < u32::MAX,
                4 < height < u32::MAX,
                width as int * height as int <= usize::MAX,
                goal == trimmed_picture(picture@, picture_width as int, bounds),
                source@ == bordered_picture(picture@, picture_width as int, bounds),
                source.spec_width() == width,
                source.spec_height() == height,
                soft@ == softened_silhouette(
                    alphas(source@),
                    width as int,
                    height as int,
                    TRIM_ALPHA_THRESHOLD,
                ),
                pixels@.len() == y as int * width as int + x as int,
                forall|i: int| 0 <= i < pixels@.len() ==> pixels@[i] == goal[i],
        {
            proof {
                lemma_pixel_index(x as int, y as int, width as int, height as int);
            }
            let index: usize = y as usize * width as usize + x as usize;
            let own = source.get_pixel(x, y);
            let alpha = soft[index];
            let nothing = Rgba { red: 0, green: 0, blue: 0, alpha: 0 };
            let border = x < TRIM_BORDER || y < TRIM_BORDER || x >= width - TRIM_BORDER || y
                >= height - TRIM_BORDER;
            let result = if border {
                match nearest_content_rgb(&source, x, y) {
                    Some(p) => if alpha == 0 {
                        nothing
                    } else {
                        Rgba { red: p.red, green: p.green, blue: p.blue, alpha }
                    },
                    None => nothing,
                }
            } else if own.alpha <= TRIM_ALPHA_THRESHOLD {
                nothing
            } else {
                Rgba {
                    red: own.red,
                    green: own.green,
                    blue: own.blue,
                    alpha: if own.alpha < alpha {
                        own.alpha
                    } else {
                        alpha
                    },
                }
            };
            assert(goal[index as int] == result);
            pixels.push(result);
        }
        assert((y as int + 1) * width as int == y as int * width as int + width as int)
            by (nonlinear_arith);
    }
    assert(height as int * width as int == width as int * height as int) by (nonlinear_arith);
    assert(pixels@ =~= goal);
    Ok(Picture { width, height, pixels })
}

proof fn lemma_bounds_inside(values: Seq<u8>, width: int, height: int, bounds: PixelBounds)
    requires
        values.len() == width * height,
        0 <= width,
        0 <= height,
        bounds_above(values, width, TRIM_ALPHA_THRESHOLD, values.len() as int, Some(bounds)),
    ensures
        bounds.left <= bounds.right < width,
        bounds.top <= bounds.bottom < height,
{
    let r = choose|i: int|
        0 <= i < values.len() && #[trigger] values[i] > TRIM_ALPHA_THRESHOLD && i % width
            == bounds.right;
    let b = choose|i: int|
        0 <= i < values.len() && #[trigger] values[i] > TRIM_ALPHA_THRESHOLD && i / width
            == bounds.bottom;
    crate::raster::lemma_pixel(r, width, height);
    crate::raster::lemma_pixel(b, width, height);
    assert(values[r] > TRIM_ALPHA_THRESHOLD);
    assert(values[b] > TRIM_ALPHA_THRESHOLD);
}

// ---------------------------------------------------------------------------
// What trimming keeps
// ---------------------------------------------------------------------------

/// Inside its border a trimmed picture holds nothing that was not content, and no
/// pixel becomes more opaque than it was.
pub proof fn law_trimming_removes_the_fringe(
    pixels: Seq<Rgba>,
    picture_width: int,
    bounds: PixelBounds,
    x: int,
    y: int,
)
    requires
        bounds.left <= bounds.right,
        bounds.top <= bounds.bottom,
        0 <= x < trimmed_width(bounds),
        0 <= y < trimmed_height(bounds),
        !in_border(trimmed_width(bounds), trimmed_height(bounds), x, y),
    ensures
        ({
            let own = bordered(pixels, picture_width, bounds, x, y);
            let kept = trimmed_picture(pixels, picture_width, bounds)[y * trimmed_width(bounds)
                + x];
            &&& kept.alpha <= own.alpha
            &&& !is_content(own) ==> kept == clear()
            &&& is_content(own) ==> kept.red == own.red && kept.green == own.green && kept.blue
                == own.blue
        }),
{
    lemma_pixel_index(x, y, trimmed_width(bounds), trimmed_height(bounds));
}

/// The outermost pixels of a trimmed picture are transparent, so that its contour is
/// closed.
pub proof fn law_trimmed_picture_has_a_transparent_frame(
    pixels: Seq<Rgba>,
    picture_width: int,
    bounds: PixelBounds,
    x: int,
    y: int,
)
    requires
        bounds.left <= bounds.right,
        bounds.top <= bounds.bottom,
        0 <= x < trimmed_width(bounds),
        0 <= y < trimmed_height(bounds),
        x == 0 || y == 0 || x == trimmed_width(bounds) - 1 || y == trimmed_height(bounds) - 1,
    ensures
        trimmed_picture(pixels, picture_width, bounds)[y * trimmed_width(bounds) + x] == clear(),
{
    let width = trimmed_width(bounds);
    let height = trimmed_height(bounds);
    let source = bordered_picture(pixels, picture_width, bounds);
    let shape = silhouette(alphas(source), TRIM_ALPHA_THRESHOLD);
    lemma_pixel_index(x, y, width, height);
    assert forall|column: int, row: int|
        x - 1 <= column <= x + 1 && y - 1 <= row <= y + 1 implies #[trigger] pixel(
        shape,
        width,
        height,
        column,
        row,
    ) == 0 by {
        if 0 <= column < width && 0 <= row < height {
            lemma_pixel_index(column, row, width, height);
            assert(source[row * width + column] == clear());
        }
    }
    assert(pixel(shape, width, height, x - 1, y - 1) == 0);
    assert(pixel(shape, width, height, x, y - 1) == 0);
    assert(pixel(shape, width, height, x + 1, y - 1) == 0);
    assert(pixel(shape, width, height, x - 1, y) == 0);
    assert(pixel(shape, width, height, x, y) == 0);
    assert(pixel(shape, width, height, x + 1, y) == 0);
    assert(pixel(shape, width, height, x - 1, y + 1) == 0);
    assert(pixel(shape, width, height, x, y + 1) == 0);
    assert(pixel(shape, width, height, x + 1, y + 1) == 0);
    assert(softened(shape, width, height, x, y) == 0);
}

// ---------------------------------------------------------------------------
// Where trimming puts what it keeps
// ---------------------------------------------------------------------------

/// Whether `trimmed` is what is left of `picture` when it is trimmed to `bounds`.
pub open spec fn is_trimmed_to(picture: &Picture, trimmed: &Picture, bounds: PixelBounds) -> bool {
    &&& picture@.len() == picture.spec_width() * picture.spec_height()
    &&& bounds.left <= bounds.right < picture.spec_width()
    &&& bounds.top <= bounds.bottom < picture.spec_height()
    &&& trimmed.spec_width() == trimmed_width(bounds)
    &&& trimmed.spec_height() == trimmed_height(bounds)
    &&& trimmed@ == trimmed_picture(picture@, picture.spec_width() as int, bounds)
}

/// A trimmed picture is as large as the box, with two pixels more on every side.
pub proof fn law_a_trimmed_picture_has_a_border_of_two(
    picture: &Picture,
    trimmed: &Picture,
    bounds: PixelBounds,
)
    requires
        is_trimmed_to(picture, trimmed, bounds),
    ensures
        trimmed.spec_width() == bounds.right - bounds.left + 5,
        trimmed.spec_height() == bounds.bottom - bounds.top + 5,
        trimmed@.len() == trimmed.spec_width() * trimmed.spec_height(),
{
    assert(trimmed_width(bounds) * trimmed_height(bounds) >= 0) by (nonlinear_arith)
        requires
            trimmed_width(bounds) >= 0,
            trimmed_height(bounds) >= 0,
    ;
}

proof fn lemma_trimmed_at(
    picture: &Picture,
    trimmed: &Picture,
    bounds: PixelBounds,
    x: int,
    y: int,
)
    requires
        is_trimmed_to(picture, trimmed, bounds),
        0 <= x < trimmed_width(bounds),
        0 <= y < trimmed_height(bounds),
    ensures
        ({
            let width = trimmed_width(bounds);
            let height = trimmed_height(bounds);
            let source = bordered_picture(picture@, picture.spec_width() as int, bounds);
            let soft = softened_silhouette(alphas(source), width, height, TRIM_ALPHA_THRESHOLD);
            &&& trimmed.at(x, y) == trimmed_pixel(source, soft, width, height, x, y)
            &&& 0 <= y * width + x < source.len()
            &&& source.len() == width * height
            &&& source[y * width + x] == bordered(
                picture@,
                picture.spec_width() as int,
                bounds,
                x,
                y,
            )
            &&& soft.len() == width * height
        }),
{
    lemma_pixel_index(x, y, trimmed_width(bounds), trimmed_height(bounds));
}

/// Content stays where it is in its box, with its color: the pixel in column `u` and row `v`
/// stands two columns and two rows further in the trimmed picture than it stood in the box.
/// It does not become more opaque. What is no content is cleared.
pub proof fn law_content_keeps_its_place_and_color(
    picture: &Picture,
    trimmed: &Picture,
    bounds: PixelBounds,
    u: int,
    v: int,
)
    requires
        is_trimmed_to(picture, trimmed, bounds),
        bounds.left <= u <= bounds.right,
        bounds.top <= v <= bounds.bottom,
    ensures
        ({
            let own = picture.at(u, v);
            let kept = trimmed.at(u - bounds.left + 2, v - bounds.top + 2);
            if own.alpha > 96 {
                kept.red == own.red && kept.green == own.green && kept.blue == own.blue
                    && kept.alpha <= own.alpha
            } else {
                kept.red == 0 && kept.green == 0 && kept.blue == 0 && kept.alpha == 0
            }
        }),
{
    lemma_trimmed_at(picture, trimmed, bounds, u - bounds.left + 2, v - bounds.top + 2);
    lemma_pixel_index(u, v, picture.spec_width() as int, picture.spec_height() as int);
}

/// Content is only softened at its edge: a pixel with content all around it keeps its alpha.
pub proof fn law_content_inside_stays_as_opaque(
    picture: &Picture,
    trimmed: &Picture,
    bounds: PixelBounds,
    u: int,
    v: int,
)
    requires
        is_trimmed_to(picture, trimmed, bounds),
        bounds.left < u < bounds.right,
        bounds.top < v < bounds.bottom,
        forall|x: int, y: int|
            u - 1 <= x <= u + 1 && v - 1 <= y <= v + 1 ==> (#[trigger] picture.at(x, y)).alpha
                > 96,
    ensures
        trimmed.at(u - bounds.left + 2, v - bounds.top + 2) == picture.at(u, v),
{
    let x = u - bounds.left + 2;
    let y = v - bounds.top + 2;
    let width = trimmed_width(bounds);
    let height = trimmed_height(bounds);
    let source = bordered_picture(picture@, picture.spec_width() as int, bounds);
    let shape = silhouette(alphas(source), TRIM_ALPHA_THRESHOLD);
    lemma_trimmed_at(picture, trimmed, bounds, x, y);
    assert forall|dx: int, dy: int| -1 <= dx <= 1 && -1 <= dy <= 1 implies #[trigger] pixel(
        shape,
        width,
        height,
        x + dx,
        y + dy,
    ) == 255u8 by {
        lemma_trimmed_at(picture, trimmed, bounds, x + dx, y + dy);
        assert(picture.at(u + dx, v + dy).alpha > 96);
        assert(source[(y + dy) * width + x + dx] == picture.at(u + dx, v + dy));
    }
    crate::raster::law_only_the_edge_is_softened(shape, width, height, x, y, 255);
    assert(picture.at(u, v).alpha > 96);
}

proof fn lemma_nearest(
    pixels: Seq<Rgba>,
    width: int,
    height: int,
    x: int,
    y: int,
    count: int,
)
    requires
        0 <= count <= 9,
    ensures
        match nearest(pixels, width, height, x, y, count) {
            Some(k) => 0 <= k < count && 0 <= neighbor_x(x, k) < width && 0 <= neighbor_y(y, k)
                < height && is_content(pixels[neighbor_y(y, k) * width + neighbor_x(x, k)])
                && forall|j: int|
                0 <= j < count && 0 <= neighbor_x(x, j) < width && 0 <= #[trigger] neighbor_y(y, j)
                    < height && is_content(pixels[neighbor_y(y, j) * width + neighbor_x(x, j)])
                    ==> neighbor_distance(k) <= neighbor_distance(j),
            None => forall|j: int|
                0 <= j < count && 0 <= neighbor_x(x, j) < width && 0 <= #[trigger] neighbor_y(y, j)
                    < height ==> !is_content(
                    pixels[neighbor_y(y, j) * width + neighbor_x(x, j)],
                ),
        },
    decreases count,
{
    if count > 0 {
        lemma_nearest(pixels, width, height, x, y, count - 1);
    }
}

/// Outside of the box a trimmed picture shows only what the softened edge of content reaches:
/// a pixel that is not clear has the color of content next to it, and no content that touches
/// it with a side is passed over for content that touches it with a corner.
pub proof fn law_the_border_shows_the_content_next_to_it(
    picture: &Picture,
    trimmed: &Picture,
    bounds: PixelBounds,
    x: int,
    y: int,
)
    requires
        is_trimmed_to(picture, trimmed, bounds),
        0 <= x < bounds.right - bounds.left + 5,
        0 <= y < bounds.bottom - bounds.top + 5,
        x < 2 || y < 2 || x > bounds.right - bounds.left + 2 || y > bounds.bottom - bounds.top + 2,
        trimmed.at(x, y).alpha != 0,
    ensures
        exists|u: int, v: int|
            #![trigger picture.at(u, v)]
            {
                let own = picture.at(u, v);
                let shown = trimmed.at(x, y);
                let column = x - 2 + bounds.left;
                let row = y - 2 + bounds.top;
                &&& bounds.left <= u <= bounds.right
                &&& bounds.top <= v <= bounds.bottom
                &&& column - 1 <= u <= column + 1
                &&& row - 1 <= v <= row + 1
                &&& own.alpha > 96
                &&& shown.red == own.red && shown.green == own.green && shown.blue == own.blue
                &&& u != column && v != row ==> forall|a: int, b: int|
                    (a == column || b == row) && column - 1 <= a <= column + 1 && row - 1 <= b
                        <= row + 1 && bounds.left <= a <= bounds.right && bounds.top <= b
                        <= bounds.bottom ==> (#[trigger] picture.at(a, b)).alpha <= 96
            },
{
    let width = trimmed_width(bounds);
    let height = trimmed_height(bounds);
    let source = bordered_picture(picture@, picture.spec_width() as int, bounds);
    lemma_trimmed_at(picture, trimmed, bounds, x, y);
    lemma_nearest(source, width, height, x, y, 9);
    let k = nearest(source, width, height, x, y, 9).unwrap();
    let nx = neighbor_x(x, k);
    let ny = neighbor_y(y, k);
    lemma_trimmed_at(picture, trimmed, bounds, nx, ny);
    let u = nx - 2 + bounds.left;
    let v = ny - 2 + bounds.top;
    let column = x - 2 + bounds.left;
    let row = y - 2 + bounds.top;
    assert(source[ny * width + nx] == picture.at(u, v));
    assert forall|a: int, b: int|
        u != column && v != row && (a == column || b == row) && column - 1 <= a <= column + 1 && row
            - 1 <= b <= row + 1 && bounds.left <= a <= bounds.right && bounds.top <= b
            <= bounds.bottom implies (#[trigger] picture.at(a, b)).alpha <= 96 by {
        let mx = a - bounds.left + 2;
        let my = b - bounds.top + 2;
        let j = (my - y + 1) * 3 + (mx - x + 1);
        assert(neighbor_x(x, j) == mx && neighbor_y(y, j) == my);
        lemma_trimmed_at(picture, trimmed, bounds, mx, my);
        assert(source[my * width + mx] == picture.at(a, b));
        if picture.at(a, b).alpha > 96 {
            assert(neighbor_distance(k) <= neighbor_distance(j));
        }
    }
}

/// Content is softened at its edge: a pixel of content next to something that is none, by a side
/// or a corner, is not fully opaque any more; but it does not vanish.
pub proof fn law_edges_are_softened(
    picture: &Picture,
    trimmed: &Picture,
    bounds: PixelBounds,
    u: int,
    v: int,
    a: int,
    b: int,
)
    requires
        is_trimmed_to(picture, trimmed, bounds),
        bounds.left <= u <= bounds.right,
        bounds.top <= v <= bounds.bottom,
        picture.at(u, v).alpha > 96,
        u - 1 <= a <= u + 1,
        v - 1 <= b <= v + 1,
        !(bounds.left <= a <= bounds.right && bounds.top <= b <= bounds.bottom) || picture.at(
            a,
            b,
        ).alpha <= 96,
    ensures
        64 <= trimmed.at(u - bounds.left + 2, v - bounds.top + 2).alpha <= 239,
        a == u || b == v ==> trimmed.at(u - bounds.left + 2, v - bounds.top + 2).alpha <= 223,
{
    let x = u - bounds.left + 2;
    let y = v - bounds.top + 2;
    let width = trimmed_width(bounds);
    let height = trimmed_height(bounds);
    let source = bordered_picture(picture@, picture.spec_width() as int, bounds);
    let shape = silhouette(alphas(source), TRIM_ALPHA_THRESHOLD);
    lemma_trimmed_at(picture, trimmed, bounds, x, y);
    lemma_pixel_index(x, y, width, height);
    crate::raster::law_softening_weighs_by_nearness(shape, width, height, x, y);
    let p = |dx: int, dy: int| pixel(shape, width, height, x + dx, y + dy);
    let i = a - u;
    let j = b - v;
    lemma_trimmed_at(picture, trimmed, bounds, x + i, y + j);
    assert(p(i, j) == 0);
    assert(p(0, 0) == 255);
    assert(0 <= p(-1, -1) <= 255 && 0 <= p(0, -1) <= 255 && 0 <= p(1, -1) <= 255);
    assert(0 <= p(-1, 0) <= 255 && 0 <= p(1, 0) <= 255);
    assert(0 <= p(-1, 1) <= 255 && 0 <= p(0, 1) <= 255 && 0 <= p(1, 1) <= 255);
    let soft = softened_silhouette(alphas(source), width, height, TRIM_ALPHA_THRESHOLD)[y * width
        + x];
    assert((i == -1 || i == 0 || i == 1) && (j == -1 || j == 0 || j == 1));
    assert(64 <= soft <= 239);
    assert(i == 0 || j == 0 ==> soft <= 223);
}

/// What the softened edge puts outside of the content is no more opaque than the pattern of the
/// content around it makes it, and nothing is there without content next to it.
pub proof fn law_the_border_is_softer_than_the_content(
    picture: &Picture,
    trimmed: &Picture,
    bounds: PixelBounds,
    x: int,
    y: int,
)
    requires
        is_trimmed_to(picture, trimmed, bounds),
        0 <= x < bounds.right - bounds.left + 5,
        0 <= y < bounds.bottom - bounds.top + 5,
        x < 2 || y < 2 || x > bounds.right - bounds.left + 2 || y > bounds.bottom - bounds.top + 2,
    ensures
        trimmed.at(x, y).alpha <= 191,
        trimmed.at(x, y).alpha == 0 ==> trimmed.at(x, y) == clear(),
{
    let width = trimmed_width(bounds);
    let height = trimmed_height(bounds);
    let source = bordered_picture(picture@, picture.spec_width() as int, bounds);
    let shape = silhouette(alphas(source), TRIM_ALPHA_THRESHOLD);
    lemma_trimmed_at(picture, trimmed, bounds, x, y);
    lemma_pixel_index(x, y, width, height);
    crate::raster::law_softening_weighs_by_nearness(shape, width, height, x, y);
    let p = |dx: int, dy: int| pixel(shape, width, height, x + dx, y + dy);
    assert(p(0, 0) == 0);
    assert(0 <= p(-1, -1) <= 255 && 0 <= p(0, -1) <= 255 && 0 <= p(1, -1) <= 255);
    assert(0 <= p(-1, 0) <= 255 && 0 <= p(1, 0) <= 255);
    assert(0 <= p(-1, 1) <= 255 && 0 <= p(0, 1) <= 255 && 0 <= p(1, 1) <= 255);
}

/// How opaque the silhouette of the content is in a column and a row of the picture.
pub open spec fn content_at(picture: &Picture, bounds: PixelBounds, u: int, v: int) -> int {
    if bounds.left <= u <= bounds.right && bounds.top <= v <= bounds.bottom && picture.at(
        u,
        v,
    ).alpha > 96 {
        255
    } else {
        0
    }
}

/// Nine pixels of the silhouette around a column and a row, weighted by how near they are.
pub open spec fn content_around(picture: &Picture, bounds: PixelBounds, u: int, v: int) -> int {
    4 * content_at(picture, bounds, u, v) + 2 * (content_at(picture, bounds, u - 1, v)
        + content_at(picture, bounds, u + 1, v) + content_at(picture, bounds, u, v - 1)
        + content_at(picture, bounds, u, v + 1)) + content_at(picture, bounds, u - 1, v - 1)
        + content_at(picture, bounds, u + 1, v - 1) + content_at(picture, bounds, u - 1, v + 1)
        + content_at(picture, bounds, u + 1, v + 1)
}

/// The alpha of a trimmed picture is the softened silhouette of the content: content is as opaque
/// as that or as it was, whichever is less, and around the box it is what reaches out of it.
pub proof fn law_alpha_is_the_softened_silhouette(
    picture: &Picture,
    trimmed: &Picture,
    bounds: PixelBounds,
    x: int,
    y: int,
)
    requires
        is_trimmed_to(picture, trimmed, bounds),
        0 <= x < bounds.right - bounds.left + 5,
        0 <= y < bounds.bottom - bounds.top + 5,
    ensures
        ({
            let u = x - 2 + bounds.left;
            let v = y - 2 + bounds.top;
            let alpha = trimmed.at(x, y).alpha;
            let soft = (content_around(picture, bounds, u, v) + 8) / 16;
            if content_at(picture, bounds, u, v) == 255 {
                alpha == if picture.at(u, v).alpha < soft {
                    picture.at(u, v).alpha as int
                } else {
                    soft
                }
            } else if bounds.left <= u <= bounds.right && bounds.top <= v <= bounds.bottom {
                alpha == 0
            } else {
                alpha == soft
            }
        }),
{
    let u = x - 2 + bounds.left;
    let v = y - 2 + bounds.top;
    let width = trimmed_width(bounds);
    let height = trimmed_height(bounds);
    let source = bordered_picture(picture@, picture.spec_width() as int, bounds);
    let shape = silhouette(alphas(source), TRIM_ALPHA_THRESHOLD);
    lemma_trimmed_at(picture, trimmed, bounds, x, y);
    lemma_pixel_index(x, y, width, height);
    crate::raster::law_softening_weighs_by_nearness(shape, width, height, x, y);
    let p = |dx: int, dy: int| pixel(shape, width, height, x + dx, y + dy);
    assert forall|dx: int, dy: int| -1 <= dx <= 1 && -1 <= dy <= 1 implies #[trigger] pixel(
        shape,
        width,
        height,
        x + dx,
        y + dy,
    ) == content_at(picture, bounds, u + dx, v + dy) by {
        if 0 <= x + dx < width && 0 <= y + dy < height {
            lemma_trimmed_at(picture, trimmed, bounds, x + dx, y + dy);
        }
    }
    assert(p(0, 0) == content_at(picture, bounds, u, v));
    assert(p(-1, 0) == content_at(picture, bounds, u - 1, v));
    assert(p(1, 0) == content_at(picture, bounds, u + 1, v));
    assert(p(0, -1) == content_at(picture, bounds, u, v - 1));
    assert(p(0, 1) == content_at(picture, bounds, u, v + 1));
    assert(p(-1, -1) == content_at(picture, bounds, u - 1, v - 1));
    assert(p(1, -1) == content_at(picture, bounds, u + 1, v - 1));
    assert(p(-1, 1) == content_at(picture, bounds, u - 1, v + 1));
    assert(p(1, 1) == content_at(picture, bounds, u + 1, v + 1));
    let soft = softened_silhouette(alphas(source), width, height, TRIM_ALPHA_THRESHOLD)[y * width
        + x];
    assert(soft == (content_around(picture, bounds, u, v) + 8) / 16);
    if in_border(width, height, x, y) {
        lemma_nearest(source, width, height, x, y, 9);
        if nearest(source, width, height, x, y, 9) is None {
            assert forall|dx: int, dy: int| -1 <= dx <= 1 && -1 <= dy <= 1 implies #[trigger] pixel(
                shape,
                width,
                height,
                x + dx,
                y + dy,
            ) == 0 by {
                if 0 <= x + dx < width && 0 <= y + dy < height {
                    let j = (dy + 1) * 3 + dx + 1;
                    assert(neighbor_x(x, j) == x + dx && neighbor_y(y, j) == y + dy);
                    lemma_pixel_index(x + dx, y + dy, width, height);
                }
            }
            assert(p(0, 0) == 0 && p(-1, 0) == 0 && p(1, 0) == 0 && p(0, -1) == 0 && p(0, 1) == 0);
            assert(p(-1, -1) == 0 && p(1, -1) == 0 && p(-1, 1) == 0 && p(1, 1) == 0);
        }
    }
}

} // verus!
