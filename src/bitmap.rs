//! In-memory RGBA bitmaps and the pixel-level transforms applied to them:
//! binary (light or dark) quantization and a dimetric distortion.
use vstd::prelude::*;

use crate::cell::{lemma_cell_index, lemma_cell_of_index};
use crate::color::Color;

verus! {

/// Lighter color produced by [`quantize_binary`].
pub open spec fn spec_color_light() -> Color {
    Color { red: 255, green: 255, blue: 255, alpha: 0 }
}

/// Lighter color produced by [`quantize_binary`].
#[verifier::when_used_as_spec(spec_color_light)]
pub fn color_light() -> (r: Color)
    ensures
        r == spec_color_light(),
{
    Color { red: 255, green: 255, blue: 255, alpha: 0 }
}

/// Darker color produced by [`quantize_binary`].
pub open spec fn spec_color_dark() -> Color {
    Color { red: 0, green: 0, blue: 0, alpha: 0 }
}

/// Darker color produced by [`quantize_binary`].
#[verifier::when_used_as_spec(spec_color_dark)]
pub fn color_dark() -> (r: Color)
    ensures
        r == spec_color_dark(),
{
    Color { red: 0, green: 0, blue: 0, alpha: 0 }
}

/// Smallest red + green + blue sum of a pixel classified as light
/// (`255 * 1.75`, rounded down).
pub const LIGHT_SUM_MIN: u32 = 446;

/// A row-major RGBA bitmap: the pixel at `(x, y)` is `pixels[y * width + x]`.
#[derive(Clone, Debug)]
pub struct Bitmap {
    pub width: usize,
    pub height: usize,
    pub pixels: Vec<Color>,
}

/// Whether `c` is classified as light by binary quantization.
pub open spec fn is_light(c: Color) -> bool {
    c == color_light() || (c != color_dark() && c.red + c.green + c.blue >= LIGHT_SUM_MIN)
}

/// Whether `c` marks a wall in a tilemap bitmap: it is dark under binary
/// quantization and grey (equal red, green and blue). Light pixels and
/// colored pixels, which mark objectives and threats, are floor.
pub open spec fn is_wall_color(c: Color) -> bool {
    !is_light(c) && c.red == c.green && c.green == c.blue
}

/// The color that binary quantization maps `c` to.
pub open spec fn quantized(c: Color) -> Color {
    if is_light(c) {
        color_light()
    } else {
        color_dark()
    }
}

impl Bitmap {
    /// The pixel buffer holds exactly `width * height` pixels.
    pub open spec fn wf(&self) -> bool {
        &&& self.width * self.height <= usize::MAX
        &&& self.pixels@.len() == self.width * self.height
    }

    /// The pixel at `(x, y)`.
    pub open spec fn pixel_at(&self, x: int, y: int) -> Color {
        self.pixels@[y * self.width + x]
    }

    /// Returns a bitmap of `width` by `height` pixels from a row-major buffer,
    /// or `None` when the buffer does not hold exactly `width * height` pixels.
    pub fn from_pixels(width: usize, height: usize, pixels: Vec<Color>) -> (r: Option<Bitmap>)
        ensures
            r matches Some(b) <==> pixels@.len() == width * height,
            r matches Some(b) ==> b.wf() && b.width == width && b.height == height && b.pixels@
                == pixels@,
    {
        let len = pixels.len();
        let n = width.checked_mul(height);
        match n {
            Some(n) => {
                if len == n {
                    Some(Bitmap { width, height, pixels })
                } else {
                    None
                }
            },
            None => None,
        }
    }

    /// Returns a bitmap of `width` by `height` pixels, all `color`.
    pub fn filled(width: usize, height: usize, color: Color) -> (r: Bitmap)
        requires
            width * height <= usize::MAX,
        ensures
            r.wf(),
            r.width == width,
            r.height == height,
            forall|i: int| 0 <= i < r.pixels@.len() ==> r.pixels@[i] == color,
    {
        let n = width * height;
        let mut pixels: Vec<Color> = Vec::new();
        let mut i: usize = 0;
        while i < n
            invariant
                i <= n,
                pixels@.len() == i,
                forall|j: int| 0 <= j < i ==> pixels@[j] == color,
            decreases n - i,
        {
            pixels.push(color);
            i += 1;
        }
        Bitmap { width, height, pixels }
    }

    /// The pixel at `(x, y)`, or `None` outside the bitmap.
    pub fn get_pixel(&self, x: usize, y: usize) -> (r: Option<Color>)
        requires
            self.wf(),
        ensures
            r == (if x < self.width && y < self.height {
                Some(self.pixel_at(x as int, y as int))
            } else {
                None
            }),
    {
        if x < self.width && y < self.height {
            proof {
                lemma_cell_index(self.width as int, self.height as int, x as int, y as int);
            }
            Some(self.pixels[y * self.width + x])
        } else {
            None
        }
    }
}

/// Whether `c` marks a wall in a tilemap bitmap (see [`is_wall_color`]).
pub fn is_wall_pixel(c: Color) -> (r: bool)
    ensures
        r == is_wall_color(c),
{
    !is_light_pixel(c) && c.red == c.green && c.green == c.blue
}

/// Classifies `c` as light: it is [`color_light`], or it is not
/// [`color_dark`] and its red, green and blue channels sum to at least
/// [`LIGHT_SUM_MIN`].
pub fn is_light_pixel(c: Color) -> (r: bool)
    ensures
        r == is_light(c),
{
    if c == color_light() {
        return true;
    }
    if c == color_dark() {
        return false;
    }
    let sum: u32 = c.red as u32 + c.green as u32 + c.blue as u32;
    sum >= LIGHT_SUM_MIN
}

/// Applies a simplistic binary (light or dark) color quantization to
/// `image`, returning a new image where each pixel is either
/// [`color_light`] or [`color_dark`].
pub fn quantize_binary(image: &Bitmap) -> (r: Bitmap)
    requires
        image.wf(),
    ensures
        r.wf(),
        r.width == image.width,
        r.height == image.height,
        forall|i: int|
            0 <= i < r.pixels@.len() ==> r.pixels@[i] == quantized(#[trigger] image.pixels@[i]),
{
    let mut pixels: Vec<Color> = Vec::new();
    let mut i: usize = 0;
    while i < image.pixels.len()
        invariant
            i <= image.pixels@.len(),
            pixels@.len() == i,
            forall|j: int| 0 <= j < i ==> pixels@[j] == quantized(#[trigger] image.pixels@[j]),
        decreases image.pixels@.len() - i,
    {
        let c = image.pixels[i];
        if is_light_pixel(c) {
            pixels.push(color_light());
        } else {
            pixels.push(color_dark());
        }
        i += 1;
    }
    Bitmap { width: image.width, height: image.height, pixels }
}

/// Destination pixel, in a bitmap `2 * width` wide and `height` high, of
/// source pixel `k` of the dimetric distortion: source `(x, y)` moves to
/// `(x - y + width, (x + y) / 2)`; a destination off the bitmap wraps, its
/// column as a 32-bit unsigned value, around the width and its row around
/// the height.
pub open spec fn dimetric_target(width: int, height: int, k: int) -> int {
    let x = k % width;
    let y = k / width;
    let tx = ((x - y + width) % 0x1_0000_0000) % (2 * width);
    let ty = ((x + y) / 2) % height;
    ty * (2 * width) + tx
}

/// The distorted pixels after the first `k` source pixels, in row-major
/// order, are drawn onto a transparent bitmap; later pixels cover earlier
/// ones.
pub open spec fn dimetric_prefix(image: Bitmap, k: int) -> Seq<Color>
    decreases k,
{
    if k <= 0 {
        Seq::new(
            (2 * image.width * image.height) as nat,
            |i: int| Color { red: 0, green: 0, blue: 0, alpha: 0 },
        )
    } else {
        dimetric_prefix(image, k - 1).update(
            dimetric_target(image.width as int, image.height as int, k - 1),
            image.pixels@[k - 1],
        )
    }
}

/// Applies a naive dimetric ("2:1 isometric") distortion to `image`,
/// returning a bitmap twice as wide with its perspective projected into a
/// dimetric plane (see [`dimetric_target`] and [`dimetric_prefix`]).
pub fn distort_dimetric(image: &Bitmap) -> (r: Bitmap)
    requires
        image.wf(),
        2 * image.width <= u32::MAX,
        image.height <= u32::MAX,
        2 * image.width * image.height <= usize::MAX,
    ensures
        r.wf(),
        r.width == 2 * image.width,
        r.height == image.height,
        r.pixels@ == dimetric_prefix(*image, image.width * image.height),
{
    let w = image.width;
    let h = image.height;
    let n = w * h;
    let mut out = Bitmap::filled(2 * w, h, Color { red: 0, green: 0, blue: 0, alpha: 0 });
    proof {
        assert(out.pixels@ =~= dimetric_prefix(*image, 0));
    }
    let mut k: usize = 0;
    while k < n
        invariant
            image.wf(),
            w == image.width,
            h == image.height,
            n == w * h,
            2 * w <= u32::MAX,
            h <= u32::MAX,
            k <= n,
            out.wf(),
            out.width == 2 * w,
            out.height == h,
            out.pixels@ == dimetric_prefix(*image, k as int),
        decreases n - k,
    {
        proof {
            lemma_cell_of_index(w as int, h as int, k as int);
        }
        let x = k % w;
        let y = k / w;
        let nx: i64 = x as i64 - y as i64 + w as i64;
        let ny: u64 = (x as u64 + y as u64) / 2;
        let tx: u64 = if nx >= 0 {
            nx as u64 % (2 * w as u64)
        } else {
            (nx + 0x1_0000_0000) as u64 % (2 * w as u64)
        };
        let ty: u64 = ny % h as u64;
        proof {
            let m: int = 0x1_0000_0000;
            if nx >= 0 {
                vstd::arithmetic::div_mod::lemma_fundamental_div_mod_converse(nx as int, m, 0, nx as int);
            } else {
                vstd::arithmetic::div_mod::lemma_fundamental_div_mod_converse(nx as int, m, -1, nx + m);
            }
            lemma_cell_index(2 * w as int, h as int, tx as int, ty as int);
        }
        let idx: usize = ty as usize * (2 * w) + tx as usize;
        out.pixels.set(idx, image.pixels[k]);
        k += 1;
    }
    out
}

} // verus!
