//! Row-major RGB pixel buffers.
use vstd::arithmetic::div_mod::{lemma_fundamental_div_mod, lemma_fundamental_div_mod_converse};
use vstd::prelude::*;

verus! {

/// One pixel: red, green and blue levels.
#[derive(Clone, Copy, Debug, PartialEq, Eq, Structural)]
pub struct Rgb {
    pub r: u8,
    pub g: u8,
    pub b: u8,
}

impl Rgb {
    /// A gray pixel of level `level`.
    pub fn gray(level: u8) -> (r: Rgb)
        ensures
            r == (Rgb { r: level, g: level, b: level }),
    {
        Rgb { r: level, g: level, b: level }
    }

    /// The black pixel, which also stands for "no value".
    pub fn black() -> (r: Rgb)
        ensures
            r == (Rgb { r: 0, g: 0, b: 0 }),
    {
        Rgb { r: 0, g: 0, b: 0 }
    }
}

/// Cell `(x, y)` of a grid `w` wide is at `y * w + x`, and nowhere else.
pub proof fn lemma_cell_index(x: int, y: int, w: int, h: int)
    requires
        0 <= x < w,
        0 <= y < h,
    ensures
        0 <= y * w + x < w * h,
        (y * w + x) / w == y,
        (y * w + x) % w == x,
{
    assert(0 <= y * w + x < w * h) by (nonlinear_arith)
        requires
            0 <= x < w,
            0 <= y < h,
    ;
    lemma_fundamental_div_mod_converse(y * w + x, w, y, x);
}

/// Index `k` of a grid `w` wide and `h` high is cell `(k % w, k / w)`.
pub proof fn lemma_index_cell(k: int, w: int, h: int)
    requires
        0 <= k < w * h,
        w >= 0,
        h >= 0,
    ensures
        w > 0,
        0 <= k % w < w,
        0 <= k / w < h,
        k == (k / w) * w + k % w,
{
    assert(w > 0) by (nonlinear_arith)
        requires
            0 <= k < w * h,
            w >= 0,
            h >= 0,
    ;
    lemma_fundamental_div_mod(k, w);
    let q = k / w;
    let r = k % w;
    assert(q * w == w * q) by (nonlinear_arith);
    assert(0 <= q < h) by (nonlinear_arith)
        requires
            k == w * q + r,
            0 <= r < w,
            0 <= k < w * h,
            w > 0,
    ;
}

/// A row-major image of `width * height` pixels.
#[derive(Clone, Debug, PartialEq, Eq)]
pub struct RgbImage {
    width: usize,
    height: usize,
    pixels: Vec<Rgb>,
}

impl RgbImage {
    pub closed spec fn width_spec(&self) -> nat {
        self.width as nat
    }

    pub closed spec fn height_spec(&self) -> nat {
        self.height as nat
    }

    /// The pixels, row after row.
    pub closed spec fn pixels_spec(&self) -> Seq<Rgb> {
        self.pixels@
    }

    pub open spec fn wf(&self) -> bool {
        self.pixels_spec().len() == self.width_spec() * self.height_spec()
    }

    /// The pixel in column `x` of row `y`.
    pub open spec fn at(&self, x: int, y: int) -> Rgb {
        self.pixels_spec()[y * self.width_spec() + x]
    }

    /// An all-black image.
    pub fn new(width: usize, height: usize) -> (r: RgbImage)
        requires
            width * height <= usize::MAX,
        ensures
            r.wf(),
            r.width_spec() == width,
            r.height_spec() == height,
            forall|i: int| 0 <= i < width * height ==> r.pixels_spec()[i] == (Rgb { r: 0, g: 0, b: 0 }),
    {
        let n = width * height;
        let pixels = vec![Rgb::black(); n];
        RgbImage { width, height, pixels }
    }

    /// An image from its pixels, row after row; `None` when there are not exactly
    /// `width * height` of them.
    pub fn from_pixels(width: usize, height: usize, pixels: Vec<Rgb>) -> (r: Option<RgbImage>)
        ensures
            r is Some <==> pixels@.len() == width * height,
            r matches Some(img) ==> {
                &&& img.wf()
                &&& img.width_spec() == width
                &&& img.height_spec() == height
                &&& img.pixels_spec() == pixels@
            },
    {
        if width == 0 || height == 0 {
            if pixels.len() == 0 {
                assert(width * height == 0) by (nonlinear_arith)
                    requires
                        width == 0 || height == 0,
                ;
                return Some(RgbImage { width, height, pixels });
            } else {
                assert(width * height == 0) by (nonlinear_arith)
                    requires
                        width == 0 || height == 0,
                ;
                return None;
            }
        }
        if pixels.len() / width == height && pixels.len() % width == 0 {
            proof {
                lemma_fundamental_div_mod(pixels@.len() as int, width as int);
                assert(pixels@.len() == width * height) by (nonlinear_arith)
                    requires
                        pixels@.len() == width * (pixels@.len() as int / width as int)
                            + pixels@.len() as int % width as int,
                        pixels@.len() as int / width as int == height,
                        pixels@.len() as int % width as int == 0,
                ;
            }
            Some(RgbImage { width, height, pixels })
        } else {
            proof {
                if pixels@.len() == width * height {
                    lemma_fundamental_div_mod_converse(
                        pixels@.len() as int,
                        width as int,
                        height as int,
                        0,
                    );
                }
            }
            None
        }
    }

    pub fn width(&self) -> (r: usize)
        ensures
            r == self.width_spec(),
    {
        self.width
    }

    pub fn height(&self) -> (r: usize)
        ensures
            r == self.height_spec(),
    {
        self.height
    }

    /// The pixels, row after row.
    pub fn pixels(&self) -> (r: &Vec<Rgb>)
        ensures
            r@ == self.pixels_spec(),
    {
        &self.pixels
    }

    /// The pixel in column `x` of row `y`.
    pub fn get_pixel(&self, x: usize, y: usize) -> (r: Rgb)
        requires
            self.wf(),
            x < self.width_spec(),
            y < self.height_spec(),
        ensures
            r == self.at(x as int, y as int),
    {
        let n = self.pixels.len();
        proof {
            lemma_cell_index(x as int, y as int, self.width as int, self.height as int);
        }
        self.pixels[y * self.width + x]
    }
}

/// `t` is `img` with rows and columns exchanged.
pub open spec fn is_transpose(img: RgbImage, t: RgbImage) -> bool {
    &&& t.wf()
    &&& t.width_spec() == img.height_spec()
    &&& t.height_spec() == img.width_spec()
    &&& forall|x: int, y: int|
        0 <= x < t.width_spec() && 0 <= y < t.height_spec() ==> #[trigger] t.at(x, y) == img.at(y, x)
}

/// `img` with rows and columns exchanged: pixel `(x, y)` of the result is pixel
/// `(y, x)` of `img`.
pub fn transpose_image(img: &RgbImage) -> (r: RgbImage)
    requires
        img.wf(),
    ensures
        is_transpose(*img, r),
{
    let w = img.height;
    let h = img.width;
    let n = img.pixels.len();
    assert(n == w * h) by (nonlinear_arith)
        requires
            n == h * w,
    ;
    let mut pixels: Vec<Rgb> = Vec::new();
    let mut k: usize = 0;
    while k < n
        invariant
            img.wf(),
            w == img.height_spec(),
            h == img.width_spec(),
            n == w * h,
            k <= n,
            pixels@.len() == k,
            forall|j: int| 0 <= j < k ==> #[trigger] pixels@[j] == img.at(j / w as int, j % w as int),
        decreases n - k,
    {
        proof {
            lemma_index_cell(k as int, w as int, h as int);
            lemma_cell_index((k / w) as int, (k % w) as int, h as int, w as int);
            assert(h * w == w * h) by (nonlinear_arith);
        }
        let p = img.pixels[(k % w) * h + k / w];
        pixels.push(p);
        k = k + 1;
    }
    let t = RgbImage { width: w, height: h, pixels };
    assert forall|x: int, y: int| 0 <= x < w && 0 <= y < h implies #[trigger] t.at(x, y) == img.at(
        y,
        x,
    ) by {
        lemma_cell_index(x, y, w as int, h as int);
    }
    t
}

/// Transposing twice gives back the image one started from.
pub proof fn lemma_transpose_involution(img: RgbImage, t: RgbImage, tt: RgbImage)
    requires
        img.wf(),
        is_transpose(img, t),
        is_transpose(t, tt),
    ensures
        tt.width_spec() == img.width_spec(),
        tt.height_spec() == img.height_spec(),
        tt.pixels_spec() == img.pixels_spec(),
{
    let w = img.width_spec() as int;
    let h = img.height_spec() as int;
    assert forall|k: int| 0 <= k < tt.pixels_spec().len() implies tt.pixels_spec()[k]
        == img.pixels_spec()[k] by {
        lemma_index_cell(k, w, h);
        let x = k % w;
        let y = k / w;
        assert(tt.at(x, y) == t.at(y, x));
        assert(t.at(y, x) == img.at(x, y));
        assert(y * w == (k / w) * w);
    }
    assert(tt.pixels_spec() =~= img.pixels_spec());
}

} // verus!
