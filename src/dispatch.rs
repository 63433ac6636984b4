//! Dispatch of independent units of work, one per index, in parallel or in order.
use rayon::iter::{IntoParallelIterator, ParallelIterator};
use vstd::prelude::*;

use crate::histograms::HistogramR1;
use crate::raster::{is_transpose, lemma_cell_index, transpose_image, Rgb, RgbImage};

verus! {

/// Relies on rayon's `into_par_iter` over `0..n`, `map` and `collect`: `f` is
/// called once for each index, and the collected results keep index order.
#[verifier::external_body]
fn par_map_range<T: Send, F: Fn(usize) -> T + Sync + Send>(n: usize, f: F) -> (r: Vec<T>)
    requires
        forall|i: usize| i < n ==> f.requires((i,)),
    ensures
        r@.len() == n,
        forall|i: int| 0 <= i < n ==> f.ensures((i as usize,), #[trigger] r@[i]),
{
    (0..n).into_par_iter().map(f).collect()
}

/// `v` holds, at each index `i < n`, a result of `f` on `i`.
pub open spec fn computed_by<T, F: Fn(usize) -> T>(v: Seq<T>, n: nat, f: F) -> bool {
    &&& v.len() == n
    &&& forall|i: int| 0 <= i < n ==> f.ensures((i as usize,), #[trigger] v[i])
}

/// `f` gives one result for each index.
pub open spec fn deterministic<T, F: Fn(usize) -> T>(f: F) -> bool {
    forall|i: usize, a: T, b: T| f.ensures((i,), a) && f.ensures((i,), b) ==> a == b
}

/// The results of `f` on `0, 1, ..., n - 1`, computed by a pool of workers when
/// `parallel` holds and one after another otherwise.
pub fn map_indices<T: Send, F: Fn(usize) -> T + Sync + Send>(n: usize, f: F, parallel: bool) -> (r: Vec<T>)
    requires
        forall|i: usize| i < n ==> f.requires((i,)),
    ensures
        computed_by(r@, n as nat, f),
{
    if parallel {
        return par_map_range(n, f);
    }
    let mut v: Vec<T> = Vec::new();
    let mut i: usize = 0;
    while i < n
        invariant
            i <= n,
            forall|j: usize| j < n ==> f.requires((j,)),
            v@.len() == i,
            forall|j: int| 0 <= j < i ==> f.ensures((j as usize,), #[trigger] v@[j]),
        decreases n - i,
    {
        let x = f(i);
        v.push(x);
        i = i + 1;
    }
    v
}

/// Results computed by any two dispatches of a deterministic unit of work are
/// the same, whatever order the units ran in.
pub proof fn lemma_dispatch_order_independent<T, F: Fn(usize) -> T>(
    f: F,
    n: nat,
    a: Seq<T>,
    b: Seq<T>,
)
    requires
        deterministic(f),
        computed_by(a, n, f),
        computed_by(b, n, f),
    ensures
        a == b,
{
    assert forall|i: int| 0 <= i < n implies a[i] == b[i] by {
        assert(f.ensures((i as usize,), a[i]));
        assert(f.ensures((i as usize,), b[i]));
    }
    assert(a =~= b);
}

/// `img` is `width` by `height`, and its pixel in column `x` of row `y` is a
/// result of `pixel` on `(y, x)`.
pub open spec fn grid_rendered<F: Fn(usize, usize) -> Rgb>(
    img: RgbImage,
    width: usize,
    height: usize,
    pixel: F,
) -> bool {
    &&& img.wf()
    &&& img.width_spec() == width
    &&& img.height_spec() == height
    &&& forall|x: int, y: int|
        0 <= x < width && 0 <= y < height ==> pixel.ensures((y as usize, x as usize), #[trigger] img.at(x, y))
}

/// `pixel` gives one color for each position.
pub open spec fn deterministic_pixel<F: Fn(usize, usize) -> Rgb>(pixel: F) -> bool {
    forall|y: usize, x: usize, a: Rgb, b: Rgb|
        pixel.ensures((y, x), a) && pixel.ensures((y, x), b) ==> a == b
}

/// Two renderings of one deterministic pixel function, whether dispatched in
/// parallel or in order, are the same image.
pub proof fn lemma_render_order_independent<F: Fn(usize, usize) -> Rgb>(
    pixel: F,
    width: usize,
    height: usize,
    a: RgbImage,
    b: RgbImage,
)
    requires
        deterministic_pixel(pixel),
        grid_rendered(a, width, height, pixel),
        grid_rendered(b, width, height, pixel),
    ensures
        a.width_spec() == b.width_spec(),
        a.height_spec() == b.height_spec(),
        a.pixels_spec() == b.pixels_spec(),
{
    assert forall|k: int| 0 <= k < a.pixels_spec().len() implies a.pixels_spec()[k]
        == b.pixels_spec()[k] by {
        crate::raster::lemma_index_cell(k, width as int, height as int);
        let x = k % (width as int);
        let y = k / (width as int);
        assert(pixel.ensures((y as usize, x as usize), a.at(x, y)));
        assert(pixel.ensures((y as usize, x as usize), b.at(x, y)));
    }
    assert(a.pixels_spec() =~= b.pixels_spec());
}

/// A `width` by `height` image whose pixel in row `y`, column `x` is
/// `pixel(y, x)`, each pixel an independent unit of work.
pub fn render_grid<F: Fn(usize, usize) -> Rgb + Sync + Send>(
    width: usize,
    height: usize,
    pixel: F,
    parallel: bool,
) -> (r: RgbImage)
    requires
        width * height <= usize::MAX,
        forall|y: usize, x: usize| y < height && x < width ==> pixel.requires((y, x)),
    ensures
        grid_rendered(r, width, height, pixel),
{
    let n = width * height;
    let pixel_ref = &pixel;
    let cell = move |k: usize| -> (p: Rgb)
        requires
            k < width * height,
            forall|y: usize, x: usize| y < height && x < width ==> pixel_ref.requires((y, x)),
        ensures
            pixel_ref.ensures((k / width, k % width), p),
        {
            proof {
                crate::raster::lemma_index_cell(k as int, width as int, height as int);
            }
            pixel_ref(k / width, k % width)
        };
    let v = map_indices(n, cell, parallel);
    let img = RgbImage::from_pixels(width, height, v);
    let img = img.unwrap();
    assert forall|x: int, y: int| 0 <= x < width && 0 <= y < height implies pixel.ensures(
        (y as usize, x as usize),
        #[trigger] img.at(x, y),
    ) by {
        lemma_cell_index(x, y, width as int, height as int);
        let k = y * width + x;
        assert(cell.ensures((k as usize,), v@[k]));
    }
    img
}

/// `column` gave, for each index, a column of `height` pixels.
pub open spec fn columns_of<F: Fn(usize) -> Vec<Rgb>>(cols: Seq<Vec<Rgb>>, width: usize, column: F) -> bool {
    &&& cols.len() == width
    &&& forall|x: int| 0 <= x < width ==> column.ensures((x as usize,), #[trigger] cols[x])
}

/// A `width` by `height` image built column by column: column `x` is
/// `column(x)`, top pixel first, each column an independent unit of work. The
/// columns are laid out as rows and the result transposed.
pub fn render_columns<F: Fn(usize) -> Vec<Rgb> + Sync + Send>(
    width: usize,
    height: usize,
    column: F,
    parallel: bool,
) -> (r: RgbImage)
    requires
        width * height <= usize::MAX,
        forall|x: usize| x < width ==> column.requires((x,)),
        forall|x: usize, c: Vec<Rgb>| x < width && column.ensures((x,), c) ==> c@.len() == height,
    ensures
        r.wf(),
        r.width_spec() == width,
        r.height_spec() == height,
        exists|cols: Seq<Vec<Rgb>>|
            columns_of(cols, width, column) && forall|x: int, y: int|
                0 <= x < width && 0 <= y < height ==> #[trigger] r.at(x, y) == cols[x]@[y],
{
    let cols = map_indices(width, column, parallel);
    let mut pixels: Vec<Rgb> = Vec::new();
    let mut x: usize = 0;
    while x < width
        invariant
            x <= width,
            width * height <= usize::MAX,
            computed_by(cols@, width as nat, column),
            forall|i: usize, c: Vec<Rgb>| i < width && column.ensures((i,), c) ==> c@.len() == height,
            pixels@.len() == x * height,
            forall|i: int, j: int|
                0 <= i < x && 0 <= j < height ==> #[trigger] pixels@[i * height + j] == cols@[i]@[j],
        decreases width - x,
    {
        let col = &cols[x];
        assert(column.ensures((x,), cols@[x as int]));
        assert(col@.len() == height);
        assert((x + 1) * height <= width * height) by (nonlinear_arith)
            requires
                x < width,
        ;
        assert((x + 1) * height == x * height + height) by (nonlinear_arith);
        let ghost before = pixels@;
        let mut y: usize = 0;
        while y < height
            invariant
                y <= height,
                col@.len() == height,
                pixels@.len() == x * height + y,
                (x + 1) * height <= usize::MAX,
                (x + 1) * height == x * height + height,
                forall|k: int| 0 <= k < x * height ==> pixels@[k] == before[k],
                forall|j: int| 0 <= j < y ==> #[trigger] pixels@[x * height + j] == col@[j],
            decreases height - y,
        {
            pixels.push(col[y]);
            y = y + 1;
        }
        assert forall|i: int, j: int| 0 <= i < x + 1 && 0 <= j < height implies #[trigger] pixels@[i
            * height + j] == cols@[i]@[j] by {
            if i < x {
                lemma_cell_index(j, i, height as int, x as int);
                assert(height * x == x * height) by (nonlinear_arith);
                assert(pixels@[i * height + j] == before[i * height + j]);
            }
        }
        x = x + 1;
    }
    assert(height * width == width * height) by (nonlinear_arith);
    let ghost laid_out = pixels@;
    let rows = RgbImage::from_pixels(height, width, pixels);
    let rows = rows.unwrap();
    let r = transpose_image(&rows);
    assert forall|x: int, y: int| 0 <= x < width && 0 <= y < height implies #[trigger] r.at(x, y)
        == cols@[x]@[y] by {
        assert(r.at(x, y) == rows.at(y, x));
        assert(rows.at(y, x) == laid_out[x * height + y]);
    }
    assert(columns_of(cols@, width, column));
    r
}

/// The pixels of one bifurcation-diagram column, top first: the top pixel shows
/// the last bucket of `hist`. A bucket is shaded by its density (denser is
/// darker); a histogram without samples gives an all-black column.
pub fn column_pixels(hist: &HistogramR1) -> (r: Vec<Rgb>)
    requires
        hist.wf(),
    ensures
        r@.len() == hist.counts().len(),
        forall|y: int|
            0 <= y < r@.len() ==> #[trigger] r@[y] == (if hist.max_count() == 0 {
                Rgb { r: 0, g: 0, b: 0 }
            } else {
                let level = crate::histograms::shade_of(
                    hist.counts()[r@.len() - 1 - y] as int,
                    hist.max_count() as int,
                ) as u8;
                Rgb { r: level, g: level, b: level }
            }),
{
    let n = hist.sub_divisions();
    let mut v: Vec<Rgb> = Vec::new();
    let mut y: usize = 0;
    while y < n
        invariant
            hist.wf(),
            n == hist.counts().len(),
            y <= n,
            v@.len() == y,
            forall|j: int|
                0 <= j < y ==> #[trigger] v@[j] == (if hist.max_count() == 0 {
                    Rgb { r: 0, g: 0, b: 0 }
                } else {
                    let level = crate::histograms::shade_of(
                        hist.counts()[n - 1 - j] as int,
                        hist.max_count() as int,
                    ) as u8;
                    Rgb { r: level, g: level, b: level }
                }),
        decreases n - y,
    {
        let p = match hist.shade(n - 1 - y) {
            Some(level) => Rgb::gray(level),
            None => Rgb::black(),
        };
        v.push(p);
        y = y + 1;
    }
    v
}

} // verus!
