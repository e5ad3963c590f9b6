//! Box-shape coverage bitmaps: the key a rasterised coverage bitmap is cached
//! under, and the separable box blur that turns a hard-edged coverage bitmap
//! into a shadow.

use vstd::prelude::*;

verus! {

/// Identifies a coverage bitmap. Quantised to whole pixels and 1/16 px because
/// that is what is rasterised — keying on raw floats would miss on every
/// sub-pixel wobble and grow the cache without bound.
///
/// One key covers a filled rounded rect (`border` all zero), a border ring
/// (`border` non-zero) and either of those blurred for a shadow.
#[derive(Debug, Clone, Copy, PartialEq, Eq, Hash)]
pub struct CoverageKey {
    pub w: u32,
    pub h: u32,
    /// Per-corner radius in 1/16 px: top-left, top-right, bottom-right,
    /// bottom-left.
    pub radius_16th: [u32; 4],
    /// Per-side border width in 1/16 px (top, right, bottom, left). All zero
    /// means a filled shape rather than a ring.
    pub border_16th: [u32; 4],
    /// Gaussian sigma in 1/16 px. Zero means a hard, merely antialiased edge.
    pub blur_16th: u32,
    /// How far in from the bitmap's edge the shape stops, in 1/16 px, leaving
    /// room for a blur to fade out into.
    pub inset_16th: u32,
}

/// Clamp a column index to the row `0..w`, which is how the blur extends edge
/// pixels outwards.
pub open spec fn clamp_index(i: int, w: int) -> int {
    if i < 0 {
        0
    } else if i > w - 1 {
        w - 1
    } else {
        i
    }
}

/// Pixel `c` of the row of width `w` starting at `start`, with columns past
/// either end taken to repeat the end pixel.
pub open spec fn pixel_at(src: Seq<u8>, start: int, w: int, c: int) -> int {
    src[start + clamp_index(c, w)] as int
}

/// The sum of the `n` pixels from column `lo` on, edges extended.
pub open spec fn col_sum(src: Seq<u8>, start: int, w: int, lo: int, n: int) -> int
    decreases n,
{
    if n <= 0 {
        0
    } else {
        col_sum(src, start, w, lo, n - 1) + pixel_at(src, start, w, lo + n - 1)
    }
}

/// The box-blurred value of column `x` of the row starting at `start`: the
/// mean, rounded down, of the `2 * radius + 1` pixels centred on it, with
/// pixels past either end of the row taken to repeat the end pixel.
pub open spec fn box_mean(src: Seq<u8>, start: int, w: int, x: int, radius: int) -> int {
    col_sum(src, start, w, x - radius, 2 * radius + 1) / (2 * radius + 1)
}

proof fn lemma_col_sum_bounds(src: Seq<u8>, start: int, w: int, lo: int, n: int)
    requires
        0 <= n,
    ensures
        0 <= col_sum(src, start, w, lo, n) <= 255 * n,
    decreases n,
{
    if n > 0 {
        lemma_col_sum_bounds(src, start, w, lo, n - 1);
    }
}

proof fn lemma_col_sum_front(src: Seq<u8>, start: int, w: int, lo: int, n: int)
    requires
        0 <= n,
    ensures
        col_sum(src, start, w, lo, n + 1) == pixel_at(src, start, w, lo) + col_sum(
            src,
            start,
            w,
            lo + 1,
            n,
        ),
    decreases n,
{
    if n > 0 {
        lemma_col_sum_front(src, start, w, lo, n - 1);
        assert(col_sum(src, start, w, lo, n + 1) == col_sum(src, start, w, lo, n) + pixel_at(
            src,
            start,
            w,
            lo + n,
        ));
        assert(col_sum(src, start, w, lo + 1, n) == col_sum(src, start, w, lo + 1, n - 1)
            + pixel_at(src, start, w, lo + 1 + n - 1));
    } else {
        assert(col_sum(src, start, w, lo, 1) == col_sum(src, start, w, lo, 0) + pixel_at(
            src,
            start,
            w,
            lo,
        ));
    }
}

/// Columns left of the row all read the first pixel.
proof fn lemma_col_sum_left_edge(src: Seq<u8>, start: int, w: int, r: int)
    requires
        0 <= r,
        w > 0,
    ensures
        col_sum(src, start, w, -r, r) == r * pixel_at(src, start, w, 0),
    decreases r,
{
    if r > 0 {
        lemma_col_sum_front(src, start, w, -r, r - 1);
        lemma_col_sum_left_edge(src, start, w, r - 1);
        assert(-r + 1 == -(r - 1));
        assert(col_sum(src, start, w, -r, r) == col_sum(src, start, w, -r, (r - 1) + 1));
        assert(col_sum(src, start, w, -r, r) == pixel_at(src, start, w, -r) + col_sum(
            src,
            start,
            w,
            -r + 1,
            r - 1,
        ));
        assert(col_sum(src, start, w, -r + 1, r - 1) == col_sum(src, start, w, -(r - 1), r - 1));
        assert(pixel_at(src, start, w, -r) == pixel_at(src, start, w, 0));
        assert(r * pixel_at(src, start, w, 0) == pixel_at(src, start, w, 0) + (r - 1)
            * pixel_at(src, start, w, 0)) by (nonlinear_arith);
    } else {
        assert(r * pixel_at(src, start, w, 0) == 0) by (nonlinear_arith)
            requires
                r == 0,
        ;
    }
}

proof fn lemma_col_sum_split(src: Seq<u8>, start: int, w: int, lo: int, a: int, b: int)
    requires
        0 <= a,
        0 <= b,
    ensures
        col_sum(src, start, w, lo, a + b) == col_sum(src, start, w, lo, a) + col_sum(
            src,
            start,
            w,
            lo + a,
            b,
        ),
    decreases b,
{
    if b > 0 {
        lemma_col_sum_split(src, start, w, lo, a, b - 1);
    }
}

/// One horizontal box-blur pass over `h` rows of width `w`, via a running
/// sum. Edge pixels are extended rather than treated as zero, so a shape
/// touching the bitmap's border does not develop a dark seam there.
pub fn blur_rows(src: &[u8], dst: &mut [u8], w: usize, h: usize, radius: usize)
    requires
        h * w <= src@.len(),
        h * w <= old(dst)@.len(),
        h > 0 ==> w > 0,
        (2 * radius + 2) * 255 <= u32::MAX,
    ensures
        final(dst)@.len() == old(dst)@.len(),
        forall|i: int| h * w <= i < final(dst)@.len() ==> final(dst)@[i] == old(dst)@[i],
        forall|y: int, x: int|
            0 <= y < h && 0 <= x < w ==> #[trigger] final(dst)@[y * w + x] == box_mean(
                src@,
                y * w,
                w as int,
                x,
                radius as int,
            ),
{
    let src_len = src.len();
    let dst_len = dst.len();
    let window = (radius * 2 + 1) as u32;
    let ghost r = radius as int;
    let mut y: usize = 0;
    while y < h
        invariant
            y <= h,
            src_len == src@.len(),
            dst_len == dst@.len(),
            h * w <= src@.len(),
            h * w <= dst@.len(),
            h > 0 ==> w > 0,
            (2 * radius + 2) * 255 <= u32::MAX,
            window == 2 * radius + 1,
            r == radius,
            dst@.len() == old(dst)@.len(),
            forall|i: int| y * w <= i < dst@.len() ==> dst@[i] == old(dst)@[i],
            forall|yy: int, x: int|
                0 <= yy < y && 0 <= x < w ==> #[trigger] dst@[yy * w + x] == box_mean(
                    src@,
                    yy * w,
                    w as int,
                    x,
                    r,
                ),
        decreases h - y,
    {
        proof {
            assert((y + 1) * w <= h * w) by (nonlinear_arith)
                requires
                    y + 1 <= h,
            ;
            assert((y + 1) * w == y * w + w) by (nonlinear_arith);
        }
        let start = y * w;
        let ghost st = start as int;
        let row0 = src[start] as u32;
        let mut sum: u32 = 0;
        let mut i: usize = 0;
        while i <= radius
            invariant
                0 <= i <= radius + 1,
                w > 0,
                src_len == src@.len(),
                start + w <= src@.len(),
                st == start,
                (2 * radius + 2) * 255 <= u32::MAX,
                sum == col_sum(src@, st, w as int, 0, i as int),
            decreases radius + 1 - i,
        {
            let idx = if i > w - 1 {
                w - 1
            } else {
                i
            };
            proof {
                lemma_col_sum_bounds(src@, st, w as int, 0, i as int);
            }
            sum = sum + src[start + idx] as u32;
            i = i + 1;
        }
        proof {
            lemma_col_sum_bounds(src@, st, w as int, 0, r + 1);
            lemma_col_sum_left_edge(src@, st, w as int, r);
            lemma_col_sum_split(src@, st, w as int, -r, r, r + 1);
            assert(row0 as int * radius <= 255 * radius) by (nonlinear_arith)
                requires
                    row0 <= 255,
            ;
            assert(pixel_at(src@, st, w as int, 0) == row0);
            assert(-r + r == 0);
            assert(r + (r + 1) == 2 * r + 1);
            assert(col_sum(src@, st, w as int, -r, 2 * r + 1) == r * row0 + col_sum(
                src@,
                st,
                w as int,
                0,
                r + 1,
            ));
        }
        proof {
            assert(r * row0 == row0 * r) by (nonlinear_arith);
        }
        sum = sum + row0 * (radius as u32);
        proof {
            assert(sum == col_sum(src@, st, w as int, 0 - r, 2 * r + 1));
        }
        let mut x: usize = 0;
        while x < w
            invariant
                0 <= x <= w,
                w > 0,
                src_len == src@.len(),
                dst_len == dst@.len(),
                start + w <= src@.len(),
                start + w <= dst@.len(),
                st == start,
                start == y * w,
                y < h,
                window == 2 * radius + 1,
                r == radius,
                (2 * radius + 2) * 255 <= u32::MAX,
                dst@.len() == old(dst)@.len(),
                sum == col_sum(src@, st, w as int, x - r, 2 * r + 1),
                forall|i: int| y * w + x <= i < dst@.len() ==> dst@[i] == old(dst)@[i],
                forall|xx: int|
                    0 <= xx < x ==> #[trigger] dst@[st + xx] == box_mean(src@, st, w as int, xx, r),
                forall|yy: int, xx: int|
                    0 <= yy < y && 0 <= xx < w ==> #[trigger] dst@[yy * w + xx] == box_mean(
                        src@,
                        yy * w,
                        w as int,
                        xx,
                        r,
                    ),
            decreases w - x,
        {
            proof {
                lemma_col_sum_bounds(src@, st, w as int, x - r, 2 * r + 1);
                vstd::arithmetic::div_mod::lemma_div_is_ordered(
                    sum as int,
                    255 * (2 * r + 1),
                    2 * r + 1,
                );
                vstd::arithmetic::div_mod::lemma_div_multiples_vanish(255, 2 * r + 1);
            }
            let ghost prev = dst@;
            dst[start + x] = (sum / window) as u8;
            proof {
                assert forall|yy: int, xx: int|
                    0 <= yy < y && 0 <= xx < w implies #[trigger] dst@[yy * w + xx] == box_mean(
                    src@,
                    yy * w,
                    w as int,
                    xx,
                    r,
                ) by {
                    assert(yy * w + xx < (yy + 1) * w) by (nonlinear_arith)
                        requires
                            xx < w,
                    ;
                    assert((yy + 1) * w <= y * w) by (nonlinear_arith)
                        requires
                            yy + 1 <= y,
                            w > 0,
                    ;
                    assert(dst@[yy * w + xx] == prev[yy * w + xx]);
                }
            }
            let ahead = if radius >= w - 1 - x {
                w - 1
            } else {
                x + radius + 1
            };
            proof {
                lemma_col_sum_front(src@, st, w as int, x - r, 2 * r + 1);
                assert(col_sum(src@, st, w as int, x - r, 2 * r + 2) == sum + pixel_at(
                    src@,
                    st,
                    w as int,
                    x + r + 1,
                ));
                assert(pixel_at(src@, st, w as int, x + r + 1) == src@[st + ahead]);
                lemma_col_sum_bounds(src@, st, w as int, x - r, 2 * r + 2);
            }
            sum = sum + src[start + ahead] as u32;
            let behind = if x < radius {
                0
            } else {
                x - radius
            };
            proof {
                assert(pixel_at(src@, st, w as int, x - r) == src@[st + behind]);
                assert(x - r + 1 == (x + 1) - r);
                lemma_col_sum_bounds(src@, st, w as int, x - r + 1, 2 * r + 1);
            }
            sum = sum - src[start + behind] as u32;
            x = x + 1;
        }
        y = y + 1;
        proof {
            assert forall|yy: int, xx: int|
                0 <= yy < y && 0 <= xx < w implies #[trigger] dst@[yy * w + xx] == box_mean(
                src@,
                yy * w,
                w as int,
                xx,
                r,
            ) by {
                if yy == y - 1 {
                    assert(yy * w + xx == st + xx);
                }
            }
        }
    }
}


/// Write the `w` x `h` image `src` (row-major) into `dst` transposed, as an
/// `h` x `w` image: pixel `(x, y)` moves to `(y, x)`.
pub fn transpose(src: &[u8], dst: &mut [u8], w: usize, h: usize)
    requires
        h * w <= src@.len(),
        h * w <= old(dst)@.len(),
    ensures
        final(dst)@.len() == old(dst)@.len(),
        forall|i: int| h * w <= i < final(dst)@.len() ==> final(dst)@[i] == old(dst)@[i],
        forall|y: int, x: int|
            0 <= y < h && 0 <= x < w ==> #[trigger] final(dst)@[x * h + y] == src@[y * w + x],
{
    let src_len = src.len();
    let dst_len = dst.len();
    let mut y: usize = 0;
    while y < h
        invariant
            y <= h,
            src_len == src@.len(),
            dst_len == dst@.len(),
            h * w <= src@.len(),
            h * w <= dst@.len(),
            dst@.len() == old(dst)@.len(),
            forall|i: int| h * w <= i < dst@.len() ==> dst@[i] == old(dst)@[i],
            forall|yy: int, x: int|
                0 <= yy < y && 0 <= x < w ==> #[trigger] dst@[x * h + yy] == src@[yy * w + x],
        decreases h - y,
    {
        let mut x: usize = 0;
        while x < w
            invariant
                y < h,
                x <= w,
                src_len == src@.len(),
                dst_len == dst@.len(),
                h * w <= src@.len(),
                h * w <= dst@.len(),
                dst@.len() == old(dst)@.len(),
                forall|i: int| h * w <= i < dst@.len() ==> dst@[i] == old(dst)@[i],
                forall|xx: int| 0 <= xx < x ==> #[trigger] dst@[xx * h + y] == src@[y * w + xx],
                forall|yy: int, xx: int|
                    0 <= yy < y && 0 <= xx < w ==> #[trigger] dst@[xx * h + yy] == src@[yy * w + xx],
            decreases w - x,
        {
            proof {
                lemma_cell_in_image(y as int, x as int, w as int, h as int);
                lemma_cell_in_image(x as int, y as int, h as int, w as int);
            }
            let ghost prev = dst@;
            dst[x * h + y] = src[y * w + x];
            proof {
                assert forall|yy: int, xx: int|
                    0 <= yy < y && 0 <= xx < w implies #[trigger] dst@[xx * h + yy] == src@[yy * w + xx] by {
                    lemma_cell_distinct(xx, yy, x as int, y as int, h as int);
                    lemma_cell_in_image(xx, yy, h as int, w as int);
                    assert(dst@[xx * h + yy] == prev[xx * h + yy]);
                }
                assert forall|xx: int| 0 <= xx < x implies #[trigger] dst@[xx * h + y] == src@[y * w + xx] by {
                    lemma_cell_distinct(xx, y as int, x as int, y as int, h as int);
                    lemma_cell_in_image(xx, y as int, h as int, w as int);
                    assert(dst@[xx * h + y] == prev[xx * h + y]);
                }
                lemma_cell_in_image(x as int, y as int, h as int, w as int);
            }
            x = x + 1;
        }
        y = y + 1;
    }
}

/// Cell `(col, row)` of an image `w` wide and `h` tall lies inside it.
proof fn lemma_cell_in_image(row: int, col: int, w: int, h: int)
    requires
        0 <= row < h,
        0 <= col < w,
    ensures
        0 <= row * w + col < h * w,
        row * w <= h * w,
        h * w == w * h,
{
    assert(h * w == w * h) by (nonlinear_arith);
    assert(row * w + col < (row + 1) * w) by (nonlinear_arith)
        requires
            col < w,
    ;
    assert((row + 1) * w <= h * w) by (nonlinear_arith)
        requires
            row + 1 <= h,
            0 <= col < w,
    ;
    assert(0 <= row * w) by (nonlinear_arith)
        requires
            0 <= row,
            0 <= col < w,
    ;
}

/// Distinct cells of an image `h` tall have distinct column-major indices.
proof fn lemma_cell_distinct(a: int, b: int, c: int, d: int, h: int)
    requires
        0 <= b < h,
        0 <= d < h,
        0 <= a,
        0 <= c,
        a != c || b != d,
    ensures
        a * h + b != c * h + d,
{
    if a == c {
    } else if a < c {
        assert(a * h + b < c * h + d) by (nonlinear_arith)
            requires
                a < c,
                0 <= b < h,
                0 <= d,
        ;
    } else {
        assert(c * h + d < a * h + b) by (nonlinear_arith)
            requires
                c < a,
                0 <= d < h,
                0 <= b,
        ;
    }
}


/// One horizontal box-blur pass over the `w` x `h` image `img`.
pub open spec fn blurred_rows(img: Seq<u8>, w: int, h: int, radius: int) -> Seq<u8> {
    Seq::new((h * w) as nat, |i: int| box_mean(img, (i / w) * w, w, i % w, radius) as u8)
}

/// The `w` x `h` image `img` transposed into an `h` x `w` one.
pub open spec fn transposed(img: Seq<u8>, w: int, h: int) -> Seq<u8> {
    Seq::new((h * w) as nat, |i: int| img[(i % h) * w + i / h])
}

/// One blur pass: horizontally, then vertically (as a horizontal pass over the
/// transpose), ending back in the orientation it started in.
pub open spec fn blur_pass(img: Seq<u8>, w: int, h: int, radius: int) -> Seq<u8> {
    transposed(
        blurred_rows(transposed(blurred_rows(img, w, h, radius), w, h), h, w, radius),
        h,
        w,
    )
}

/// `passes` blur passes over `img`.
pub open spec fn box_blurred(img: Seq<u8>, w: int, h: int, radius: int, passes: nat) -> Seq<u8>
    decreases passes,
{
    if passes == 0 {
        img
    } else {
        blur_pass(box_blurred(img, w, h, radius, (passes - 1) as nat), w, h, radius)
    }
}

proof fn lemma_index_split(i: int, w: int, h: int)
    requires
        0 <= i < h * w,
        w > 0,
    ensures
        i == (i / w) * w + i % w,
        0 <= i / w < h,
        0 <= i % w < w,
{
    vstd::arithmetic::div_mod::lemma_fundamental_div_mod(i, w);
    vstd::arithmetic::div_mod::lemma_mod_bound(i, w);
    vstd::arithmetic::div_mod::lemma_div_pos_is_pos(i, w);
    assert((i / w) * w == w * (i / w)) by (nonlinear_arith);
    if i / w >= h {
        assert((i / w) * w >= h * w) by (nonlinear_arith)
            requires
                i / w >= h,
                w > 0,
        ;
    }
}

proof fn lemma_blur_rows_result(src: Seq<u8>, dst: Seq<u8>, w: int, h: int, radius: int)
    requires
        w > 0,
        h > 0,
        dst.len() == h * w,
        forall|y: int, x: int|
            0 <= y < h && 0 <= x < w ==> #[trigger] dst[y * w + x] == box_mean(src, y * w, w, x, radius),
    ensures
        dst == blurred_rows(src, w, h, radius),
{
    assert forall|i: int| 0 <= i < dst.len() implies dst[i] == blurred_rows(src, w, h, radius)[i] by {
        lemma_index_split(i, w, h);
        let y = i / w;
        let x = i % w;
        assert(dst[y * w + x] == box_mean(src, y * w, w, x, radius));
    }
    assert(dst =~= blurred_rows(src, w, h, radius));
}

proof fn lemma_transpose_result(src: Seq<u8>, dst: Seq<u8>, w: int, h: int)
    requires
        w > 0,
        h > 0,
        dst.len() == h * w,
        forall|y: int, x: int| 0 <= y < h && 0 <= x < w ==> #[trigger] dst[x * h + y] == src[y * w + x],
    ensures
        dst == transposed(src, w, h),
{
    assert(h * w == w * h) by (nonlinear_arith);
    assert forall|i: int| 0 <= i < dst.len() implies dst[i] == transposed(src, w, h)[i] by {
        lemma_index_split(i, h, w);
        let x = i / h;
        let y = i % h;
        assert(dst[x * h + y] == src[y * w + x]);
    }
    assert(dst =~= transposed(src, w, h));
}

/// Three box-blur passes, which approximate a Gaussian closely enough that the
/// difference is invisible in a shadow, in O(pixels) rather than
/// O(pixels * radius). Each pass blurs horizontally, then blurs the transpose
/// horizontally, which is the vertical pass; separability keeps it linear.
///
/// Does nothing for a zero radius or an empty image.
pub fn blur(data: &mut [u8], w: usize, h: usize, radius: usize)
    requires
        old(data)@.len() == h * w,
        (2 * radius + 2) * 255 <= u32::MAX,
    ensures
        radius == 0 || w == 0 || h == 0 ==> final(data)@ == old(data)@,
        radius > 0 && w > 0 && h > 0 ==> final(data)@ == box_blurred(
            old(data)@,
            w as int,
            h as int,
            radius as int,
            3,
        ),
{
    if radius == 0 || w == 0 || h == 0 {
        return;
    }
    let mut scratch = vec![0u8; data.len()];
    proof {
        assert(h * w == w * h) by (nonlinear_arith);
    }
    let mut pass: usize = 0;
    while pass < 3
        invariant
            pass <= 3,
            w > 0,
            h > 0,
            data@.len() == h * w,
            scratch@.len() == h * w,
            h * w == w * h,
            (2 * radius + 2) * 255 <= u32::MAX,
            data@ == box_blurred(old(data)@, w as int, h as int, radius as int, pass as nat),
        decreases 3 - pass,
    {
        let ghost img = data@;
        blur_rows(data, &mut scratch, w, h, radius);
        proof {
            lemma_blur_rows_result(img, scratch@, w as int, h as int, radius as int);
        }
        let ghost rows = scratch@;
        transpose(&scratch, data, w, h);
        proof {
            lemma_transpose_result(rows, data@, w as int, h as int);
        }
        let ghost turned = data@;
        blur_rows(data, &mut scratch, h, w, radius);
        proof {
            lemma_blur_rows_result(turned, scratch@, h as int, w as int, radius as int);
        }
        let ghost cols = scratch@;
        transpose(&scratch, data, h, w);
        proof {
            lemma_transpose_result(cols, data@, h as int, w as int);
        }
        pass = pass + 1;
    }
}

/// An image of `n` pixels all of value `c`.
pub open spec fn uniform(c: u8, n: int) -> Seq<u8> {
    Seq::new(n as nat, |i: int| c)
}

proof fn lemma_col_sum_uniform(src: Seq<u8>, c: u8, start: int, w: int, lo: int, n: int)
    requires
        0 <= n,
        w > 0,
        0 <= start,
        start + w <= src.len(),
        forall|j: int| start <= j < start + w ==> src[j] == c,
    ensures
        col_sum(src, start, w, lo, n) == n * c,
    decreases n,
{
    if n > 0 {
        lemma_col_sum_uniform(src, c, start, w, lo, n - 1);
        let col = clamp_index(lo + n - 1, w);
        assert(src[start + col] == c);
        assert(n * c == (n - 1) * c + c) by (nonlinear_arith);
    } else {
        assert(n * c == 0) by (nonlinear_arith)
            requires
                n == 0,
        ;
    }
}

proof fn lemma_blurred_rows_uniform(c: u8, w: int, h: int, radius: int)
    requires
        w > 0,
        h > 0,
        radius >= 0,
    ensures
        blurred_rows(uniform(c, h * w), w, h, radius) == uniform(c, h * w),
{
    let img = uniform(c, h * w);
    assert forall|i: int| 0 <= i < h * w implies blurred_rows(img, w, h, radius)[i] == c by {
        lemma_index_split(i, w, h);
        let y = i / w;
        assert((y + 1) * w <= h * w) by (nonlinear_arith)
            requires
                y < h,
                w > 0,
        ;
        assert((y + 1) * w == y * w + w) by (nonlinear_arith);
        assert(0 <= y * w) by (nonlinear_arith)
            requires
                0 <= y,
                w > 0,
        ;
        lemma_col_sum_uniform(img, c, y * w, w, i % w - radius, 2 * radius + 1);
        let n = 2 * radius + 1;
        assert((n * c) / n == c as int) by (nonlinear_arith)
            requires
                n > 0,
        ;
    }
    assert(blurred_rows(img, w, h, radius) =~= img);
}

proof fn lemma_transposed_uniform(c: u8, w: int, h: int)
    requires
        w > 0,
        h > 0,
    ensures
        transposed(uniform(c, h * w), w, h) == uniform(c, h * w),
        uniform(c, h * w) == uniform(c, w * h),
{
    assert(h * w == w * h) by (nonlinear_arith);
    let img = uniform(c, h * w);
    assert forall|i: int| 0 <= i < h * w implies transposed(img, w, h)[i] == c by {
        lemma_index_split(i, h, w);
        let x = i / h;
        let y = i % h;
        assert(0 <= y * w + x < h * w) by (nonlinear_arith)
            requires
                0 <= y < h,
                0 <= x < w,
        ;
    }
    assert(transposed(img, w, h) =~= img);
    assert(uniform(c, h * w) =~= uniform(c, w * h));
}

/// Blurring never darkens or lightens an image that is one flat value: edge
/// pixels are extended, not taken as zero, so a uniform image comes out of any
/// number of passes exactly as it went in, with no seam at its border.
pub proof fn lemma_uniform_image_is_unchanged(c: u8, w: int, h: int, radius: int, passes: nat)
    requires
        w > 0,
        h > 0,
        radius >= 0,
    ensures
        box_blurred(uniform(c, h * w), w, h, radius, passes) == uniform(c, h * w),
    decreases passes,
{
    if passes > 0 {
        lemma_uniform_image_is_unchanged(c, w, h, radius, (passes - 1) as nat);
        lemma_blurred_rows_uniform(c, w, h, radius);
        lemma_transposed_uniform(c, w, h);
        lemma_blurred_rows_uniform(c, h, w, radius);
        lemma_transposed_uniform(c, h, w);
    }
}

} // verus!
