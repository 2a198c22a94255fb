use vstd::prelude::*;
use vstd::arithmetic::div_mod::lemma_div_is_ordered;
use vstd::arithmetic::div_mod::lemma_div_multiples_vanish;
use vstd::arithmetic::div_mod::lemma_fundamental_div_mod_converse_div;
use vstd::arithmetic::div_mod::lemma_fundamental_div_mod_converse_mod;
use crate::kernel::gaussian_kernel;
use crate::kernel::lemma_kernel_normalized;
use crate::kernel::lemma_kernel_single_tap;
use crate::kernel::lemma_sum_ge_elem;
use crate::kernel::lemma_sum_take_le;
use crate::kernel::lemma_sum_take_step;
use crate::kernel::sum_ints;
use crate::kernel::weights_of;

verus! {

// The separable convolution engine: one pass along rows into a scratch
// buffer, one pass along columns back into the working buffer, both with
// clamp-to-edge sampling. Weights are fractions of 65536, so a channel
// accumulation is truncated by dividing the weighted sum by 65536.

/// Clamp-to-edge border policy: an out-of-range neighbor coordinate
/// reuses the nearest in-bounds one.
pub open spec fn clamp_coord(v: int, hi: int) -> int {
    if v < 0 {
        0
    } else if v > hi {
        hi
    } else {
        v
    }
}

/// Truncate an accumulated channel value to a byte.
pub open spec fn byte_of(v: int) -> u8 {
    if v < 0 {
        0u8
    } else if v > 255 {
        255u8
    } else {
        v as u8
    }
}

/// Weighted sum of the first `j` kernel taps for pixel `(x, y)`, channel
/// `ch`, sampling along the row with clamped columns.
pub open spec fn conv_row(p: Seq<u8>, width: int, k: Seq<int>, x: int, y: int, ch: int, j: int) -> int
    decreases j,
{
    if j <= 0 {
        0
    } else {
        conv_row(p, width, k, x, y, ch, j - 1) + k[j - 1] * p[(y * width + clamp_coord(
            x + j - 1 - (k.len() - 1) / 2,
            width - 1,
        )) * 4 + ch]
    }
}

/// Weighted sum of the first `j` kernel taps for pixel `(x, y)`, channel
/// `ch`, sampling along the column with clamped rows.
pub open spec fn conv_col(
    p: Seq<u8>,
    width: int,
    height: int,
    k: Seq<int>,
    x: int,
    y: int,
    ch: int,
    j: int,
) -> int
    decreases j,
{
    if j <= 0 {
        0
    } else {
        conv_col(p, width, height, k, x, y, ch, j - 1) + k[j - 1] * p[(clamp_coord(
            y + j - 1 - (k.len() - 1) / 2,
            height - 1,
        ) * width + x) * 4 + ch]
    }
}

/// The buffer after the horizontal pass.
pub open spec fn row_pass(p: Seq<u8>, width: int, k: Seq<int>) -> Seq<u8> {
    Seq::new(
        p.len(),
        |i: int|
            byte_of(
                conv_row(p, width, k, (i / 4) % width, (i / 4) / width, i % 4, k.len() as int)
                    / 65536,
            ),
    )
}

/// The buffer after the vertical pass.
pub open spec fn col_pass(p: Seq<u8>, width: int, height: int, k: Seq<int>) -> Seq<u8> {
    Seq::new(
        p.len(),
        |i: int|
            byte_of(
                conv_col(
                    p,
                    width,
                    height,
                    k,
                    (i / 4) % width,
                    (i / 4) / width,
                    i % 4,
                    k.len() as int,
                ) / 65536,
            ),
    )
}

/// The buffer after a full separable blur with kernel `k`: the
/// horizontal pass feeds a scratch buffer, the vertical pass reads the
/// scratch and writes the result.
pub open spec fn blurred(p: Seq<u8>, width: int, height: int, k: Seq<int>) -> Seq<u8> {
    col_pass(row_pass(p, width, k), width, height, k)
}

/// The byte every channel-`ch` position carries in a uniform buffer.
pub open spec fn channel_at(r: u8, g: u8, b: u8, a: u8, ch: int) -> u8 {
    if ch == 0 {
        r
    } else if ch == 1 {
        g
    } else if ch == 2 {
        b
    } else {
        a
    }
}

/// Every pixel of the buffer carries the same color `(r, g, b, a)`.
pub open spec fn uniform_color(p: Seq<u8>, r: u8, g: u8, b: u8, a: u8) -> bool {
    forall|i: int| 0 <= i < p.len() ==> p[i] == channel_at(r, g, b, a, i % 4)
}

proof fn lemma_conv_row_uniform(
    p: Seq<u8>,
    width: int,
    height: int,
    k: Seq<int>,
    x: int,
    y: int,
    ch: int,
    j: int,
    r: u8,
    g: u8,
    b: u8,
    a: u8,
)
    requires
        p.len() == width * height * 4,
        1 <= width,
        1 <= height,
        0 <= x < width,
        0 <= y < height,
        0 <= ch < 4,
        0 <= j <= k.len(),
        uniform_color(p, r, g, b, a),
    ensures
        conv_row(p, width, k, x, y, ch, j) == channel_at(r, g, b, a, ch) * sum_ints(k.take(j)),
    decreases j,
{
    let v = channel_at(r, g, b, a, ch) as int;
    if j <= 0 {
        assert(k.take(0) =~= Seq::<int>::empty());
        assert(v * 0 == 0) by (nonlinear_arith);
    } else {
        lemma_conv_row_uniform(p, width, height, k, x, y, ch, j - 1, r, g, b, a);
        let cc = clamp_coord(x + j - 1 - (k.len() - 1) / 2, width - 1);
        assert(0 <= cc < width);
        let idx = (y * width + cc) * 4 + ch;
        assert(0 <= idx < width * height * 4) by (nonlinear_arith)
            requires
                idx == (y * width + cc) * 4 + ch,
                0 <= y < height,
                0 <= cc < width,
                0 <= ch < 4,
                1 <= width,
        ;
        lemma_fundamental_div_mod_converse_mod(idx, 4, y * width + cc, ch);
        assert(p[idx] == v);
        lemma_sum_take_step(k, j - 1);
        assert(v * sum_ints(k.take(j - 1)) + k[j - 1] * v == v * sum_ints(k.take(j)))
            by (nonlinear_arith)
            requires
                sum_ints(k.take(j)) == sum_ints(k.take(j - 1)) + k[j - 1],
        ;
    }
}

proof fn lemma_conv_col_uniform(
    p: Seq<u8>,
    width: int,
    height: int,
    k: Seq<int>,
    x: int,
    y: int,
    ch: int,
    j: int,
    r: u8,
    g: u8,
    b: u8,
    a: u8,
)
    requires
        p.len() == width * height * 4,
        1 <= width,
        1 <= height,
        0 <= x < width,
        0 <= y < height,
        0 <= ch < 4,
        0 <= j <= k.len(),
        uniform_color(p, r, g, b, a),
    ensures
        conv_col(p, width, height, k, x, y, ch, j) == channel_at(r, g, b, a, ch) * sum_ints(
            k.take(j),
        ),
    decreases j,
{
    let v = channel_at(r, g, b, a, ch) as int;
    if j <= 0 {
        assert(k.take(0) =~= Seq::<int>::empty());
        assert(v * 0 == 0) by (nonlinear_arith);
    } else {
        lemma_conv_col_uniform(p, width, height, k, x, y, ch, j - 1, r, g, b, a);
        let cc = clamp_coord(y + j - 1 - (k.len() - 1) / 2, height - 1);
        assert(0 <= cc < height);
        let idx = (cc * width + x) * 4 + ch;
        assert(0 <= idx < width * height * 4) by (nonlinear_arith)
            requires
                idx == (cc * width + x) * 4 + ch,
                0 <= cc < height,
                0 <= x < width,
                0 <= ch < 4,
                1 <= width,
        ;
        lemma_fundamental_div_mod_converse_mod(idx, 4, cc * width + x, ch);
        assert(p[idx] == v);
        lemma_sum_take_step(k, j - 1);
        assert(v * sum_ints(k.take(j - 1)) + k[j - 1] * v == v * sum_ints(k.take(j)))
            by (nonlinear_arith)
            requires
                sum_ints(k.take(j)) == sum_ints(k.take(j - 1)) + k[j - 1],
        ;
    }
}

/// Decompose a byte index of the buffer into its pixel coordinates.
proof fn lemma_index_coords(i: int, width: int, height: int, len: int)
    requires
        len == width * height * 4,
        1 <= width,
        1 <= height,
        0 <= i < len,
    ensures
        0 <= (i / 4) % width < width,
        0 <= (i / 4) / width < height,
        0 <= i % 4 < 4,
        ((i / 4) / width * width + (i / 4) % width) * 4 + i % 4 == i,
{
    vstd::arithmetic::div_mod::lemma_fundamental_div_mod(i, 4);
    assert(width * height * 4 - 1 == (width * height - 1) * 4 + 3) by (nonlinear_arith);
    lemma_fundamental_div_mod_converse_div(width * height * 4 - 1, 4, width * height - 1, 3);
    lemma_div_is_ordered(i, width * height * 4 - 1, 4);
    lemma_div_is_ordered(0, i, 4);
    assert(0 <= i / 4 < width * height);
    vstd::arithmetic::div_mod::lemma_fundamental_div_mod(i / 4, width);
    assert(width * height - 1 == (height - 1) * width + (width - 1)) by (nonlinear_arith);
    lemma_fundamental_div_mod_converse_div(width * height - 1, width, height - 1, width - 1);
    lemma_div_is_ordered(i / 4, width * height - 1, width);
    lemma_div_is_ordered(0, i / 4, width);
    assert((i / 4) / width * width + (i / 4) % width == i / 4) by {
        assert(i / 4 == width * ((i / 4) / width) + (i / 4) % width);
        assert(width * ((i / 4) / width) == (i / 4) / width * width) by (nonlinear_arith);
    }
    assert(((i / 4) / width * width + (i / 4) % width) * 4 + i % 4 == (i / 4) * 4 + i % 4);
    assert((i / 4) * 4 + i % 4 == i) by {
        assert(i == 4 * (i / 4) + i % 4);
        assert(4 * (i / 4) == (i / 4) * 4) by (nonlinear_arith);
    }
}

/// Blurring a uniform-color image is the identity: with weights that sum
/// to one in fixed point, every clamped sample carries the same value,
/// so each channel accumulates exactly its own value. In particular a
/// uniform opaque image keeps its color and its full opacity.
pub proof fn lemma_blur_uniform(
    p: Seq<u8>,
    width: int,
    height: int,
    k: Seq<int>,
    r: u8,
    g: u8,
    b: u8,
    a: u8,
)
    requires
        p.len() == width * height * 4,
        1 <= width,
        1 <= height,
        1 <= k.len(),
        sum_ints(k) == 65536,
        uniform_color(p, r, g, b, a),
    ensures
        blurred(p, width, height, k) == p,
{
    lemma_row_pass_uniform(p, width, height, k, r, g, b, a);
    lemma_col_pass_uniform(p, width, height, k, r, g, b, a);
}

proof fn lemma_row_pass_uniform(
    p: Seq<u8>,
    width: int,
    height: int,
    k: Seq<int>,
    r: u8,
    g: u8,
    b: u8,
    a: u8,
)
    requires
        p.len() == width * height * 4,
        1 <= width,
        1 <= height,
        1 <= k.len(),
        sum_ints(k) == 65536,
        uniform_color(p, r, g, b, a),
    ensures
        row_pass(p, width, k) == p,
{
    assert forall|i: int| 0 <= i < p.len() implies row_pass(p, width, k)[i] == p[i] by {
        lemma_index_coords(i, width, height, p.len() as int);
        let x = (i / 4) % width;
        let y = (i / 4) / width;
        let ch = i % 4;
        let v = channel_at(r, g, b, a, ch);
        lemma_conv_row_uniform(p, width, height, k, x, y, ch, k.len() as int, r, g, b, a);
        assert(k.take(k.len() as int) =~= k);
        lemma_div_multiples_vanish(v as int, 65536);
        assert((v as int) * 65536 == 65536 * (v as int)) by (nonlinear_arith);
        assert(byte_of((v as int) * 65536 / 65536) == v);
    }
    assert(row_pass(p, width, k) =~= p);
}

proof fn lemma_col_pass_uniform(
    p: Seq<u8>,
    width: int,
    height: int,
    k: Seq<int>,
    r: u8,
    g: u8,
    b: u8,
    a: u8,
)
    requires
        p.len() == width * height * 4,
        1 <= width,
        1 <= height,
        1 <= k.len(),
        sum_ints(k) == 65536,
        uniform_color(p, r, g, b, a),
    ensures
        col_pass(p, width, height, k) == p,
{
    assert forall|i: int| 0 <= i < p.len() implies col_pass(p, width, height, k)[i] == p[i] by {
        lemma_index_coords(i, width, height, p.len() as int);
        let x = (i / 4) % width;
        let y = (i / 4) / width;
        let ch = i % 4;
        let v = channel_at(r, g, b, a, ch);
        lemma_conv_col_uniform(p, width, height, k, x, y, ch, k.len() as int, r, g, b, a);
        assert(k.take(k.len() as int) =~= k);
        lemma_div_multiples_vanish(v as int, 65536);
        assert((v as int) * 65536 == 65536 * (v as int)) by (nonlinear_arith);
        assert(byte_of((v as int) * 65536 / 65536) == v);
    }
    assert(col_pass(p, width, height, k) =~= p);
}

/// A Gaussian blur of any positive radius leaves a uniform-color image
/// unchanged: border clamping preserves constant fields.
pub proof fn lemma_gaussian_blur_uniform(
    p: Seq<u8>,
    width: int,
    height: int,
    radius: int,
    r: u8,
    g: u8,
    b: u8,
    a: u8,
)
    requires
        p.len() == width * height * 4,
        1 <= width,
        1 <= height,
        1 <= radius,
        uniform_color(p, r, g, b, a),
    ensures
        blurred(p, width, height, gaussian_kernel(radius)) == p,
{
    lemma_kernel_normalized(radius);
    lemma_blur_uniform(p, width, height, gaussian_kernel(radius), r, g, b, a);
}

/// A radius below one pixel produces the single-tap kernel of full
/// weight, and blurring with it is the identity transform.
pub proof fn lemma_blur_small_radius_identity(p: Seq<u8>, width: int, height: int, radius: int)
    requires
        p.len() == width * height * 4,
        1 <= width,
        1 <= height,
        1 <= radius < 1000,
    ensures
        blurred(p, width, height, gaussian_kernel(radius)) == p,
{
    lemma_kernel_single_tap(radius);
    lemma_blur_single_tap(p, width, height);
}

/// Blurring with the single-tap kernel of full weight is the identity
/// transform: each pixel samples only itself.
pub proof fn lemma_blur_single_tap(p: Seq<u8>, width: int, height: int)
    requires
        p.len() == width * height * 4,
        1 <= width,
        1 <= height,
    ensures
        blurred(p, width, height, seq![65536int]) == p,
{
    lemma_row_pass_single_tap(p, width, height);
    lemma_col_pass_single_tap(p, width, height);
}

proof fn lemma_row_pass_single_tap(p: Seq<u8>, width: int, height: int)
    requires
        p.len() == width * height * 4,
        1 <= width,
        1 <= height,
    ensures
        row_pass(p, width, seq![65536int]) == p,
{
    let k = seq![65536int];
    assert forall|i: int| 0 <= i < p.len() implies row_pass(p, width, k)[i] == p[i] by {
        lemma_index_coords(i, width, height, p.len() as int);
        let x = (i / 4) % width;
        let y = (i / 4) / width;
        let ch = i % 4;
        assert(clamp_coord(x + 1 - 1 - (k.len() - 1) / 2, width - 1) == x);
        assert(conv_row(p, width, k, x, y, ch, 1) == conv_row(p, width, k, x, y, ch, 0) + k[0] * p[(
        y * width + x) * 4 + ch]);
        assert((y * width + x) * 4 + ch == i);
        assert(conv_row(p, width, k, x, y, ch, 1) == 65536 * (p[i] as int));
        lemma_div_multiples_vanish(p[i] as int, 65536);
        assert(byte_of(65536 * (p[i] as int) / 65536) == p[i]);
    }
    assert(row_pass(p, width, k) =~= p);
}

proof fn lemma_col_pass_single_tap(p: Seq<u8>, width: int, height: int)
    requires
        p.len() == width * height * 4,
        1 <= width,
        1 <= height,
    ensures
        col_pass(p, width, height, seq![65536int]) == p,
{
    let k = seq![65536int];
    assert forall|i: int| 0 <= i < p.len() implies col_pass(p, width, height, k)[i] == p[i] by {
        lemma_index_coords(i, width, height, p.len() as int);
        let x = (i / 4) % width;
        let y = (i / 4) / width;
        let ch = i % 4;
        assert(clamp_coord(y + 1 - 1 - (k.len() - 1) / 2, height - 1) == y);
        assert(conv_col(p, width, height, k, x, y, ch, 1) == conv_col(p, width, height, k, x, y, ch, 0)
            + k[0] * p[(y * width + x) * 4 + ch]);
        assert((y * width + x) * 4 + ch == i);
        assert(conv_col(p, width, height, k, x, y, ch, 1) == 65536 * (p[i] as int));
        lemma_div_multiples_vanish(p[i] as int, 65536);
        assert(byte_of(65536 * (p[i] as int) / 65536) == p[i]);
    }
    assert(col_pass(p, width, height, k) =~= p);
}

fn conv_pixel_row(p: &Vec<u8>, width: u32, height: u32, k: &Vec<u64>, x: u32, y: u32, ch: u32) -> (r:
    u8)
    requires
        p@.len() == width * height * 4,
        1 <= width,
        1 <= height,
        x < width,
        y < height,
        ch < 4,
        1 <= k@.len() <= 4294967,
        sum_ints(weights_of(k@)) == 65536,
    ensures
        r == byte_of(
            conv_row(p@, width as int, weights_of(k@), x as int, y as int, ch as int, k@.len() as int)
                / 65536,
        ),
{
    let ghost km = weights_of(k@);
    proof {
        assert(km.len() == k@.len());
        assert forall|m: int| 0 <= m < km.len() implies km[m] >= 0 by {
            assert(km[m] == k@[m] as int);
        }
    }
    let plen: usize = p.len();
    let n: usize = k.len();
    let half: usize = (n - 1) / 2;
    let mut acc: u64 = 0;
    let mut j: usize = 0;
    while j < n
        invariant
            p@.len() == width * height * 4,
            plen == p@.len(),
            1 <= width,
            1 <= height,
            x < width,
            y < height,
            ch < 4,
            km == weights_of(k@),
            km.len() == k@.len(),
            n == k@.len(),
            1 <= n <= 4294967,
            half == ((n - 1) / 2) as int,
            sum_ints(km) == 65536,
            forall|m: int| 0 <= m < km.len() ==> km[m] >= 0,
            j <= n,
            acc == conv_row(p@, width as int, km, x as int, y as int, ch as int, j as int),
            acc <= 255 * sum_ints(km.take(j as int)),
            sum_ints(km.take(j as int)) <= 65536,
        decreases n - j,
    {
        let off: i64 = x as i64 + j as i64 - half as i64;
        let limit: i64 = (width - 1) as i64;
        let cx: u32 = if off < 0 {
            0
        } else if off > limit {
            width - 1
        } else {
            off as u32
        };
        proof {
            assert(cx as int == clamp_coord(x + j - (half as int), width - 1));
            assert(((y as int) * (width as int) + (cx as int)) * 4 + (ch as int) < (width as int)
                * (height as int) * 4 && ((y as int) * (width as int) + (cx as int)) * 4 + (
            ch as int) >= 0) by (nonlinear_arith)
                requires
                    0 <= (y as int) < (height as int),
                    0 <= (cx as int) < (width as int),
                    0 <= (ch as int) < 4,
                    1 <= (width as int),
            ;
        }
        let idx: usize = ((y as usize) * (width as usize) + (cx as usize)) * 4 + (ch as usize);
        let s = p[idx];
        proof {
            assert(0 <= (j as int) < km.len());
            assert(km[j as int] == k@[j as int] as int);
            lemma_sum_ge_elem(km, j as int);
            assert(km[j as int] <= 65536);
            assert((k@[j as int] as int) * (s as int) <= 65536 * 255 && (k@[j as int] as int) * (
            s as int) <= (km[j as int]) * 255 && (k@[j as int] as int) * (s as int) >= 0)
                by (nonlinear_arith)
                requires
                    0 <= (k@[j as int] as int) <= 65536,
                    km[j as int] == k@[j as int] as int,
                    0 <= (s as int) <= 255,
            ;
            lemma_sum_take_step(km, j as int);
            lemma_sum_take_le(km, j + 1);
        }
        acc = acc + k[j] * (s as u64);
        j = j + 1;
    }
    proof {
        assert(km.take(n as int) =~= km);
        assert(acc <= 255 * 65536);
        lemma_div_is_ordered(acc as int, 255int * 65536, 65536);
        assert(255int * 65536 / 65536 == 255);
    }
    (acc / 65536) as u8
}

fn conv_pixel_col(p: &Vec<u8>, width: u32, height: u32, k: &Vec<u64>, x: u32, y: u32, ch: u32) -> (r:
    u8)
    requires
        p@.len() == width * height * 4,
        1 <= width,
        1 <= height,
        x < width,
        y < height,
        ch < 4,
        1 <= k@.len() <= 4294967,
        sum_ints(weights_of(k@)) == 65536,
    ensures
        r == byte_of(
            conv_col(
                p@,
                width as int,
                height as int,
                weights_of(k@),
                x as int,
                y as int,
                ch as int,
                k@.len() as int,
            ) / 65536,
        ),
{
    let ghost km = weights_of(k@);
    proof {
        assert(km.len() == k@.len());
        assert forall|m: int| 0 <= m < km.len() implies km[m] >= 0 by {
            assert(km[m] == k@[m] as int);
        }
    }
    let plen: usize = p.len();
    let n: usize = k.len();
    let half: usize = (n - 1) / 2;
    let mut acc: u64 = 0;
    let mut j: usize = 0;
    while j < n
        invariant
            p@.len() == width * height * 4,
            plen == p@.len(),
            1 <= width,
            1 <= height,
            x < width,
            y < height,
            ch < 4,
            km == weights_of(k@),
            km.len() == k@.len(),
            n == k@.len(),
            1 <= n <= 4294967,
            half == ((n - 1) / 2) as int,
            sum_ints(km) == 65536,
            forall|m: int| 0 <= m < km.len() ==> km[m] >= 0,
            j <= n,
            acc == conv_col(
                p@,
                width as int,
                height as int,
                km,
                x as int,
                y as int,
                ch as int,
                j as int,
            ),
            acc <= 255 * sum_ints(km.take(j as int)),
            sum_ints(km.take(j as int)) <= 65536,
        decreases n - j,
    {
        let off: i64 = y as i64 + j as i64 - half as i64;
        let limit: i64 = (height - 1) as i64;
        let cy: u32 = if off < 0 {
            0
        } else if off > limit {
            height - 1
        } else {
            off as u32
        };
        proof {
            assert(cy as int == clamp_coord(y + j - (half as int), height - 1));
            assert(((cy as int) * (width as int) + (x as int)) * 4 + (ch as int) < (width as int)
                * (height as int) * 4 && ((cy as int) * (width as int) + (x as int)) * 4 + (
            ch as int) >= 0) by (nonlinear_arith)
                requires
                    0 <= (cy as int) < (height as int),
                    0 <= (x as int) < (width as int),
                    0 <= (ch as int) < 4,
                    1 <= (width as int),
            ;
        }
        let idx: usize = ((cy as usize) * (width as usize) + (x as usize)) * 4 + (ch as usize);
        let s = p[idx];
        proof {
            assert(0 <= (j as int) < km.len());
            assert(km[j as int] == k@[j as int] as int);
            lemma_sum_ge_elem(km, j as int);
            assert(km[j as int] <= 65536);
            assert((k@[j as int] as int) * (s as int) <= 65536 * 255 && (k@[j as int] as int) * (
            s as int) <= (km[j as int]) * 255 && (k@[j as int] as int) * (s as int) >= 0)
                by (nonlinear_arith)
                requires
                    0 <= (k@[j as int] as int) <= 65536,
                    km[j as int] == k@[j as int] as int,
                    0 <= (s as int) <= 255,
            ;
            lemma_sum_take_step(km, j as int);
            lemma_sum_take_le(km, j + 1);
        }
        acc = acc + k[j] * (s as u64);
        j = j + 1;
    }
    proof {
        assert(km.take(n as int) =~= km);
        assert(acc <= 255 * 65536);
        lemma_div_is_ordered(acc as int, 255int * 65536, 65536);
        assert(255int * 65536 / 65536 == 255);
    }
    (acc / 65536) as u8
}

/// The horizontal pass: convolve every pixel along its row, reading only
/// the immutable source and writing a fresh scratch buffer.
pub(crate) fn horizontal_pass(p: &Vec<u8>, width: u32, height: u32, k: &Vec<u64>) -> (out: Vec<u8>)
    requires
        p@.len() == width * height * 4,
        1 <= width,
        1 <= height,
        1 <= k@.len() <= 4294967,
        sum_ints(weights_of(k@)) == 65536,
    ensures
        out@ == row_pass(p@, width as int, weights_of(k@)),
{
    let ghost km = weights_of(k@);
    let ghost hp = row_pass(p@, width as int, km);
    let plen: usize = p.len();
    let total: usize = plen / 4;
    proof {
        lemma_fundamental_div_mod_converse_div(
            plen as int,
            4,
            (width as int) * (height as int),
            0,
        );
    }
    let mut out: Vec<u8> = Vec::new();
    let mut pix: usize = 0;
    while pix < total
        invariant
            p@.len() == width * height * 4,
            plen == p@.len(),
            1 <= width,
            1 <= height,
            km == weights_of(k@),
            1 <= k@.len() <= 4294967,
            sum_ints(km) == 65536,
            hp == row_pass(p@, width as int, km),
            hp.len() == p@.len(),
            total == (width as int) * (height as int),
            pix <= total,
            out@.len() == pix * 4,
            forall|m: int| 0 <= m < pix * 4 ==> out@[m] == hp[m],
        decreases total - pix,
    {
        proof {
            assert((width as int) * (height as int) - 1 == ((height as int) - 1) * (width as int)
                + ((width as int) - 1)) by (nonlinear_arith);
            lemma_fundamental_div_mod_converse_div(
                (width as int) * (height as int) - 1,
                width as int,
                (height as int) - 1,
                (width as int) - 1,
            );
            lemma_div_is_ordered(
                pix as int,
                (width as int) * (height as int) - 1,
                width as int,
            );
        }
        let x: u32 = (pix % (width as usize)) as u32;
        let y: u32 = (pix / (width as usize)) as u32;
        let v0 = conv_pixel_row(p, width, height, k, x, y, 0);
        let v1 = conv_pixel_row(p, width, height, k, x, y, 1);
        let v2 = conv_pixel_row(p, width, height, k, x, y, 2);
        let v3 = conv_pixel_row(p, width, height, k, x, y, 3);
        out.push(v0);
        out.push(v1);
        out.push(v2);
        out.push(v3);
        proof {
            let base = (pix * 4) as int;
            assert forall|ch: int| 0 <= ch < 4 implies #[trigger] ((base + ch) / 4) == pix as int
                && (base + ch) % 4 == ch by {
                lemma_fundamental_div_mod_converse_div(base + ch, 4, pix as int, ch);
                lemma_fundamental_div_mod_converse_mod(base + ch, 4, pix as int, ch);
            }
            assert(out@[base + 0] == hp[base + 0]);
            assert(out@[base + 1] == hp[base + 1]);
            assert(out@[base + 2] == hp[base + 2]);
            assert(out@[base + 3] == hp[base + 3]);
        }
        pix = pix + 1;
    }
    proof {
        assert(out@ =~= hp);
    }
    out
}

/// The vertical pass: convolve every pixel along its column, reading
/// only the scratch buffer and writing the result buffer.
pub(crate) fn vertical_pass(p: &Vec<u8>, width: u32, height: u32, k: &Vec<u64>) -> (out: Vec<u8>)
    requires
        p@.len() == width * height * 4,
        1 <= width,
        1 <= height,
        1 <= k@.len() <= 4294967,
        sum_ints(weights_of(k@)) == 65536,
    ensures
        out@ == col_pass(p@, width as int, height as int, weights_of(k@)),
{
    let ghost km = weights_of(k@);
    let ghost vp = col_pass(p@, width as int, height as int, km);
    let plen: usize = p.len();
    let total: usize = plen / 4;
    proof {
        lemma_fundamental_div_mod_converse_div(
            plen as int,
            4,
            (width as int) * (height as int),
            0,
        );
    }
    let mut out: Vec<u8> = Vec::new();
    let mut pix: usize = 0;
    while pix < total
        invariant
            p@.len() == width * height * 4,
            plen == p@.len(),
            1 <= width,
            1 <= height,
            km == weights_of(k@),
            1 <= k@.len() <= 4294967,
            sum_ints(km) == 65536,
            vp == col_pass(p@, width as int, height as int, km),
            vp.len() == p@.len(),
            total == (width as int) * (height as int),
            pix <= total,
            out@.len() == pix * 4,
            forall|m: int| 0 <= m < pix * 4 ==> out@[m] == vp[m],
        decreases total - pix,
    {
        proof {
            assert((width as int) * (height as int) - 1 == ((height as int) - 1) * (width as int)
                + ((width as int) - 1)) by (nonlinear_arith);
            lemma_fundamental_div_mod_converse_div(
                (width as int) * (height as int) - 1,
                width as int,
                (height as int) - 1,
                (width as int) - 1,
            );
            lemma_div_is_ordered(
                pix as int,
                (width as int) * (height as int) - 1,
                width as int,
            );
        }
        let x: u32 = (pix % (width as usize)) as u32;
        let y: u32 = (pix / (width as usize)) as u32;
        let v0 = conv_pixel_col(p, width, height, k, x, y, 0);
        let v1 = conv_pixel_col(p, width, height, k, x, y, 1);
        let v2 = conv_pixel_col(p, width, height, k, x, y, 2);
        let v3 = conv_pixel_col(p, width, height, k, x, y, 3);
        out.push(v0);
        out.push(v1);
        out.push(v2);
        out.push(v3);
        proof {
            let base = (pix * 4) as int;
            assert forall|ch: int| 0 <= ch < 4 implies #[trigger] ((base + ch) / 4) == pix as int
                && (base + ch) % 4 == ch by {
                lemma_fundamental_div_mod_converse_div(base + ch, 4, pix as int, ch);
                lemma_fundamental_div_mod_converse_mod(base + ch, 4, pix as int, ch);
            }
            assert(out@[base + 0] == vp[base + 0]);
            assert(out@[base + 1] == vp[base + 1]);
            assert(out@[base + 2] == vp[base + 2]);
            assert(out@[base + 3] == vp[base + 3]);
        }
        pix = pix + 1;
    }
    proof {
        assert(out@ =~= vp);
    }
    out
}

} // verus!
