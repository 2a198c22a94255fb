use vstd::prelude::*;
use vstd::arithmetic::div_mod::lemma_div_is_ordered;
use vstd::arithmetic::div_mod::lemma_div_multiples_vanish;

verus! {

// Per-pixel transforms. Each channel operation is exact integer arithmetic
// over values scaled by 1000 (thousandths), and converts back to an 8-bit
// channel by truncating after clamping to [0, 255].

/// Clamp a channel value scaled by 1000 to the representable range.
pub open spec fn clamp_scaled(v: int) -> int {
    if v < 0 {
        0
    } else if v > 255000 {
        255000
    } else {
        v
    }
}

/// Brightness on one channel: `clamp(c + b * 255, 0, 255)` computed in
/// thousandths and truncated, where `b` is the brightness in thousandths.
pub open spec fn bright_channel(c: u8, b: int) -> int {
    clamp_scaled(c * 1000 + 255 * b) / 1000
}

/// The whole buffer after a brightness pass: R, G and B move through
/// `bright_channel`; every fourth byte (alpha) is untouched.
pub open spec fn brightened(p: Seq<u8>, b: int) -> Seq<u8> {
    Seq::new(p.len(), |i: int| if i % 4 == 3 { p[i] } else { bright_channel(p[i], b) as u8 })
}

fn bright_byte(c: u8, b: i32) -> (r: u8)
    ensures
        r == bright_channel(c, b as int),
{
    let v: i64 = (c as i64) * 1000 + 255 * (b as i64);
    let v: i64 = if v < 0 {
        0
    } else if v > 255000 {
        255000
    } else {
        v
    };
    ((v as u64) / 1000) as u8
}

/// Apply the brightness transform in place to a whole RGBA buffer.
pub(crate) fn brighten_buffer(p: &mut Vec<u8>, b: i32)
    requires
        old(p)@.len() % 4 == 0,
    ensures
        final(p)@ == brightened(old(p)@, b as int),
{
    let ghost p0 = old(p)@;
    let n = p.len();
    let mut i: usize = 0;
    while i < n
        invariant
            n == p@.len(),
            p@.len() == p0.len(),
            i <= n,
            i % 4 == 0,
            n % 4 == 0,
            forall|j: int|
                0 <= j < i && j % 4 != 3 ==> p@[j] == bright_channel(p0[j], b as int),
            forall|j: int| 0 <= j < i && j % 4 == 3 ==> p@[j] == p0[j],
            forall|j: int| i <= j < n ==> p@[j] == p0[j],
        decreases n - i,
    {
        let r = bright_byte(p[i], b);
        p.set(i, r);
        let g = bright_byte(p[i + 1], b);
        p.set(i + 1, g);
        let bl = bright_byte(p[i + 2], b);
        p.set(i + 2, bl);
        i = i + 4;
    }
    proof {
        assert(p@ =~= brightened(p0, b as int));
    }
}

/// Numerator of the contrast correction factor
/// `259 * (c + 255) / (255 * (259 - c))`, in thousandths.
pub open spec fn contrast_num(con: int) -> int {
    259 * (con + 255000)
}

/// Denominator of the contrast correction factor, in thousandths.
/// Zero exactly when the contrast setting is 259.
pub open spec fn contrast_den(con: int) -> int {
    255 * (259000 - con)
}

/// Clamp the rational `t / d` (with `d > 0`) to `[0, 255]`, truncating.
pub open spec fn clamp_ratio(t: int, d: int) -> int {
    if t <= 0 {
        0
    } else if t >= 255 * d {
        255
    } else {
        t / d
    }
}

/// Contrast on one channel: `clamp(f * (c - 128) + 128, 0, 255)` truncated,
/// where `f` is the correction factor for contrast `con` (thousandths).
#[verifier::opaque]
pub open spec fn contrast_channel(c: u8, con: int) -> int {
    let n = contrast_num(con);
    let d = contrast_den(con);
    let t = n * (c - 128) + 128 * d;
    if d > 0 {
        clamp_ratio(t, d)
    } else {
        clamp_ratio(-t, -d)
    }
}

/// The whole buffer after a contrast pass; alpha bytes are untouched.
pub open spec fn contrasted(p: Seq<u8>, con: int) -> Seq<u8> {
    Seq::new(p.len(), |i: int| if i % 4 == 3 { p[i] } else { contrast_channel(p[i], con) as u8 })
}

fn contrast_byte(c: u8, con: i32) -> (r: u8)
    requires
        con != 259000,
    ensures
        r == contrast_channel(c, con as int),
{
    proof {
        reveal(contrast_channel);
    }
    let nn: i64 = 259 * ((con as i64) + 255000);
    let dd: i64 = 255 * (259000 - (con as i64));
    proof {
        assert(-80000000000000 <= nn * ((c as int) - 128) <= 80000000000000) by (nonlinear_arith)
            requires
                -600000000000 <= nn <= 600000000000,
                -128 <= (c as int) - 128 <= 127,
        ;
    }
    let t: i64 = nn * ((c as i64) - 128) + 128 * dd;
    let (t, dd): (i64, i64) = if dd < 0 { (-t, -dd) } else { (t, dd) };
    if t <= 0 {
        0
    } else if t >= 255 * dd {
        255
    } else {
        proof {
            assert(t / dd < 255) by (nonlinear_arith)
                requires
                    0 < dd,
                    t < 255 * dd,
            ;
        }
        ((t as u64) / (dd as u64)) as u8
    }
}

/// Apply the contrast transform in place to a whole RGBA buffer.
#[verifier::rlimit(30)]
pub(crate) fn contrast_buffer(p: &mut Vec<u8>, con: i32)
    requires
        old(p)@.len() % 4 == 0,
        con != 259000,
    ensures
        final(p)@ == contrasted(old(p)@, con as int),
{
    let ghost p0 = old(p)@;
    let n = p.len();
    let mut i: usize = 0;
    while i < n
        invariant
            n == p@.len(),
            p@.len() == p0.len(),
            i <= n,
            i % 4 == 0,
            n % 4 == 0,
            con != 259000,
            forall|j: int|
                0 <= j < i && j % 4 != 3 ==> p@[j] == contrast_channel(p0[j], con as int),
            forall|j: int| 0 <= j < i && j % 4 == 3 ==> p@[j] == p0[j],
            forall|j: int| i <= j < n ==> p@[j] == p0[j],
        decreases n - i,
    {
        let r = contrast_byte(p[i], con);
        p.set(i, r);
        let g = contrast_byte(p[i + 1], con);
        p.set(i + 1, g);
        let bl = contrast_byte(p[i + 2], con);
        p.set(i + 2, bl);
        i = i + 4;
    }
    proof {
        assert(p@ =~= contrasted(p0, con as int));
    }
}

/// Luminance of a pixel scaled by 1000: `0.299 R + 0.587 G + 0.114 B`.
pub open spec fn lum_1000(r: u8, g: u8, b: u8) -> int {
    299 * r + 587 * g + 114 * b
}

/// Grayscale value of a pixel, truncated to a byte.
pub open spec fn gray_of(r: u8, g: u8, b: u8) -> int {
    lum_1000(r, g, b) / 1000
}

/// The whole buffer after a grayscale pass: R, G and B of each pixel all
/// take the pixel's gray value; alpha bytes are untouched.
pub open spec fn grayed(p: Seq<u8>) -> Seq<u8> {
    Seq::new(
        p.len(),
        |i: int|
            if i % 4 == 3 {
                p[i]
            } else {
                gray_of(p[4 * (i / 4)], p[4 * (i / 4) + 1], p[4 * (i / 4) + 2]) as u8
            },
    )
}

fn gray_byte(r: u8, g: u8, b: u8) -> (v: u8)
    ensures
        v == gray_of(r, g, b),
{
    let s: u32 = 299 * (r as u32) + 587 * (g as u32) + 114 * (b as u32);
    proof {
        assert(s / 1000 <= 255) by (nonlinear_arith)
            requires
                s <= 255000,
        ;
    }
    (s / 1000) as u8
}

/// Apply the grayscale transform in place to a whole RGBA buffer.
pub(crate) fn gray_buffer(p: &mut Vec<u8>)
    requires
        old(p)@.len() % 4 == 0,
    ensures
        final(p)@ == grayed(old(p)@),
{
    let ghost p0 = old(p)@;
    let n = p.len();
    let mut i: usize = 0;
    while i < n
        invariant
            n == p@.len(),
            p@.len() == p0.len(),
            i <= n,
            i % 4 == 0,
            n % 4 == 0,
            forall|j: int|
                0 <= j < i && j % 4 != 3 ==> p@[j] == gray_of(
                    p0[4 * (j / 4)],
                    p0[4 * (j / 4) + 1],
                    p0[4 * (j / 4) + 2],
                ) as u8,
            forall|j: int| 0 <= j < i && j % 4 == 3 ==> p@[j] == p0[j],
            forall|j: int| i <= j < n ==> p@[j] == p0[j],
        decreases n - i,
    {
        let v = gray_byte(p[i], p[i + 1], p[i + 2]);
        p.set(i, v);
        p.set(i + 1, v);
        p.set(i + 2, v);
        proof {
            assert(4 * ((i as int) / 4) == i);
            assert(4 * ((i + 1) / 4) == i);
            assert(4 * ((i + 2) / 4) == i);
        }
        i = i + 4;
    }
    proof {
        assert(p@ =~= grayed(p0));
    }
}

/// The whole buffer after a threshold mask: the alpha byte of a pixel
/// whose normalized luminance lies below the threshold `t` (thousandths)
/// becomes 0; every other byte is untouched.
pub open spec fn masked(p: Seq<u8>, t: int) -> Seq<u8> {
    Seq::new(
        p.len(),
        |i: int|
            if i % 4 == 3 && 255 * t > lum_1000(p[i - 3], p[i - 2], p[i - 1]) {
                0
            } else {
                p[i]
            },
    )
}

/// A brightness of zero is the identity transform: no channel moves.
pub proof fn lemma_brightness_zero_identity(p: Seq<u8>)
    ensures
        brightened(p, 0) == p,
{
    assert forall|i: int| 0 <= i < p.len() implies brightened(p, 0)[i] == p[i] by {
        if i % 4 != 3 {
            let c = p[i] as int;
            assert(clamp_scaled(c * 1000) == 1000 * c);
            lemma_div_multiples_vanish(c, 1000);
        }
    }
    assert(brightened(p, 0) =~= p);
}

/// A contrast of zero gives a correction factor of exactly one, so the
/// transform is the identity: no channel moves.
pub proof fn lemma_contrast_zero_identity(p: Seq<u8>)
    ensures
        contrasted(p, 0) == p,
{
    assert forall|i: int| 0 <= i < p.len() implies contrasted(p, 0)[i] == p[i] by {
        if i % 4 != 3 {
            lemma_contrast_zero_channel(p[i]);
        }
    }
    assert(contrasted(p, 0) =~= p);
}

proof fn lemma_contrast_zero_channel(c: u8)
    ensures
        contrast_channel(c, 0) == c,
{
    reveal(contrast_channel);
    let n = contrast_num(0);
    let d = contrast_den(0);
    assert(n == 66045000);
    assert(d == 66045000);
    let t = n * (c - 128) + 128 * d;
    assert(t == 66045000 * (c as int)) by (nonlinear_arith)
        requires
            t == 66045000 * (c - 128) + 128 * 66045000,
    ;
    if c == 0 {
        assert(contrast_channel(c, 0) == 0);
    } else if c == 255 {
        assert(t >= 255 * d);
        assert(contrast_channel(c, 0) == 255);
    } else {
        assert(0 < t < 255 * d);
        lemma_div_multiples_vanish(c as int, 66045000);
        assert(contrast_channel(c, 0) == t / d);
    }
}

/// Grayscale is idempotent: a pixel that already carries its gray value
/// in all three color channels keeps it, so a second pass changes
/// nothing.
pub proof fn lemma_grayscale_idempotent(p: Seq<u8>)
    requires
        p.len() % 4 == 0,
    ensures
        grayed(grayed(p)) == grayed(p),
{
    let g = grayed(p);
    assert forall|i: int| 0 <= i < p.len() implies grayed(g)[i] == g[i] by {
        if i % 4 != 3 {
            let b = 4 * (i / 4);
            assert(b % 4 == 0 && b + 3 < p.len() && b <= i) by {
                assert(4 * (i / 4) + i % 4 == i) by {
                    vstd::arithmetic::div_mod::lemma_fundamental_div_mod(i, 4);
                }
            }
            assert(b / 4 == i / 4 && (b + 1) / 4 == i / 4 && (b + 2) / 4 == i / 4);
            let v = gray_of(p[4 * (b / 4)], p[4 * (b / 4) + 1], p[4 * (b / 4) + 2]);
            assert(0 <= v <= 255) by {
                let s = lum_1000(p[4 * (b / 4)], p[4 * (b / 4) + 1], p[4 * (b / 4) + 2]);
                lemma_div_is_ordered(0, s, 1000);
                lemma_div_is_ordered(s, 255000, 1000);
            }
            assert(g[b] == v as u8 && g[b + 1] == v as u8 && g[b + 2] == v as u8);
            assert(gray_of(v as u8, v as u8, v as u8) == v) by {
                assert(lum_1000(v as u8, v as u8, v as u8) == 1000 * v);
                lemma_div_multiples_vanish(v, 1000);
            }
        }
    }
    assert(grayed(g) =~= g);
}

/// Apply the threshold mask in place to a whole RGBA buffer.
pub(crate) fn mask_buffer(p: &mut Vec<u8>, t: i32)
    requires
        old(p)@.len() % 4 == 0,
    ensures
        final(p)@ == masked(old(p)@, t as int),
{
    let ghost p0 = old(p)@;
    let n = p.len();
    let mut i: usize = 0;
    while i < n
        invariant
            n == p@.len(),
            p@.len() == p0.len(),
            i <= n,
            i % 4 == 0,
            n % 4 == 0,
            forall|j: int|
                0 <= j < i && j % 4 == 3 ==> p@[j] == (if 255 * (t as int) > lum_1000(
                    p0[j - 3],
                    p0[j - 2],
                    p0[j - 1],
                ) {
                    0u8
                } else {
                    p0[j]
                }),
            forall|j: int| 0 <= j < i && j % 4 != 3 ==> p@[j] == p0[j],
            forall|j: int| i <= j < n ==> p@[j] == p0[j],
        decreases n - i,
    {
        let lum: u32 = 299 * (p[i] as u32) + 587 * (p[i + 1] as u32) + 114 * (p[i + 2] as u32);
        if 255 * (t as i64) > lum as i64 {
            p.set(i + 3, 0);
        }
        i = i + 4;
    }
    proof {
        assert(p@ =~= masked(p0, t as int));
    }
}

} // verus!
