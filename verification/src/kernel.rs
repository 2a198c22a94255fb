use vstd::prelude::*;
use vstd::arithmetic::div_mod::lemma_div_is_ordered;
use vstd::arithmetic::div_mod::lemma_div_multiples_vanish;
use vstd::arithmetic::div_mod::lemma_fundamental_div_mod;

verus! {

// The 1-D Gaussian sampling kernel, in fixed point. A weight is a
// fraction of 65536, so a fully normalized kernel sums to exactly 65536.
// The radius parameter is in thousandths, the sampling deviation is
// `sigma = radius / 3`, and the sample count is `2 * floor(radius) + 1`.

/// Center index of the kernel for a radius in thousandths.
pub open spec fn half_of(radius: int) -> int {
    radius / 1000
}

/// Number of taps: `2 * floor(radius) + 1`, always odd and at least 1.
pub open spec fn taps_of(radius: int) -> int {
    2 * half_of(radius) + 1
}

/// The exponent `x^2 / (2 sigma^2)` of the Gaussian at integer offset
/// `x`, scaled by 65536 and truncated, for `sigma = radius / 3` with the
/// radius in thousandths.
pub open spec fn tau(x: int, radius: int) -> int {
    (x * x * 9000000 * 65536) / (2 * radius * radius)
}

/// `(1/e)^q` as a fraction of 65536, by repeated scaling with
/// `floor(65536 / e) == 24109`.
pub open spec fn pow_einv(q: nat) -> int
    decreases q,
{
    if q == 0 {
        65536
    } else {
        pow_einv((q - 1) as nat) * 24109 / 65536
    }
}

/// Cubic series approximation of `e^(-f / 65536)` for `0 <= f < 65536`,
/// as a fraction of 65536.
pub open spec fn poly_einv(f: int) -> int {
    65536 - f + (f * f) / 131072 - (f * f * f) / 25769803776
}

/// `e^(-t / 65536)` as a fraction of 65536; zero once the true value
/// falls below the fixed-point resolution (at `t == 24 * 65536`).
pub open spec fn exp_q16(t: int) -> int {
    if t >= 1572864 {
        0
    } else {
        pow_einv((t / 65536) as nat) * poly_einv(t % 65536) / 65536
    }
}

/// The unnormalized kernel: the Gaussian sampled at integer offsets from
/// the center.
pub open spec fn raw_kernel(radius: int) -> Seq<int> {
    Seq::new(taps_of(radius) as nat, |i: int| exp_q16(tau(i - half_of(radius), radius)))
}

/// Sum of a sequence of weights.
pub open spec fn sum_ints(s: Seq<int>) -> int
    decreases s.len(),
{
    if s.len() == 0 {
        0
    } else {
        sum_ints(s.drop_last()) + s.last()
    }
}

/// The kernel after dividing every raw weight by the raw sum, truncating.
pub open spec fn scaled_kernel(radius: int) -> Seq<int> {
    Seq::new(
        taps_of(radius) as nat,
        |i: int| raw_kernel(radius)[i] * 65536 / sum_ints(raw_kernel(radius)),
    )
}

/// The normalized kernel: truncation loses a little mass, and that
/// deficit is returned to the center tap, so the weights sum to exactly
/// 65536.
pub open spec fn gaussian_kernel(radius: int) -> Seq<int> {
    let base = scaled_kernel(radius);
    base.update(half_of(radius), base[half_of(radius)] + 65536 - sum_ints(base))
}

/// The mathematical view of an executable weight vector.
pub open spec fn weights_of(k: Seq<u64>) -> Seq<int> {
    k.map_values(|w: u64| w as int)
}

pub proof fn lemma_pow_einv_bounds(q: nat)
    ensures
        0 <= pow_einv(q) <= 65536,
    decreases q,
{
    if q > 0 {
        lemma_pow_einv_bounds((q - 1) as nat);
        let p = pow_einv((q - 1) as nat);
        assert(p * 24109 <= 65536 * 24109) by (nonlinear_arith)
            requires
                p <= 65536,
        ;
        lemma_div_is_ordered(p * 24109, 65536int * 24109, 65536);
        assert(p * 24109 >= 0) by (nonlinear_arith)
            requires
                p >= 0,
        ;
        lemma_div_is_ordered(0, p * 24109, 65536);
    }
}

pub proof fn lemma_poly_einv_bounds(f: int)
    requires
        0 <= f < 65536,
    ensures
        1 <= poly_einv(f) <= 65536,
        (f * f * f) / 25769803776 <= (f * f) / 131072,
        f + (f * f * f) / 25769803776 <= 65535 + (f * f) / 131072,
        (f * f) / 131072 <= f,
{
    let a = f * f;
    let b = f * f * f;
    let ad = a / 131072;
    let bd = b / 25769803776;
    // the cubic term never exceeds the quadratic term
    assert(b * 131072 <= a * 25769803776) by (nonlinear_arith)
        requires
            0 <= f < 65536,
            a == f * f,
            b == f * f * f,
    ;
    lemma_fundamental_div_mod(b, 25769803776);
    assert(25769803776 * bd <= b);
    assert(bd * 131072 * 196608 <= a * 196608) by (nonlinear_arith)
        requires
            25769803776 * bd <= b,
            b * 131072 <= a * 25769803776,
    ;
    assert(bd * 131072 <= a) by (nonlinear_arith)
        requires
            bd * 131072 * 196608 <= a * 196608,
    ;
    assert(bd <= (131072 * bd) / 131072) by {
        lemma_div_multiples_vanish(bd, 131072);
    }
    lemma_div_is_ordered(131072 * bd, a, 131072);
    // the quadratic term never exceeds f itself
    assert(a <= 131072 * f) by (nonlinear_arith)
        requires
            0 <= f < 65536,
            a == f * f,
    ;
    lemma_div_is_ordered(a, 131072 * f, 131072);
    lemma_div_multiples_vanish(f, 131072);
    assert(ad >= 0) by {
        assert(a >= 0) by (nonlinear_arith)
            requires
                a == f * f,
        ;
        lemma_div_is_ordered(0, a, 131072);
    }
}

pub proof fn lemma_exp_q16_bounds(t: int)
    requires
        t >= 0,
    ensures
        0 <= exp_q16(t) <= 65536,
{
    if t < 1572864 {
        let p = pow_einv((t / 65536) as nat);
        let y = poly_einv(t % 65536);
        lemma_pow_einv_bounds((t / 65536) as nat);
        lemma_poly_einv_bounds(t % 65536);
        assert(0 <= p * y <= 65536 * 65536) by (nonlinear_arith)
            requires
                0 <= p <= 65536,
                0 <= y <= 65536,
        ;
        lemma_div_is_ordered(0, p * y, 65536);
        lemma_div_is_ordered(p * y, 65536int * 65536, 65536);
    }
}

/// The Gaussian is 1 at the center: `tau(0) == 0` and `exp_q16(0)` is a
/// full weight.
pub proof fn lemma_exp_center(radius: int)
    requires
        radius >= 1,
    ensures
        tau(0, radius) == 0,
        exp_q16(tau(0, radius)) == 65536,
{
    assert(0 * 0 * 9000000 * 65536 == 0);
    assert(0int / (2 * radius * radius) == 0) by {
        assert(2 * radius * radius >= 2) by (nonlinear_arith)
            requires
                radius >= 1,
        ;
        lemma_div_multiples_vanish(0, 2 * radius * radius);
        assert((2 * radius * radius) * 0 == 0) by (nonlinear_arith);
    }
    assert(tau(0, radius) == 0);
    assert(exp_q16(0) == pow_einv(0) * poly_einv(0) / 65536);
    assert(poly_einv(0) == 65536);
    assert(pow_einv(0) == 65536);
    assert(65536 * 65536 / 65536 == 65536);
}

pub proof fn lemma_sum_take_step(s: Seq<int>, j: int)
    requires
        0 <= j < s.len(),
    ensures
        sum_ints(s.take(j + 1)) == sum_ints(s.take(j)) + s[j],
{
    assert(s.take(j + 1).drop_last() =~= s.take(j));
    assert(s.take(j + 1).last() == s[j]);
}

pub proof fn lemma_sum_nonneg(s: Seq<int>)
    requires
        forall|j: int| 0 <= j < s.len() ==> s[j] >= 0,
    ensures
        sum_ints(s) >= 0,
    decreases s.len(),
{
    if s.len() > 0 {
        lemma_sum_nonneg(s.drop_last());
    }
}

pub proof fn lemma_sum_ge_elem(s: Seq<int>, i: int)
    requires
        forall|j: int| 0 <= j < s.len() ==> s[j] >= 0,
        0 <= i < s.len(),
    ensures
        sum_ints(s) >= s[i],
    decreases s.len(),
{
    if i == s.len() - 1 {
        lemma_sum_nonneg(s.drop_last());
    } else {
        lemma_sum_ge_elem(s.drop_last(), i);
    }
}

pub proof fn lemma_sum_take_le(s: Seq<int>, j: int)
    requires
        forall|i: int| 0 <= i < s.len() ==> s[i] >= 0,
        0 <= j <= s.len(),
    ensures
        sum_ints(s.take(j)) <= sum_ints(s),
    decreases s.len() - j,
{
    if j == s.len() {
        assert(s.take(j) =~= s);
    } else {
        lemma_sum_take_step(s, j);
        lemma_sum_take_le(s, j + 1);
    }
}

pub proof fn lemma_tau_nonneg(x: int, radius: int)
    requires
        radius >= 1,
    ensures
        tau(x, radius) >= 0,
{
    let num = x * x * 9000000 * 65536;
    let den = 2 * radius * radius;
    assert(x * x >= 0) by (nonlinear_arith);
    assert(2 * radius * radius >= 2) by (nonlinear_arith)
        requires
            radius >= 1,
    ;
    assert(x * x * 9000000 * 65536 >= 0) by (nonlinear_arith)
        requires
            x * x >= 0,
    ;
    assert(den * 0 == 0);
    lemma_div_multiples_vanish(0, den);
    lemma_div_is_ordered(0, num, den);
}

pub proof fn lemma_sum_update(s: Seq<int>, j: int, v: int)
    requires
        0 <= j < s.len(),
    ensures
        sum_ints(s.update(j, v)) == sum_ints(s) - s[j] + v,
    decreases s.len(),
{
    if j == s.len() - 1 {
        assert(s.update(j, v).drop_last() =~= s.drop_last());
        assert(s.update(j, v).last() == v);
    } else {
        assert(s.update(j, v).drop_last() =~= s.drop_last().update(j, v));
        assert(s.update(j, v).last() == s.last());
        lemma_sum_update(s.drop_last(), j, v);
    }
}

/// The kernel generator always yields an odd number of taps whose
/// weights sum to exactly one in fixed point (65536), for every positive
/// radius.
pub proof fn lemma_kernel_normalized(radius: int)
    requires
        radius >= 1,
    ensures
        gaussian_kernel(radius).len() == taps_of(radius),
        taps_of(radius) % 2 == 1,
        taps_of(radius) >= 1,
        sum_ints(gaussian_kernel(radius)) == 65536,
{
    lemma_div_is_ordered(0, radius, 1000);
    let base = scaled_kernel(radius);
    let h = half_of(radius);
    assert(0 <= h < base.len());
    lemma_sum_update(base, h, base[h] + 65536 - sum_ints(base));
}

/// The kernel is symmetric around its center tap: the Gaussian depends
/// on the offset only through its square, truncation scales every tap
/// alike, and the deficit returns to the center, which is its own
/// mirror.
pub proof fn lemma_kernel_symmetric(radius: int)
    requires
        radius >= 1,
    ensures
        forall|i: int|
            0 <= i < taps_of(radius) ==> #[trigger] gaussian_kernel(radius)[i] == gaussian_kernel(
                radius,
            )[taps_of(radius) - 1 - i],
{
    lemma_div_is_ordered(0, radius, 1000);
    let h = half_of(radius);
    let n = taps_of(radius);
    assert forall|i: int| 0 <= i < n implies #[trigger] gaussian_kernel(radius)[i]
        == gaussian_kernel(radius)[n - 1 - i] by {
        let d = i - h;
        let e = (n - 1 - i) - h;
        assert(e == -d);
        assert(d * d == e * e) by (nonlinear_arith)
            requires
                e == -d,
        ;
        assert(tau(d, radius) == tau(e, radius));
        assert(raw_kernel(radius)[i] == raw_kernel(radius)[n - 1 - i]);
        assert(scaled_kernel(radius)[i] == scaled_kernel(radius)[n - 1 - i]);
        if i == h {
            assert(n - 1 - i == h);
        }
    }
}

/// A radius below one pixel keeps only the center sample: the kernel is
/// the single tap of full weight.
pub proof fn lemma_kernel_single_tap(radius: int)
    requires
        1 <= radius < 1000,
    ensures
        gaussian_kernel(radius) == seq![65536int],
{
    vstd::arithmetic::div_mod::lemma_fundamental_div_mod_converse_div(radius, 1000, 0, radius);
    assert(half_of(radius) == 0);
    assert(taps_of(radius) == 1);
    lemma_exp_center(radius);
    let raw = raw_kernel(radius);
    assert(raw.len() == 1);
    assert(raw[0] == exp_q16(tau(0, radius)));
    assert(raw[0] == 65536);
    assert(sum_ints(raw) == 65536) by {
        assert(raw.drop_last() =~= Seq::<int>::empty());
        assert(sum_ints(Seq::<int>::empty()) == 0);
        assert(raw.last() == 65536);
        assert(sum_ints(raw) == sum_ints(raw.drop_last()) + raw.last());
    }
    let base = scaled_kernel(radius);
    assert(base[0] == 65536int * 65536 / 65536) by {
        assert(raw[0] * 65536 == 65536int * 65536);
    }
    assert(base[0] == 65536);
    assert(sum_ints(base) == 65536) by {
        assert(base.drop_last() =~= Seq::<int>::empty());
        assert(sum_ints(Seq::<int>::empty()) == 0);
        assert(base.last() == 65536);
        assert(sum_ints(base) == sum_ints(base.drop_last()) + base.last());
    }
    assert(gaussian_kernel(radius) =~= seq![65536int]);
}

fn exp_weight(t: u64) -> (w: u64)
    requires
        t < 1572864,
    ensures
        w == exp_q16(t as int),
        w <= 65536,
{
    let q: u64 = t / 65536;
    let f: u64 = t % 65536;
    let mut p: u64 = 65536;
    let mut i: u64 = 0;
    while i < q
        invariant
            i <= q,
            p == pow_einv(i as nat),
            p <= 65536,
        decreases q - i,
    {
        proof {
            assert(p * 24109 <= 65536 * 24109) by (nonlinear_arith)
                requires
                    p <= 65536,
            ;
            lemma_pow_einv_bounds((i + 1) as nat);
        }
        p = p * 24109 / 65536;
        i = i + 1;
    }
    proof {
        lemma_poly_einv_bounds(f as int);
    }
    let a: u64 = f * f / 131072;
    let b: u64 = f * f * f / 25769803776;
    let y: u64 = 65536 + a - (f + b);
    proof {
        assert(y == poly_einv(f as int));
        assert(p * y <= 65536 * 65536) by (nonlinear_arith)
            requires
                0 <= p <= 65536,
                0 <= y <= 65536,
        ;
        lemma_exp_q16_bounds(t as int);
    }
    p * y / 65536
}

fn tap_weight(x_abs: u64, radius: i32) -> (w: u64)
    requires
        radius >= 1,
        x_abs <= 2147483,
    ensures
        w == exp_q16(tau(x_abs as int, radius as int)),
        w <= 65536,
{
    let r: u128 = radius as u128;
    let xa: u128 = x_abs as u128;
    proof {
        assert(xa * xa <= 2147483 * 2147483) by (nonlinear_arith)
            requires
                0 <= xa <= 2147483,
        ;
        assert(2 * r * r <= 2 * 2147483647 * 2147483647 && 2 * r * r >= 2) by (nonlinear_arith)
            requires
                1 <= r <= 2147483647,
        ;
        lemma_tau_nonneg(x_abs as int, radius as int);
        lemma_exp_q16_bounds(tau(x_abs as int, radius as int));
    }
    let num: u128 = xa * xa * 9000000 * 65536;
    let den: u128 = 2 * r * r;
    let t: u128 = num / den;
    if t >= 1572864 {
        0
    } else {
        exp_weight(t as u64)
    }
}

/// Build the normalized sampling kernel for a radius in thousandths.
pub fn build_kernel(radius: i32) -> (k: Vec<u64>)
    requires
        radius >= 1,
    ensures
        weights_of(k@) == gaussian_kernel(radius as int),
        k@.len() == taps_of(radius as int),
        sum_ints(weights_of(k@)) == 65536,
        forall|i: int| 0 <= i < k@.len() ==> k@[i] <= 65536,
{
    let ghost r_int = radius as int;
    let ghost raw_s = raw_kernel(r_int);
    proof {
        lemma_div_is_ordered(radius as int, 2147483647, 1000);
    }
    let half: usize = (radius as usize) / 1000;
    let n: usize = 2 * half + 1;

    // sample the Gaussian at integer offsets from the center
    let mut raw: Vec<u64> = Vec::new();
    let mut i: usize = 0;
    while i < n
        invariant
            radius >= 1,
            r_int == radius as int,
            raw_s == raw_kernel(r_int),
            half == half_of(r_int),
            half <= 2147483,
            n == taps_of(r_int),
            i <= n,
            raw@.len() == i,
            forall|j: int| 0 <= j < i ==> raw@[j] == raw_s[j] && raw@[j] <= 65536,
        decreases n - i,
    {
        let x_abs: u64 = if i < half {
            (half - i) as u64
        } else {
            (i - half) as u64
        };
        let w = tap_weight(x_abs, radius);
        proof {
            let d = i - half_of(r_int);
            assert((x_abs as int) * (x_abs as int) == d * d) by (nonlinear_arith)
                requires
                    x_abs as int == d || x_abs as int == -d,
            ;
            assert(tau(x_abs as int, r_int) == tau(d, r_int));
        }
        raw.push(w);
        i = i + 1;
    }

    // total mass of the raw samples; the center tap alone contributes 65536
    let mut total: u64 = 0;
    let mut i: usize = 0;
    while i < n
        invariant
            raw_s == raw_kernel(r_int),
            n == taps_of(r_int),
            n == raw@.len(),
            i <= n,
            forall|j: int| 0 <= j < n ==> raw@[j] == raw_s[j] && raw@[j] <= 65536,
            n <= 4294967,
            total == sum_ints(raw_s.take(i as int)),
            total <= 65536 * i,
        decreases n - i,
    {
        proof {
            lemma_sum_take_step(raw_s, i as int);
        }
        total = total + raw[i];
        i = i + 1;
    }
    proof {
        assert(raw_s.take(n as int) =~= raw_s);
        assert forall|j: int| 0 <= j < raw_s.len() implies raw_s[j] >= 0 by {
            lemma_tau_nonneg(j - half_of(r_int), r_int);
            lemma_exp_q16_bounds(tau(j - half_of(r_int), r_int));
        }
        lemma_sum_ge_elem(raw_s, half as int);
        lemma_exp_center(r_int);
        assert(raw_s[half as int] == 65536);
        assert(total >= 65536);
    }

    // normalize; truncation can only lose mass, never push the sum above 65536
    let ghost scaled_s = scaled_kernel(r_int);
    let mut k: Vec<u64> = Vec::new();
    let mut acc: u64 = 0;
    let mut i: usize = 0;
    while i < n
        invariant
            raw_s == raw_kernel(r_int),
            scaled_s == scaled_kernel(r_int),
            n == taps_of(r_int),
            n == raw@.len(),
            i <= n,
            forall|j: int| 0 <= j < n ==> raw@[j] == raw_s[j] && raw@[j] <= 65536,
            forall|j: int| 0 <= j < raw_s.len() ==> raw_s[j] >= 0,
            total == sum_ints(raw_s),
            total >= 65536,
            k@.len() == i,
            forall|j: int| 0 <= j < i ==> k@[j] == scaled_s[j],
            acc == sum_ints(scaled_s.take(i as int)),
            acc * total <= 65536 * sum_ints(raw_s.take(i as int)),
            acc <= 65536,
        decreases n - i,
    {
        let w = raw[i];
        proof {
            assert(0 <= (i as int) < (n as int));
            assert(raw@[i as int] == raw_s[i as int]);
            assert(raw@[i as int] <= 65536);
        }
        let nk = w * 65536 / total;
        proof {
            lemma_fundamental_div_mod((w * 65536) as int, total as int);
            assert((total as int) * (nk as int) <= (w as int) * 65536);
            assert(scaled_s[i as int] == nk);
            lemma_sum_take_step(scaled_s, i as int);
            lemma_sum_take_step(raw_s, i as int);
            assert((acc + nk) * total <= 65536 * sum_ints(raw_s.take(i + 1))) by (nonlinear_arith)
                requires
                    acc * total <= 65536 * sum_ints(raw_s.take(i as int)),
                    (total as int) * (nk as int) <= (w as int) * 65536,
                    sum_ints(raw_s.take(i + 1)) == sum_ints(raw_s.take(i as int)) + w,
            ;
            lemma_sum_take_le(raw_s, i + 1);
            assert(acc + nk <= 65536) by (nonlinear_arith)
                requires
                    (acc + nk) * total <= 65536 * sum_ints(raw_s.take(i + 1)),
                    sum_ints(raw_s.take(i + 1)) <= total,
                    total >= 1,
            ;
        }
        k.push(nk);
        acc = acc + nk;
        i = i + 1;
    }
    proof {
        assert(scaled_s.take(n as int) =~= scaled_s);
        assert(acc == sum_ints(scaled_s));
        assert forall|j: int| 0 <= j < scaled_s.len() implies scaled_s[j] >= 0 by {
            assert(scaled_s[j] == k@[j]);
        }
        lemma_sum_ge_elem(scaled_s, half as int);
    }

    // hand the truncation deficit back to the center tap
    let deficit: u64 = 65536 - acc;
    let center: u64 = k[half];
    k.set(half, center + deficit);
    proof {
        let ghost gk = gaussian_kernel(r_int);
        lemma_sum_update(scaled_s, half as int, scaled_s[half as int] + 65536 - acc);
        assert(weights_of(k@) =~= gk) by {
            assert forall|j: int| 0 <= j < n implies weights_of(k@)[j] == gk[j] by {
                assert(weights_of(k@)[j] == k@[j] as int);
            }
        }
        assert(sum_ints(gk) == 65536);
        assert forall|j: int| 0 <= j < n implies k@[j] <= 65536 by {
            if j != half {
                lemma_sum_ge_elem(scaled_s, j);
            }
        }
    }
    k
}

} // verus!
