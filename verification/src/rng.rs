//! A small deterministic generator of pseudo-random numbers (SplitMix64).
//!
//! A saved background's seed has to reproduce the same picture forever, so the
//! algorithm is pinned down here, bit for bit.
use crate::arith_laws::{
    lemma_int_double_exact, lemma_round_bounded, lemma_round_exact, lemma_round_is_near, lemma_round_monotone,
    lemma_round_units_exact, lemma_round_units_monotone, lemma_short_is_double, lemma_sum_grows, lemma_sum_val,
};
use crate::double::{diff, lemma_mag_ordered, one_unit, opposite, prod, quot, round_units, signed, sum, Double, UNIT_EXP};
use crate::order::{le, lt};
use crate::rounding::{excess, lemma_round_scale, mag_of, round_low, BINADE, INF_LOW};
use crate::whole::{clip, int_double, whole, Rounding};
use vstd::arithmetic::div_mod::*;
use vstd::arithmetic::mul::*;
use vstd::arithmetic::power2::*;
use vstd::bits::*;
use vstd::prelude::*;

verus! {

/// The generator's state after one step.
pub open spec fn stepped(state: u64) -> u64 {
    state.wrapping_add(0x9E37_79B9_7F4A_7C15)
}

/// The output that a state stands for.
pub open spec fn mixed(state: u64) -> u64 {
    let z1 = (state ^ (state >> 30)).wrapping_mul(0xBF58_476D_1CE4_E5B9);
    let z2 = (z1 ^ (z1 >> 27)).wrapping_mul(0x94D0_49BB_1331_11EB);
    z2 ^ (z2 >> 31)
}

/// The next output of a generator in this state.
pub open spec fn output(state: u64) -> u64 {
    mixed(stepped(state))
}

/// The number from zero to one that an output stands for: its upper 53 bits,
/// behind the binary point.
pub open spec fn fraction(out: u64) -> Double {
    prod(int_double((out >> 11) as int), quot(int_double(1), int_double(0x20_0000_0000_0000)))
}

/// The number that an output stands for in a range.
pub open spec fn in_range(out: u64, lo: Double, hi: Double) -> Double {
    sum(lo, prod(fraction(out), diff(hi, lo)))
}

/// The index below `len` that an output stands for.
pub open spec fn picked(out: u64, len: usize) -> usize {
    let scaled = clip(
        whole(prod(fraction(out), int_double(len as int)), Rounding::Truncate),
        0,
        usize::MAX as int,
    );
    if scaled < len - 1 {
        scaled as usize
    } else {
        (len - 1) as usize
    }
}

/// The seed of the sub-generator for `tag`.
pub open spec fn fork_seed(out: u64, tag: u64) -> u64 {
    out ^ tag.wrapping_mul(0xD1B5_4A32_D192_ED03)
}

/// A pseudo-random generator. Its view is its state.
#[derive(Debug)]
pub struct Rng {
    state: u64,
}

impl View for Rng {
    type V = u64;

    closed spec fn view(&self) -> u64 {
        self.state
    }
}

impl Clone for Rng {
    fn clone(&self) -> (res: Rng)
        ensures
            res@ == self@,
    {
        Rng { state: self.state }
    }
}

impl Rng {
    pub fn new(seed: u64) -> (res: Rng)
        ensures
            res@ == seed,
    {
        Rng { state: seed }
    }

    /// The next raw output.
    pub fn next_u64(&mut self) -> (res: u64)
        ensures
            final(self)@ == stepped(old(self)@),
            res == output(old(self)@),
    {
        self.state = self.state.wrapping_add(0x9E37_79B9_7F4A_7C15);
        let s: u64 = self.state;
        let z1: u64 = (s ^ (s >> 30)).wrapping_mul(0xBF58_476D_1CE4_E5B9);
        let z2: u64 = (z1 ^ (z1 >> 27)).wrapping_mul(0x94D0_49BB_1331_11EB);
        z2 ^ (z2 >> 31)
    }

    /// A number from zero up to, but not including, one.
    pub fn next_f64(&mut self) -> (res: Double)
        ensures
            final(self)@ == stepped(old(self)@),
            res == fraction(output(old(self)@)),
    {
        let out: u64 = self.next_u64();
        let step = Double::one().over(Double::from_u64(0x20_0000_0000_0000));
        Double::from_u64(out >> 11).times(step)
    }

    /// A number between `lo` and `hi`.
    pub fn range(&mut self, lo: Double, hi: Double) -> (res: Double)
        ensures
            final(self)@ == stepped(old(self)@),
            res == in_range(output(old(self)@), lo, hi),
    {
        let f = self.next_f64();
        lo.plus(f.times(hi.minus(lo)))
    }

    /// An index below `len`, or zero if there is none; then nothing is drawn.
    pub fn index(&mut self, len: usize) -> (res: usize)
        ensures
            len == 0 ==> res == 0 && final(self)@ == old(self)@,
            len > 0 ==> res == picked(output(old(self)@), len) && res < len && final(self)@ == stepped(
                old(self)@,
            ),
    {
        if len == 0 {
            0
        } else {
            let f = self.next_f64();
            let scaled: usize = f.times(Double::from_u64(len as u64)).to_int(
                Rounding::Truncate,
                0,
                usize::MAX as i128,
            ) as usize;
            if scaled < len - 1 {
                scaled
            } else {
                len - 1
            }
        }
    }

    /// `true` with probability `p`.
    pub fn chance(&mut self, p: Double) -> (res: bool)
        ensures
            final(self)@ == stepped(old(self)@),
            res == lt(fraction(output(old(self)@)), p),
    {
        self.next_f64().less(p)
    }

    /// A generator of its own for `tag`, seeded from this one.
    pub fn fork(&mut self, tag: u64) -> (res: Rng)
        ensures
            final(self)@ == stepped(old(self)@),
            res@ == fork_seed(output(old(self)@), tag),
    {
        let out: u64 = self.next_u64();
        Rng::new(out ^ tag.wrapping_mul(0xD1B5_4A32_D192_ED03))
    }
}

/// Multiplying by a number that has an inverse keeps different words different.
proof fn lemma_odd_product_differs(a: u64, b: u64, c: u64, inverse: u64, carry: u64)
    requires
        a != b,
        c * inverse == 0x1_0000_0000_0000_0000 * carry + 1,
    ensures
        a.wrapping_mul(c) != b.wrapping_mul(c),
{
    let m: int = 0x1_0000_0000_0000_0000;
    if a.wrapping_mul(c) == b.wrapping_mul(c) {
        assert((a * c) % m == (b * c) % m);
        lemma_fundamental_div_mod(a * c, m);
        lemma_fundamental_div_mod(b * c, m);
        let d = a - b;
        let q = (a * c) / m - (b * c) / m;
        assert(d * c == m * q) by (nonlinear_arith)
            requires
                a * c == m * ((a * c) / m) + (a * c) % m,
                b * c == m * ((b * c) / m) + (b * c) % m,
                (a * c) % m == (b * c) % m,
                q == (a * c) / m - (b * c) / m,
                d == a - b,
        ;
        assert(d == m * (q * inverse - d * carry)) by (nonlinear_arith)
            requires
                d * c == m * q,
                c * inverse == m * carry + 1,
        ;
        assert(false) by (nonlinear_arith)
            requires
                d == m * (q * inverse - d * carry),
                -m < d < m,
                d != 0,
                m > 0,
        ;
    }
}

/// Different states stand for different outputs, so generators with different
/// seeds differ at every step.
pub proof fn law_different_states_give_different_outputs(a: u64, b: u64)
    requires
        a != b,
    ensures
        output(a) != output(b),
        stepped(a) != stepped(b),
{
    let (s, t) = (stepped(a), stepped(b));
    assert(s != t);
    let (s1, t1) = (s ^ (s >> 30), t ^ (t >> 30));
    assert(s1 != t1) by (bit_vector)
        requires
            s != t,
            s1 == s ^ (s >> 30),
            t1 == t ^ (t >> 30),
    ;
    assert(0xbf58476d1ce4e5b9 * 0x96de1b173f119089 == 0x1_0000_0000_0000_0000 * 0x70c3bca78f27f46c + 1) by (nonlinear_arith);
    lemma_odd_product_differs(s1, t1, 0xbf58476d1ce4e5b9, 0x96de1b173f119089, 0x70c3bca78f27f46c);
    let (u, v) = (s1.wrapping_mul(0xbf58476d1ce4e5b9), t1.wrapping_mul(0xbf58476d1ce4e5b9));
    let (u1, v1) = (u ^ (u >> 27), v ^ (v >> 27));
    assert(u1 != v1) by (bit_vector)
        requires
            u != v,
            u1 == u ^ (u >> 27),
            v1 == v ^ (v >> 27),
    ;
    assert(0x94d049bb133111eb * 0x319642b2d24d8ec3 == 0x1_0000_0000_0000_0000 * 0x1cd336eda85f1453 + 1) by (nonlinear_arith);
    lemma_odd_product_differs(u1, v1, 0x94d049bb133111eb, 0x319642b2d24d8ec3, 0x1cd336eda85f1453);
    let (w, x) = (u1.wrapping_mul(0x94d049bb133111eb), v1.wrapping_mul(0x94d049bb133111eb));
    assert(w ^ (w >> 31) != x ^ (x >> 31)) by (bit_vector)
        requires
            w != x,
    ;
}

/// Forks of one generator under different tags start from different seeds.
pub proof fn law_different_tags_give_different_forks(out: u64, a: u64, b: u64)
    requires
        a != b,
    ensures
        fork_seed(out, a) != fork_seed(out, b),
{
    assert(0xd1b54a32d192ed03 * 0x6106ccfa448e5ab == 0x1_0000_0000_0000_0000 * 0x4f7b434678ed4e7 + 1) by (nonlinear_arith);
    lemma_odd_product_differs(a, b, 0xd1b54a32d192ed03, 0x6106ccfa448e5ab, 0x4f7b434678ed4e7);
    let (x, y) = (a.wrapping_mul(0xd1b54a32d192ed03), b.wrapping_mul(0xd1b54a32d192ed03));
    assert(out ^ x != out ^ y) by (bit_vector)
        requires
            x != y,
    ;
}

/// What the number from zero to one is worth.
pub proof fn lemma_fraction_val(out: u64)
    ensures
        fraction(out).finite(),
        !fraction(out).neg(),
        fraction(out).val() == (out >> 11) * pow2(1021),
        fraction(out).val() < one_unit(),
{
    let k = out >> 11;
    assert(k < 0x20_0000_0000_0000) by (bit_vector)
        requires
            k == out >> 11,
    ;
    lemma_int_double_exact(k as int);
    lemma_int_double_exact(1);
    lemma_int_double_exact(0x20_0000_0000_0000);
    lemma2_to64_rest();
    lemma_pow2_adds(53, 1021);
    lemma_pow2_pos(1021);
    lemma_pow2_pos(UNIT_EXP as nat);
    let u = one_unit();
    let w = pow2(1021);
    let step = quot(int_double(1), int_double(0x20_0000_0000_0000));
    assert(u == 0x20_0000_0000_0000 * w);
    let b = (0x20_0000_0000_0000 * u) as nat;
    assert(int_double(1).mag() == u);
    assert(int_double(0x20_0000_0000_0000).mag() == b);
    assert(u * u == w * b && b > 0) by (nonlinear_arith)
        requires
            u == 0x20_0000_0000_0000 * w,
            b == 0x20_0000_0000_0000 * u,
            u > 0,
    ;
    lemma_round_scale(w, 1, b);
    // `w` units are a power of two, so they are a double.
    lemma_power_is_double(1021);
    let wl = round_low(w, 1);
    assert(step == signed(false, wl)) by {
        reveal(quot);
        lemma_mag_ordered(0, int_double(1).low());
        lemma_mag_ordered(0, int_double(0x20_0000_0000_0000).low());
    }
    assert(step.mag() == w && step.finite() && !step.neg());
    // The product is exact too.
    assert(int_double(k as int).mag() == k * u);
    let kw = (k * w) as nat;
    assert((k * u) * w == kw * u) by (nonlinear_arith)
        requires
            kw == k * w,
    ;
    lemma_round_scale(kw, 1, u);
    lemma_short_is_double(k as nat, 1021);
    assert(fraction(out) == signed(false, round_low(kw, 1))) by {
        reveal(prod);
    }
    assert(kw < u) by (nonlinear_arith)
        requires
            kw == k * w,
            k < 0x20_0000_0000_0000,
            u == 0x20_0000_0000_0000 * w,
            w > 0,
    ;
}

proof fn lemma_power_is_double(x: nat)
    requires
        52 <= x <= 2000,
    ensures
        round_low(pow2(x), 1) < INF_LOW,
        mag_of(round_low(pow2(x), 1)) == pow2(x),
{
    lemma_pow2_adds(52, (x - 52) as nat);
    lemma2_to64_rest();
    let y = (x - 52) as nat;
    let low = ((y + 1) * BINADE) as nat;
    assert(low == (y + 1) * BINADE + 0);
    lemma_fundamental_div_mod_converse(low as int, BINADE as int, (y + 1) as int, 0);
    assert(mag_of(low) == pow2(x));
    lemma_round_exact(low);
}

/// A number drawn from zero to one is at least zero and less than one.
pub proof fn law_fraction_in_unit_range(out: u64)
    ensures
        le(int_double(0), fraction(out)),
        lt(fraction(out), int_double(1)),
{
    lemma_fraction_val(out);
    lemma_int_double_exact(0);
    lemma_int_double_exact(1);
    assert(0 * one_unit() == 0);
}

/// A part of a rounded-up width is at most the width before it was rounded.
proof fn lemma_part_of_rounded_width(k: nat, v: nat)
    requires
        k < 0x20_0000_0000_0000,
        round_low(v, 1) < INF_LOW,
        mag_of(round_low(v, 1)) > v,
    ensures
        mag_of(round_low(k * mag_of(round_low(v, 1)), 0x20_0000_0000_0000)) <= v,
{
    let d = 0x20_0000_0000_0000nat;
    let low = round_low(v, 1);
    let w = mag_of(low);
    let n = k * w;
    let part = round_low(n, d);
    lemma2_to64();
    // The width was rounded, so it is long.
    lemma_round_is_near(v, 1);
    lemma_pow2_pos(excess(v / 1));
    assert(v / 1 == v);
    assert(w > d);
    assert(n <= (d - 1) * w) by (nonlinear_arith)
        requires
            n == k * w,
            k <= d - 1,
    ;
    if part >= low {
        let place = d * pow2(excess(n / d));
        lemma_round_is_near(n, d);
        lemma_mag_ordered(part, low);
        assert(w * d <= mag_of(part) * d) by (nonlinear_arith)
            requires
                w <= mag_of(part),
        ;
        assert(place >= 2 * w) by (nonlinear_arith)
            requires
                2 * (w * d) <= 2 * n + place,
                n <= (d - 1) * w,
        ;
        if excess(n / d) == 0 {
            assert(place == d);
        }
        assert(false);
    }
    lemma_mag_ordered(part, (low - 1) as nat);
    if v < mag_of((low - 1) as nat) {
        lemma_round_monotone(v, 1, mag_of((low - 1) as nat), 1);
        lemma_round_exact((low - 1) as nat);
    }
}

/// What a fraction of a width is worth: no more than the width.
proof fn lemma_part_of_width(out: u64, w: Double)
    requires
        w.finite(),
        w.val() >= 0,
    ensures
        ({
            let p = prod(fraction(out), w);
            &&& p.finite()
            &&& p.val() == mag_of(round_low((out >> 11) as nat * w.mag(), 0x20_0000_0000_0000))
            &&& p.val() <= w.val()
        }),
{
    let f = fraction(out);
    let (k, s, u) = ((out >> 11) as nat, pow2(1021), one_unit());
    let n = f.mag() * w.mag();
    let low = round_low(n, u);
    lemma_fraction_val(out);
    lemma_pow2_pos(UNIT_EXP as nat);
    lemma_pow2_pos(1021);
    lemma_pow2_adds(53, 1021);
    lemma2_to64_rest();
    assert(n * 1 <= w.mag() * u) by (nonlinear_arith)
        requires
            n == f.mag() * w.mag(),
            f.mag() <= u,
    ;
    lemma_round_monotone(n, u, w.mag(), 1);
    lemma_round_exact(w.low());
    lemma_mag_ordered(low, w.low());
    assert(n == (k * w.mag()) * s) by (nonlinear_arith)
        requires
            n == f.mag() * w.mag(),
            f.mag() == k * s,
    ;
    lemma_round_scale(k * w.mag(), 0x20_0000_0000_0000, s);
    assert(prod(f, w) == signed(w.neg(), low)) by {
        reveal(prod);
    }
    lemma_mag_ordered(0, w.low());
}

/// A number drawn from a range is neither below the range nor above it.
pub proof fn law_range_respects_bounds(out: u64, lo: Double, hi: Double)
    requires
        lo.finite(),
        hi.finite(),
        le(lo, hi),
        diff(hi, lo).finite(),
    ensures
        le(lo, in_range(out, lo, hi)),
        le(in_range(out, lo, hi), hi),
{
    let w = diff(hi, lo);
    let p = prod(fraction(out), w);
    let v = hi.val() - lo.val();
    let low = round_low(v as nat, 1);
    lemma_sum_val(hi, opposite(lo));
    lemma_round_bounded(v as nat, 1);
    assert(w.val() == round_units(v).val() == mag_of(low));
    lemma_mag_ordered(low, w.low());
    lemma_part_of_width(out, w);
    if w.val() > v {
        assert(out >> 11 < 0x20_0000_0000_0000) by (bit_vector);
        lemma_part_of_rounded_width((out >> 11) as nat, v as nat);
    }
    assert(0 <= p.val() <= v);
    lemma_sum_grows(lo, p);
    lemma_sum_val(lo, p);
    lemma_round_units_monotone(lo.val() + p.val(), hi.val());
    lemma_round_units_exact(hi);
}

} // verus!
