//! Passage between double-precision numbers and integers.
use crate::double::{one_unit, quot, round_units, Double, SIGN, UNIT_EXP};
use crate::rounding::{lemma_pow2_le, lemma_round_zero, pow2_word, round_binary, BINADE};
use vstd::arithmetic::div_mod::*;
use vstd::arithmetic::mul::*;
use vstd::arithmetic::power2::*;
use vstd::prelude::*;

verus! {

/// Which whole number stands for a number that is not whole.
#[derive(Clone, Copy, Debug, PartialEq, Eq, Structural)]
pub enum Rounding {
    /// The one nearer to zero.
    Truncate,
    /// The nearest one, ties away from zero.
    Nearest,
    /// The next one up.
    Up,
    /// The next one down.
    Down,
}

/// The double nearest to the integer `v`.
pub open spec fn int_double(v: int) -> Double {
    round_units(v * one_unit())
}

/// The double nearest to `n / d`, for `n` and `d` that are doubles themselves.
pub open spec fn ratio(n: int, d: int) -> Double {
    quot(int_double(n), int_double(d))
}

/// `v` brought into the range from `lo` to `hi`.
pub open spec fn clip(v: int, lo: int, hi: int) -> int {
    if v < lo {
        lo
    } else if v > hi {
        hi
    } else {
        v
    }
}

/// The whole number that `a` is rounded to; zero for not-a-number.
pub open spec fn whole(a: Double, mode: Rounding) -> int {
    if a.nan() {
        0
    } else {
        let w = (a.mag() / one_unit()) as int;
        let part = a.mag() % one_unit();
        let up = match mode {
            Rounding::Truncate => false,
            Rounding::Nearest => 2 * part >= one_unit(),
            Rounding::Up => !a.neg() && part > 0,
            Rounding::Down => a.neg() && part > 0,
        };
        let size: int = if up {
            w + 1
        } else {
            w
        };
        if a.neg() {
            -size
        } else {
            size
        }
    }
}

/// How the fractional part compares with a half.
enum Fraction {
    Nothing,
    BelowHalf,
    HalfOrMore,
}

spec fn fraction_of(part: nat) -> Fraction {
    if part == 0 {
        Fraction::Nothing
    } else if 2 * part < one_unit() {
        Fraction::BelowHalf
    } else {
        Fraction::HalfOrMore
    }
}

/// The whole part, saturating, and what the rest amounts to.
fn parts(a: Double) -> (res: (u64, Fraction))
    requires
        !a.nan(),
    ensures
        res.0 == clip((a.mag() / one_unit()) as int, 0, u64::MAX as int),
        res.1 == fraction_of(a.mag() % one_unit()),
{
    let (m, x) = a.split();
    proof {
        lemma_pow2_pos(UNIT_EXP as nat);
        lemma2_to64();
        lemma2_to64_rest();
    }
    if x >= UNIT_EXP {
        let k: u32 = x - UNIT_EXP;
        let ghost w = m * pow2(k as nat);
        proof {
            lemma_pow2_adds(k as nat, UNIT_EXP as nat);
            assert(m * pow2(x as nat) == w * one_unit() + 0) by (nonlinear_arith)
                requires
                    pow2(x as nat) == pow2(k as nat) * one_unit(),
                    w == m * pow2(k as nat),
            ;
            lemma_fundamental_div_mod_converse(a.mag() as int, one_unit() as int, w as int, 0);
        }
        if k >= 64 {
            proof {
                lemma_pow2_le(64, k as nat);
                assert(w >= pow2(k as nat)) by (nonlinear_arith)
                    requires
                        w == m * pow2(k as nat),
                        m >= 1,
                ;
            }
            (u64::MAX, Fraction::Nothing)
        } else {
            proof {
                lemma_pow2_le(k as nat, 64);
                assert(w < 0x40_0000_0000_0000_0000_0000_0000_0000) by (nonlinear_arith)
                    requires
                        w == m * pow2(k as nat),
                        0 <= m < 2 * BINADE,
                        pow2(k as nat) <= 0x1_0000_0000_0000_0000,
                ;
            }
            let v: u128 = (m as u128) * pow2_word(k);
            if v > u64::MAX as u128 {
                (u64::MAX, Fraction::Nothing)
            } else {
                (v as u64, Fraction::Nothing)
            }
        }
    } else {
        let s: u32 = UNIT_EXP - x;
        let ghost d = pow2(s as nat);
        let ghost c = pow2(x as nat);
        proof {
            lemma_pow2_adds(s as nat, x as nat);
            lemma_pow2_pos(s as nat);
            lemma_pow2_pos(x as nat);
            lemma_fundamental_div_mod(m as int, d as int);
            let q = m as nat / d;
            let r = m as nat % d;
            assert(m * c == q * one_unit() + r * c) by (nonlinear_arith)
                requires
                    m == d * q + r,
                    one_unit() == d * c,
            ;
            assert(0 <= r * c < one_unit()) by (nonlinear_arith)
                requires
                    0 <= r < d,
                    c > 0,
                    one_unit() == d * c,
            ;
            lemma_fundamental_div_mod_converse(a.mag() as int, one_unit() as int, q as int, (r * c) as int);
            assert(r == 0 <==> r * c == 0) by (nonlinear_arith)
                requires
                    c > 0,
                    r >= 0,
            ;
            assert(2 * r < d <==> 2 * (r * c) < one_unit()) by (nonlinear_arith)
                requires
                    c > 0,
                    one_unit() == d * c,
            ;
        }
        if s >= 54 {
            proof {
                lemma_pow2_le(54, s as nat);
                lemma_basic_div(m as int, d as int);
                lemma_small_mod(m as nat, d);
            }
            if m == 0 {
                (0, Fraction::Nothing)
            } else {
                (0, Fraction::BelowHalf)
            }
        } else {
            proof {
                lemma_pow2_le(s as nat, 53);
            }
            let w: u64 = pow2_word(s) as u64;
            let q: u64 = m / w;
            let r: u64 = m % w;
            if r == 0 {
                (q, Fraction::Nothing)
            } else if 2 * r < w {
                (q, Fraction::BelowHalf)
            } else {
                (q, Fraction::HalfOrMore)
            }
        }
    }
}

impl Double {
    /// The number rounded to a whole one and brought into the range from `lo`
    /// to `hi`; zero for not-a-number.
    pub fn to_int(self, mode: Rounding, lo: i128, hi: i128) -> (res: i128)
        requires
            -0x1_0000_0000_0000_0000 < lo <= 0 <= hi < 0x1_0000_0000_0000_0000,
        ensures
            res == clip(whole(self, mode), lo as int, hi as int),
    {
        proof {
            lemma_pow2_pos(UNIT_EXP as nat);
        }
        if self.is_nan() {
            return 0;
        }
        let neg: bool = self.bits >= SIGN;
        let (w, frac) = parts(self);
        let up: bool = match mode {
            Rounding::Truncate => false,
            Rounding::Nearest => match frac {
                Fraction::HalfOrMore => true,
                _ => false,
            },
            Rounding::Up => match frac {
                Fraction::Nothing => false,
                _ => !neg,
            },
            Rounding::Down => match frac {
                Fraction::Nothing => false,
                _ => neg,
            },
        };
        let size: i128 = if up {
            w as i128 + 1
        } else {
            w as i128
        };
        let v: i128 = if neg {
            -size
        } else {
            size
        };
        if v < lo {
            lo
        } else if v > hi {
            hi
        } else {
            v
        }
    }

    /// The double nearest to `v`.
    pub fn from_u64(v: u64) -> (res: Double)
        ensures
            res == int_double(v as int),
    {
        proof {
            lemma_pow2_pos(UNIT_EXP as nat);
            assert(v * one_unit() >= 0) by (nonlinear_arith);
            lemma_round_zero(1);
        }
        if v == 0 {
            Double::pack(false, 0)
        } else {
            Double::pack(false, round_binary(v as u128, UNIT_EXP as i32))
        }
    }

    /// The double nearest to `v`.
    pub fn from_int(v: i64) -> (res: Double)
        ensures
            res == int_double(v as int),
    {
        if v >= 0 {
            Double::from_u64(v as u64)
        } else {
            let size: u128 = (-(v as i128)) as u128;
            proof {
                lemma_pow2_pos(UNIT_EXP as nat);
                assert(v * one_unit() < 0) by (nonlinear_arith)
                    requires
                        v < 0,
                        one_unit() > 0,
                ;
                assert(-(v * one_unit()) == size * one_unit()) by (nonlinear_arith)
                    requires
                        size == -v,
                ;
            }
            Double::pack(true, round_binary(size, UNIT_EXP as i32))
        }
    }

    /// The double nearest to `n / d`.
    pub fn ratio(n: i64, d: i64) -> (res: Double)
        ensures
            res == ratio(n as int, d as int),
    {
        Double::from_int(n).over(Double::from_int(d))
    }

    /// Zero.
    pub fn zero() -> (res: Double)
        ensures
            res == int_double(0),
    {
        Double::from_u64(0)
    }

    /// One.
    pub fn one() -> (res: Double)
        ensures
            res == int_double(1),
    {
        Double::from_u64(1)
    }
}

} // verus!
