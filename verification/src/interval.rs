use vstd::prelude::*;

verus! {

/// Number of fixed-point subdivisions in one octave: 2^4 * 3^2 * 5 * 7 * 11 * 13.
/// Highly composite, so the usual equal-temperament octave fractions
/// (twelfths, twenty-fourths, sevenths, ...) are represented exactly.
pub const SUBDIVISIONS_PER_OCTAVE: i64 = 720720;

/// A logarithmic pitch offset. The value stands for
/// `subdivisions / SUBDIVISIONS_PER_OCTAVE` octaves, that is, the log2 of a
/// frequency ratio. Immutable value type; combining two intervals adds them
/// in log space.
#[derive(Clone, Copy, Debug, PartialEq, Eq, Structural)]
pub struct Interval {
    pub subdivisions: i64,
}

impl Interval {
    /// The zero offset: a frequency ratio of one.
    pub fn zero() -> (r: Interval)
        ensures
            r.subdivisions == 0,
    {
        Interval { subdivisions: 0 }
    }

    /// Exact construction from the octave fraction `num / den`.
    /// Returns `None` when the fraction has no exact fixed-point
    /// representation, or the scaled value does not fit.
    pub fn from_octave_fraction(num: i64, den: i64) -> (r: Option<Interval>)
        requires
            den > 0,
        ensures
            r is Some <==> (num * SUBDIVISIONS_PER_OCTAVE) % (den as int) == 0
                && i64::MIN <= (num * SUBDIVISIONS_PER_OCTAVE) / (den as int) <= i64::MAX,
            r is Some ==> r->0.subdivisions * den == num * SUBDIVISIONS_PER_OCTAVE,
    {
        let neg: bool = num < 0;
        let mag: u128 = if neg {
            (-(num as i128)) as u128
        } else {
            num as u128
        };
        assert(mag <= 0x8000_0000_0000_0000);
        let scaled: u128 = mag * (SUBDIVISIONS_PER_OCTAVE as u128);
        let d: u128 = den as u128;
        let q: u128 = scaled / d;
        let rem: u128 = scaled % d;
        proof {
            let v = num as int * (SUBDIVISIONS_PER_OCTAVE as int);
            let si = scaled as int;
            let di = d as int;
            vstd::arithmetic::div_mod::lemma_fundamental_div_mod(si, di);
            lemma_neg_div_mod(si, di);
            if neg {
                assert(v == -si) by (nonlinear_arith)
                    requires
                        mag as int == -(num as int),
                        si == mag as int * (SUBDIVISIONS_PER_OCTAVE as int),
                        v == num as int * (SUBDIVISIONS_PER_OCTAVE as int);
            }
            if rem == 0 {
                assert(si == di * (q as int));
                assert((q as int) * (den as int) == si) by (nonlinear_arith)
                    requires
                        si == di * (q as int),
                        di == den as int;
                assert((-(q as int)) * (den as int) == -si) by (nonlinear_arith)
                    requires
                        (q as int) * (den as int) == si;
            }
        }
        if neg {
            if rem != 0 {
                None
            } else if q > 0x8000_0000_0000_0000u128 {
                None
            } else {
                Some(Interval { subdivisions: (-(q as i128)) as i64 })
            }
        } else {
            if rem != 0 {
                None
            } else if q > i64::MAX as u128 {
                None
            } else {
                Some(Interval { subdivisions: q as i64 })
            }
        }
    }

    /// Combine with another interval by addition in log space.
    pub fn combine(self, other: Interval) -> (r: Interval)
        requires
            i64::MIN <= self.subdivisions + other.subdivisions <= i64::MAX,
        ensures
            r.subdivisions == self.subdivisions + other.subdivisions,
    {
        Interval { subdivisions: self.subdivisions + other.subdivisions }
    }
}

/// Division and remainder of `-s` by `d`, written out from those of `s`.
proof fn lemma_neg_div_mod(s: int, d: int)
    requires
        s >= 0,
        d > 0,
    ensures
        s % d == 0 ==> (-s) % d == 0 && (-s) / d == -(s / d),
        s % d != 0 ==> (-s) % d == d - (s % d),
{
    vstd::arithmetic::div_mod::lemma_fundamental_div_mod(s, d);
    let q = s / d;
    let r = s % d;
    assert(s == d * q + r);
    if r == 0 {
        assert(-s == (-q) * d + 0) by (nonlinear_arith)
            requires
                s == d * q;
        vstd::arithmetic::div_mod::lemma_fundamental_div_mod_converse(-s, d, -q, 0);
    } else {
        assert(-s == (-q - 1) * d + (d - r)) by (nonlinear_arith)
            requires
                s == d * q + r;
        vstd::arithmetic::div_mod::lemma_fundamental_div_mod_converse(-s, d, -q - 1, d - r);
    }
}

} // verus!
