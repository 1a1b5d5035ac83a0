use vstd::prelude::*;
use std::cmp::Ordering;
use crate::error::Error;
use crate::numeral::{chars_of, numeral_value, unsigned_literal};
use crate::rational::{
    cmp_fits, decimal_result, decimal_spec, fits_i64, rat_cmp, rat_le, reduced_den, reduced_num,
    trim_of, Rational,
};

verus! {

/// Closed range `[min, max]`; the constructors only build one with `min <= max`.
#[derive(Clone, Copy, Debug, PartialEq, Eq)]
pub struct Interval<T> {
    pub min: T,
    pub max: T,
}

/// `[a.min, a.max]` is a valid range of rationals.
pub open spec fn rat_interval_wf(a: Interval<Rational>) -> bool {
    cmp_fits(a.min, a.max) && rat_le(a.min, a.max)
}

/// The greater of the two lower bounds (the second one on a tie).
pub open spec fn lower_of(a: Interval<Rational>, b: Interval<Rational>) -> Rational {
    if rat_le(b.min, a.min) && !rat_le(a.min, b.min) {
        a.min
    } else {
        b.min
    }
}

/// The smaller of the two upper bounds (the first one on a tie).
pub open spec fn upper_of(a: Interval<Rational>, b: Interval<Rational>) -> Rational {
    if rat_le(a.max, b.max) {
        a.max
    } else {
        b.max
    }
}

/// Every cross-product needed to intersect `a` and `b` fits in `i64`.
pub open spec fn comparable(a: Interval<Rational>, b: Interval<Rational>) -> bool {
    cmp_fits(a.min, b.min) && cmp_fits(a.max, b.max) && cmp_fits(a.min, b.max) && cmp_fits(
        b.min,
        a.max,
    ) && cmp_fits(a.min, a.max) && cmp_fits(b.min, b.max)
}

/// Two closed ranges overlap: `max(mins) <= min(maxes)`.
pub open spec fn overlaps(a: Interval<Rational>, b: Interval<Rational>) -> bool {
    rat_le(lower_of(a, b), upper_of(a, b))
}

/// Lexicographic order of `(min, max)` by value.
pub open spec fn interval_cmp(a: Interval<Rational>, b: Interval<Rational>) -> Ordering {
    if rat_cmp(a.min, b.min) != Ordering::Equal {
        rat_cmp(a.min, b.min)
    } else {
        rat_cmp(a.max, b.max)
    }
}

/// The comparisons that `interval_cmp` needs all fit in `i64`.
pub open spec fn interval_cmp_fits(a: Interval<Rational>, b: Interval<Rational>) -> bool {
    cmp_fits(a.min, b.min) && (rat_cmp(a.min, b.min) == Ordering::Equal ==> cmp_fits(
        a.max,
        b.max,
    ))
}

/// Reduced numerator of the decimal literal `t`, when it parses.
pub open spec fn dec_num(t: Seq<char>) -> int {
    reduced_num((decimal_spec(t)->Ok_0).0, (decimal_spec(t)->Ok_0).1)
}

/// Reduced denominator of the decimal literal `t`, when it parses.
pub open spec fn dec_den(t: Seq<char>) -> int {
    reduced_den((decimal_spec(t)->Ok_0).0, (decimal_spec(t)->Ok_0).1)
}

/// Interval check on the values that two decimal literals denote.
pub open spec fn dec_range_result(r: Result<Interval<Rational>, Error>, lo: Seq<char>, hi: Seq<char>) -> bool {
    let fits = fits_i64(dec_num(lo) * dec_den(hi)) && fits_i64(dec_num(hi) * dec_den(lo));
    let le = dec_num(lo) * dec_den(hi) <= dec_num(hi) * dec_den(lo);
    match r {
        Ok(iv) => decimal_result(Ok(iv.min), lo) && decimal_result(Ok(iv.max), hi) && fits && le,
        Err(e) => (decimal_spec(lo) is Err && decimal_result(Err(e), lo)) || (decimal_spec(lo) is Ok
            && decimal_spec(hi) is Err && decimal_result(Err(e), hi)) || (decimal_spec(lo) is Ok
            && decimal_spec(hi) is Ok && ((e == Error::Overflow && !fits) || (e
            == Error::RangeInverted && fits && !le))),
    }
}

impl Interval<Rational> {
    /// Builds `[min, max]`; fails when `min > max`, or when the comparison
    /// overflows.
    pub fn new(min: Rational, max: Rational) -> (r: Result<Self, Error>)
        ensures
            match r {
                Ok(iv) => rat_interval_wf(iv) && iv.min == min && iv.max == max,
                Err(e) => (e == Error::Overflow && !cmp_fits(min, max)) || (e
                    == Error::RangeInverted && cmp_fits(min, max) && !rat_le(min, max)),
            },
    {
        match min.try_cmp(&max) {
            Err(e) => Err(e),
            Ok(Ordering::Greater) => Err(Error::RangeInverted),
            Ok(_) => Ok(Interval { min, max }),
        }
    }

    /// Builds a range from two decimal literals.
    pub fn from_strs(min_s: &str, max_s: &str) -> (r: Result<Self, Error>)
        ensures
            dec_range_result(r, trim_of(min_s@), trim_of(max_s@)),
    {
        let min = Rational::from_decimal_str(min_s)?;
        let max = Rational::from_decimal_str(max_s)?;
        Interval::<Rational>::new(min, max)
    }

    /// Lexicographic comparison on `(min, max)`.
    pub fn try_cmp(&self, other: &Self) -> (r: Result<Ordering, Error>)
        ensures
            match r {
                Ok(o) => interval_cmp_fits(*self, *other) && o == interval_cmp(*self, *other),
                Err(e) => e == Error::Overflow && !interval_cmp_fits(*self, *other),
            },
    {
        let c = self.min.try_cmp(&other.min)?;
        match c {
            Ordering::Equal => self.max.try_cmp(&other.max),
            _ => Ok(c),
        }
    }

    /// The common part of two ranges, if they overlap.
    pub fn intersect(&self, other: &Self) -> (r: Option<Self>)
        requires
            comparable(*self, *other),
        ensures
            r is Some <==> overlaps(*self, *other),
            r matches Some(iv) ==> iv.min == lower_of(*self, *other) && iv.max == upper_of(
                *self,
                *other,
            ),
    {
        let lower = match self.min.try_cmp(&other.min) {
            Ok(Ordering::Greater) => self.min,
            _ => other.min,
        };
        let upper = match self.max.try_cmp(&other.max) {
            Ok(Ordering::Greater) => other.max,
            _ => self.max,
        };
        match lower.try_cmp(&upper) {
            Ok(Ordering::Greater) => None,
            _ => Some(Interval { min: lower, max: upper }),
        }
    }
}

/// Value of an unsigned literal, when it is one and fits in `u128`.
fn parse_u128(s: &str) -> (r: Option<u128>)
    ensures
        r is Some <==> (unsigned_literal(s@) is Some && unsigned_literal(s@)->0 <= u128::MAX),
        r is Some ==> r->0 == unsigned_literal(s@)->0,
{
    let cs = chars_of(s);
    let n = cs.len();
    assert(cs@.subrange(0, n as int) =~= s@);
    if n > 0 && cs[0] == '+' {
        assert(cs@.subrange(1, n as int) =~= s@.skip(1));
        numeral_value(&cs, 1, n)
    } else {
        numeral_value(&cs, 0, n)
    }
}

impl Interval<u128> {
    /// Builds `[min, max]`; fails when `min > max`.
    pub fn new(min: u128, max: u128) -> (r: Result<Self, Error>)
        ensures
            match r {
                Ok(iv) => min <= max && iv.min == min && iv.max == max,
                Err(e) => e == Error::RangeInverted && min > max,
            },
    {
        if min <= max {
            Ok(Interval { min, max })
        } else {
            Err(Error::RangeInverted)
        }
    }

    /// Same as `new`.
    pub fn from_ints(min: u128, max: u128) -> (r: Result<Self, Error>)
        ensures
            match r {
                Ok(iv) => min <= max && iv.min == min && iv.max == max,
                Err(e) => e == Error::RangeInverted && min > max,
            },
    {
        Interval::<u128>::new(min, max)
    }

    /// Builds a range from two unsigned integer literals.
    pub fn from_strs(min_s: &str, max_s: &str) -> (r: Result<Self, Error>)
        ensures
            match r {
                Ok(iv) => unsigned_literal(min_s@) == Some(iv.min as int) && unsigned_literal(
                    max_s@,
                ) == Some(iv.max as int) && iv.min <= iv.max,
                Err(e) => (e == Error::InvalidMinInteger && !(unsigned_literal(min_s@) is Some
                    && unsigned_literal(min_s@)->0 <= u128::MAX)) || (e == Error::InvalidMaxInteger
                    && unsigned_literal(min_s@) is Some && unsigned_literal(min_s@)->0
                    <= u128::MAX && !(unsigned_literal(max_s@) is Some && unsigned_literal(
                    max_s@,
                )->0 <= u128::MAX)) || (e == Error::RangeInverted && unsigned_literal(min_s@)
                    is Some && unsigned_literal(max_s@) is Some && unsigned_literal(min_s@)->0
                    > unsigned_literal(max_s@)->0 && unsigned_literal(min_s@)->0 <= u128::MAX),
            },
    {
        let min = match parse_u128(min_s) {
            Some(v) => v,
            None => {
                return Err(Error::InvalidMinInteger);
            },
        };
        let max = match parse_u128(max_s) {
            Some(v) => v,
            None => {
                return Err(Error::InvalidMaxInteger);
            },
        };
        Interval::<u128>::new(min, max)
    }
}

} // verus!
