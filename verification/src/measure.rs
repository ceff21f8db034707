//! The order of binary floating point numbers, over their bits.
use vstd::prelude::*;

use std::cmp::Ordering;

verus! {

/// A floating point number as an integer that keeps its order, or no number.
#[derive(Debug, Clone, Copy, PartialEq, Eq, Structural)]
pub enum Measure {
    Number(i64),
    NotANumber,
}

impl Measure {
    /// Whether both are numbers and the first is the smaller one.
    pub open spec fn less(self, other: Measure) -> bool {
        match (self, other) {
            (Measure::Number(a), Measure::Number(b)) => a < b,
            _ => false,
        }
    }

    /// The measure of the single precision number with these bits: the sign and the
    /// magnitude. Both zeros are the same, and a number with all bits of the
    /// exponent set is infinite where its fraction is zero, and no number else.
    pub open spec fn of_single(bits: u32) -> Measure {
        let magnitude = bits as int % 0x8000_0000;
        if magnitude > 0x7f80_0000 {
            Measure::NotANumber
        } else if bits as int >= 0x8000_0000 {
            Measure::Number(-magnitude as i64)
        } else {
            Measure::Number(magnitude as i64)
        }
    }

    /// The measure of the double precision number with these bits.
    pub open spec fn of_double(bits: u64) -> Measure {
        let magnitude = bits as int % 0x8000_0000_0000_0000;
        if magnitude > 0x7ff0_0000_0000_0000 {
            Measure::NotANumber
        } else if bits as int >= 0x8000_0000_0000_0000 {
            Measure::Number(-magnitude as i64)
        } else {
            Measure::Number(magnitude as i64)
        }
    }

    /// The measure of the single precision number with these bits.
    pub fn from_single_bits(bits: u32) -> (r: Measure)
        ensures
            r == Measure::of_single(bits),
    {
        let magnitude: i64 = (bits % 0x8000_0000) as i64;
        if magnitude > 0x7f80_0000 {
            Measure::NotANumber
        } else if bits >= 0x8000_0000 {
            Measure::Number(-magnitude)
        } else {
            Measure::Number(magnitude)
        }
    }

    /// The measure of the double precision number with these bits.
    pub fn from_double_bits(bits: u64) -> (r: Measure)
        ensures
            r == Measure::of_double(bits),
    {
        let magnitude: i64 = (bits % 0x8000_0000_0000_0000) as i64;
        if magnitude > 0x7ff0_0000_0000_0000 {
            Measure::NotANumber
        } else if bits >= 0x8000_0000_0000_0000 {
            Measure::Number(-magnitude)
        } else {
            Measure::Number(magnitude)
        }
    }
}

/// Whether both are there and the first is the smaller one.
pub open spec fn optional_less(left: Option<Measure>, right: Option<Measure>) -> bool {
    match (left, right) {
        (Some(left), Some(right)) => left.less(right),
        _ => false,
    }
}

/// Orders two optional measures. Where one is missing or no number, neither comes
/// first.
pub fn compare_optional_partial(left: Option<Measure>, right: Option<Measure>) -> (r: Ordering)
    ensures
        r is Less <==> optional_less(left, right),
        r is Greater <==> optional_less(right, left),
{
    match (left, right) {
        (Some(Measure::Number(left)), Some(Measure::Number(right))) => if left < right {
            Ordering::Less
        } else if right < left {
            Ordering::Greater
        } else {
            Ordering::Equal
        },
        _ => Ordering::Equal,
    }
}

/// Single precision numbers are ordered as numbers are: those without a sign by their bits,
/// those with a sign the other way round and before the others. Both zeros are one number,
/// and what is no number is neither smaller nor greater than anything.
pub proof fn law_single_numbers_are_ordered(a: u32, b: u32)
    requires
        a < 0x8000_0000,
        b < 0x8000_0000,
    ensures
        a <= 0x7f80_0000 && b <= 0x7f80_0000 ==> {
            let (minus_a, minus_b) = ((a + 0x8000_0000) as u32, (b + 0x8000_0000) as u32);
            &&& Measure::of_single(a).less(Measure::of_single(b)) <==> a < b
            &&& Measure::of_single(minus_a).less(Measure::of_single(minus_b)) <==> b < a
            &&& Measure::of_single(minus_a).less(Measure::of_single(b)) <==> a > 0 || b > 0
            &&& !Measure::of_single(a).less(Measure::of_single(minus_b))
        },
        a > 0x7f80_0000 ==> {
            let minus_a = (a + 0x8000_0000) as u32;
            let minus_b = (b + 0x8000_0000) as u32;
            forall|x: u32, y: u32|
                (x == a || x == minus_a) && (y == b || y == minus_b) ==> !(
                #[trigger] Measure::of_single(x)).less(#[trigger] Measure::of_single(y))
                    && !Measure::of_single(y).less(Measure::of_single(x))
        },
{
}

/// Double precision numbers are ordered in the same way.
pub proof fn law_double_numbers_are_ordered(a: u64, b: u64)
    requires
        a < 0x8000_0000_0000_0000,
        b < 0x8000_0000_0000_0000,
    ensures
        a <= 0x7ff0_0000_0000_0000 && b <= 0x7ff0_0000_0000_0000 ==> {
            let minus_a = (a + 0x8000_0000_0000_0000) as u64;
            let minus_b = (b + 0x8000_0000_0000_0000) as u64;
            &&& Measure::of_double(a).less(Measure::of_double(b)) <==> a < b
            &&& Measure::of_double(minus_a).less(Measure::of_double(minus_b)) <==> b < a
            &&& Measure::of_double(minus_a).less(Measure::of_double(b)) <==> a > 0 || b > 0
            &&& !Measure::of_double(a).less(Measure::of_double(minus_b))
        },
        a > 0x7ff0_0000_0000_0000 ==> {
            let minus_a = (a + 0x8000_0000_0000_0000) as u64;
            let minus_b = (b + 0x8000_0000_0000_0000) as u64;
            forall|x: u64, y: u64|
                (x == a || x == minus_a) && (y == b || y == minus_b) ==> !(
                #[trigger] Measure::of_double(x)).less(#[trigger] Measure::of_double(y))
                    && !Measure::of_double(y).less(Measure::of_double(x))
        },
{
}

/// What is missing is neither less nor more than anything. Of two that are there, one is less
/// than the other as their values are.
pub proof fn law_missing_measures_are_not_ordered(left: Measure, right: Measure)
    ensures
        optional_less(Some(left), Some(right)) <==> left.less(right),
        !optional_less(None, Some(right)),
        !optional_less(Some(left), None),
        !optional_less(None, None),
        left matches Measure::Number(a) ==> right matches Measure::Number(b) ==> (left.less(right)
            <==> a < b),
        left is NotANumber || right is NotANumber ==> !left.less(right),
{
}

} // verus!
