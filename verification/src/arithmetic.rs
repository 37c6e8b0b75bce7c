//! Arithmetic on binary64 numbers.
//!
//! The library holds binary64 numbers by their bit patterns and leaves their arithmetic to the
//! machine: whoever calls it hands in a function that computes one operation at a time. Contracts
//! say which operations are asked for, on which numbers and in which order, and they hold whatever
//! the function answers. In the same way a function that is handed in reads numbers in texts.

use vstd::prelude::*;

use crate::double::Double;
use crate::rounding::{double_of, integer_spec};

verus! {

/// The bit pattern of two.
pub const TWO_BITS: u64 = 0x4000_0000_0000_0000;

/// The bit pattern of a hundred.
pub const HUNDRED_BITS: u64 = 0x4059_0000_0000_0000;

/// The bit pattern of a thousand.
pub const THOUSAND_BITS: u64 = 0x408f_4000_0000_0000;

/// The bit pattern of ten thousand.
pub const TEN_THOUSAND_BITS: u64 = 0x40c3_8800_0000_0000;

/// An operation on two binary64 numbers.
#[derive(Clone, Copy, Debug, PartialEq, Eq, Structural)]
pub enum Op {
    Plus,
    Minus,
    Times,
    Over,
}

/// Whether a function answers every operation.
pub open spec fn is_total<F: Fn(Op, Double, Double) -> Double>(f: F) -> bool {
    forall|op: Op, a: Double, b: Double| #[trigger] call_requires(f, (op, a, b))
}

/// What may be answered to an operation: whether the last number is an answer to the operation on
/// the first two.
pub type Answers = spec_fn(Op, Double, Double, Double) -> bool;

/// What a function may answer.
pub open spec fn answers_of<F: Fn(Op, Double, Double) -> Double>(f: F) -> Answers {
    |op: Op, a: Double, b: Double, r: Double| call_ensures(f, (op, a, b), r)
}

/// Whether a number may be answered to an operation.
pub open spec fn answers(f: Answers, op: Op, a: Double, b: Double, r: Double) -> bool {
    f(op, a, b, r)
}

/// Whether every operation has at most one answer.
pub open spec fn is_settled(f: Answers) -> bool {
    forall|op: Op, a: Double, b: Double, r: Double, s: Double|
        #[trigger] answers(f, op, a, b, r) && #[trigger] answers(f, op, a, b, s) ==> r == s
}

/// Whether a number is a time in seconds that is given in milliseconds.
pub open spec fn is_seconds(
    f: Answers,
    millis: u64,
    r: Double,
) -> bool {
    answers(f, Op::Over, integer_spec(millis as nat), Double { bits: THOUSAND_BITS }, r)
}

/// A time in seconds that is given in milliseconds.
pub fn seconds<F: Fn(Op, Double, Double) -> Double>(f: &F, millis: u64) -> (r: Double)
    requires
        is_total(*f),
    ensures
        is_seconds(answers_of(*f), millis, r),
{
    f(Op::Over, double_of(millis), Double { bits: THOUSAND_BITS })
}

/// Whether a number is how often something happens in a second, when it happens `count` times in
/// some milliseconds; zero where that is no time.
pub open spec fn is_rate(
    f: Answers,
    count: u64,
    millis: u64,
    r: Double,
) -> bool {
    exists|duration: Double| #[trigger]
        is_seconds(f, millis, duration) && if duration.gt(Double { bits: 0 }) {
            answers(f, Op::Over, integer_spec(count as nat), duration, r)
        } else {
            r == Double { bits: 0 }
        }
}

/// How often something happens in a second, when it happens `count` times in some milliseconds.
pub fn rate<F: Fn(Op, Double, Double) -> Double>(f: &F, count: u64, millis: u64) -> (r: Double)
    requires
        is_total(*f),
    ensures
        is_rate(answers_of(*f), count, millis, r),
{
    let duration: Double = seconds(f, millis);
    if duration.exceeds(Double::zero()) {
        f(Op::Over, double_of(count), duration)
    } else {
        Double::zero()
    }
}

/// Whether a number is the mean of `count` numbers with a sum; zero where there are none.
pub open spec fn is_mean(
    f: Answers,
    sum: u64,
    count: u64,
    r: Double,
) -> bool {
    if count > 0 {
        answers(f, Op::Over, integer_spec(sum as nat), integer_spec(count as nat), r)
    } else {
        r == Double { bits: 0 }
    }
}

/// The mean of `count` numbers with a sum.
pub fn mean<F: Fn(Op, Double, Double) -> Double>(f: &F, sum: u64, count: u64) -> (r: Double)
    requires
        is_total(*f),
    ensures
        is_mean(answers_of(*f), sum, count, r),
{
    if count > 0 {
        f(Op::Over, double_of(sum), double_of(count))
    } else {
        Double::zero()
    }
}

/// Whether a number is the share of a part in a whole, in percent; zero where there is no whole.
pub open spec fn is_percentage(
    f: Answers,
    part: nat,
    whole: nat,
    r: Double,
) -> bool {
    if whole > 0 {
        exists|scaled: Double| #[trigger]
            answers(f, Op::Times, Double { bits: HUNDRED_BITS }, integer_spec(part), scaled)
                && answers(f, Op::Over, scaled, integer_spec(whole), r)
    } else {
        r == Double { bits: 0 }
    }
}

/// The share of a part in a whole, in percent.
pub fn percentage<F: Fn(Op, Double, Double) -> Double>(f: &F, part: u64, whole: u64) -> (r: Double)
    requires
        is_total(*f),
    ensures
        is_percentage(answers_of(*f), part as nat, whole as nat, r),
{
    if whole > 0 {
        let scaled: Double = f(Op::Times, Double { bits: HUNDRED_BITS }, double_of(part));
        assert(answers(
            answers_of(*f),
            Op::Times,
            Double { bits: HUNDRED_BITS },
            integer_spec(part as nat),
            scaled,
        ));
        f(Op::Over, scaled, double_of(whole))
    } else {
        Double::zero()
    }
}

/// Whether a function reads any text.
pub open spec fn reads_any<P: Fn(&String) -> Option<Double>>(parse: P) -> bool {
    forall|text: String| #[trigger] call_requires(parse, (&text,))
}

/// What may be read in a text: a number, or none.
pub type Readings = spec_fn(Seq<char>, Option<Double>) -> bool;

/// What a function may read.
pub open spec fn readings_of<P: Fn(&String) -> Option<Double>>(parse: P) -> Readings {
    |text: Seq<char>, r: Option<Double>|
        exists|t: String| t@ == text && #[trigger] call_ensures(parse, (&t,), r)
}

/// Whether `r` may be read in a text.
pub open spec fn may_read(parse: Readings, text: Seq<char>, r: Option<Double>) -> bool {
    parse(text, r)
}

} // verus!
