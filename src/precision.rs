use vstd::prelude::*;

verus! {

/// The unit in which a writer declares its timestamps.
#[derive(Debug, Clone, Copy, PartialEq, Eq, Structural)]
pub enum Precision {
    Auto,
    Second,
    Millisecond,
    Microsecond,
    Nanosecond,
}

/// The precision that the magnitude of `ts` suggests: the number of whole
/// seconds it would stand for under nanosecond precision decides.
pub open spec fn guessed_precision(ts: i64) -> Precision {
    let secs = abs_int(ts as int) / 1_000_000_000;
    if secs < 5 {
        Precision::Second
    } else if secs < 5_000 {
        Precision::Millisecond
    } else if secs < 5_000_000 {
        Precision::Microsecond
    } else {
        Precision::Nanosecond
    }
}

pub open spec fn abs_int(x: int) -> int {
    if x < 0 {
        -x
    } else {
        x
    }
}

/// Nanoseconds per unit of an explicit precision; `Auto` resolves through
/// the magnitude of the timestamp.
pub open spec fn multiplier(p: Precision) -> int {
    match p {
        Precision::Second => 1_000_000_000,
        Precision::Millisecond => 1_000_000,
        Precision::Microsecond => 1_000,
        Precision::Nanosecond => 1,
        Precision::Auto => 1,
    }
}

/// The precision under which `ts` is read: `Auto` is replaced by the guess.
pub open spec fn resolved_precision(p: Precision, ts: i64) -> Precision {
    if p == Precision::Auto {
        guessed_precision(ts)
    } else {
        p
    }
}

/// The nanosecond value that `ts` stands for under precision `p`.
pub open spec fn timestamp_nanos(p: Precision, ts: i64) -> int {
    ts as int * multiplier(resolved_precision(p, ts))
}

/// Guesses the precision of a timestamp from its magnitude.
pub fn guess_precision(ts: i64) -> (r: Precision)
    ensures
        r == guessed_precision(ts),
        r != Precision::Auto,
{
    let magnitude: u64 = if ts < 0 {
        ((-(ts as i128)) as u64)
    } else {
        ts as u64
    };
    let secs: u64 = magnitude / 1_000_000_000;
    if secs < 5 {
        Precision::Second
    } else if secs < 5_000 {
        Precision::Millisecond
    } else if secs < 5_000_000 {
        Precision::Microsecond
    } else {
        Precision::Nanosecond
    }
}

fn explicit_multiplier(p: Precision) -> (r: i64)
    requires
        p != Precision::Auto,
    ensures
        r as int == multiplier(p),
        r > 0,
{
    match p {
        Precision::Second => 1_000_000_000,
        Precision::Millisecond => 1_000_000,
        Precision::Microsecond => 1_000,
        _ => 1,
    }
}

/// Converts a timestamp given in precision `p` to nanoseconds.
pub fn apply_precision_to_timestamp(precision: Precision, ts: i64) -> (r: i64)
    requires
        i64::MIN <= timestamp_nanos(precision, ts) <= i64::MAX,
    ensures
        r == timestamp_nanos(precision, ts),
        precision != Precision::Auto ==> r == ts * multiplier(precision),
{
    let resolved = match precision {
        Precision::Auto => guess_precision(ts),
        other => other,
    };
    let m = explicit_multiplier(resolved);
    ts * m
}

/// Converts a timestamp given in precision `p` to nanoseconds, or `None`
/// where the result does not fit in an `i64`.
pub fn checked_timestamp_nanos(precision: Precision, ts: i64) -> (r: Option<i64>)
    ensures
        r.is_some() <==> i64::MIN <= timestamp_nanos(precision, ts) <= i64::MAX,
        r.is_some() ==> r.unwrap() == timestamp_nanos(precision, ts),
{
    let resolved = match precision {
        Precision::Auto => guess_precision(ts),
        other => other,
    };
    let m = explicit_multiplier(resolved);
    ts.checked_mul(m)
}

} // verus!
