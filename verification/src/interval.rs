//! Closed intervals of keys.

use vstd::prelude::*;

verus! {

/// The smaller of two keys.
pub open spec fn lower(a: int, b: int) -> int {
    if a <= b {
        a
    } else {
        b
    }
}

/// The larger of two keys.
pub open spec fn upper(a: int, b: int) -> int {
    if a >= b {
        a
    } else {
        b
    }
}

/// The smaller of two keys.
pub fn key_min(a: i64, b: i64) -> (m: i64)
    ensures
        m == lower(a as int, b as int),
{
    if a <= b {
        a
    } else {
        b
    }
}

/// The larger of two keys.
pub fn key_max(a: i64, b: i64) -> (m: i64)
    ensures
        m == upper(a as int, b as int),
{
    if a >= b {
        a
    } else {
        b
    }
}

/// The keys from `min` to `max`, both included. It holds none where `min`
/// lies above `max`.
#[derive(Clone, Copy, Debug, PartialEq, Eq, Structural)]
pub struct Interval {
    pub min: i64,
    pub max: i64,
}

impl Interval {
    /// Whether `value` lies in the interval, the ends included.
    pub open spec fn has(self, value: int) -> bool {
        self.min <= value <= self.max
    }

    /// Whether every key of `other` is a key of `self`.
    pub open spec fn includes(self, other: Interval) -> bool {
        forall|value: int| other.has(value) ==> self.has(value)
    }

    /// The least interval that includes both.
    pub open spec fn join(self, other: Interval) -> Interval {
        Interval {
            min: lower(self.min as int, other.min as int) as i64,
            max: upper(self.max as int, other.max as int) as i64,
        }
    }

    pub fn new(min: i64, max: i64) -> (res: Self)
        ensures
            res.min == min,
            res.max == max,
    {
        Self { min, max }
    }

    /// The interval without a key, which `combine` leaves any other as it is.
    pub fn empty() -> (res: Self)
        ensures
            res.min == i64::MAX,
            res.max == i64::MIN,
            forall|value: int| !res.has(value),
    {
        Self { min: i64::MAX, max: i64::MIN }
    }

    /// The interval of all keys.
    pub fn universe() -> (res: Self)
        ensures
            res.min == i64::MIN,
            res.max == i64::MAX,
    {
        Self { min: i64::MIN, max: i64::MAX }
    }

    /// The least interval that includes both.
    pub fn combine(&self, other: &Interval) -> (res: Interval)
        ensures
            res == self.join(*other),
            res.includes(*self),
            res.includes(*other),
    {
        Interval::new(key_min(self.min, other.min), key_max(self.max, other.max))
    }

    pub fn is_empty(&self) -> (res: bool)
        ensures
            res == (self.min > self.max),
            res == (forall|value: int| !self.has(value)),
    {
        proof {
            if self.min <= self.max {
                assert(self.has(self.min as int));
            }
        }
        self.min > self.max
    }

    /// Whether `value` lies in the interval, the ends included.
    pub fn contains(&self, value: i64) -> (res: bool)
        ensures
            res == self.has(value as int),
    {
        value >= self.min && value <= self.max
    }

    /// Whether `value` lies strictly between the ends.
    pub fn surrounds(&self, value: i64) -> (res: bool)
        ensures
            res == (self.min < value < self.max),
    {
        value > self.min && value < self.max
    }

    /// `value` raised to `min` and then lowered to `max`.
    pub fn clamp(&self, value: i64) -> (res: i64)
        ensures
            res == lower(upper(value as int, self.min as int), self.max as int),
            self.min <= self.max ==> self.has(res as int),
            self.has(value as int) ==> res == value,
    {
        key_min(key_max(value, self.min), self.max)
    }

    /// The keys that both hold.
    pub fn intersect(&self, other: &Interval) -> (res: Interval)
        ensures
            res.min == upper(self.min as int, other.min as int),
            res.max == lower(self.max as int, other.max as int),
            forall|value: int| res.has(value) <==> self.has(value) && other.has(value),
    {
        Interval::new(key_max(self.min, other.min), key_min(self.max, other.max))
    }
}

impl Default for Interval {
    /// The interval of all keys.
    fn default() -> (res: Self)
        ensures
            res.min == i64::MIN,
            res.max == i64::MAX,
    {
        Self { min: i64::MIN, max: i64::MAX }
    }
}

} // verus!
