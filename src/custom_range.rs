//! A stepped integer type and half-open ranges over it.

use vstd::prelude::*;

verus! {

/// An unsigned 32-bit value that can be stepped through one at a time.
#[derive(Debug, Clone, Copy, PartialEq, Eq, Structural)]
pub struct NewType(pub u32);

impl NewType {
    /// The sum, or `None` when it does not fit in 32 bits.
    pub fn checked_add(self, other: NewType) -> (r: Option<NewType>)
        ensures
            self.0 + other.0 <= u32::MAX ==> r == Some(NewType((self.0 + other.0) as u32)),
            self.0 + other.0 > u32::MAX ==> r.is_none(),
    {
        match self.0.checked_add(other.0) {
            Some(i) => Some(NewType(i)),
            None => None,
        }
    }

    /// The sum; it must fit in 32 bits.
    pub fn add(self, other: NewType) -> (r: NewType)
        requires
            self.0 + other.0 <= u32::MAX,
        ensures
            r.0 == self.0 + other.0,
    {
        NewType(self.0 + other.0)
    }

    /// The difference; `other` must not exceed `self`.
    pub fn sub(self, other: NewType) -> (r: NewType)
        requires
            other.0 <= self.0,
        ensures
            r.0 == self.0 - other.0,
    {
        NewType(self.0 - other.0)
    }

    /// The number of steps from `start` up to `end`; zero when `end` does not
    /// lie above `start`.
    pub fn steps_between(start: &NewType, end: &NewType) -> (r: Option<usize>)
        ensures
            start.0 < end.0 ==> r == Some((end.0 - start.0) as usize),
            start.0 >= end.0 ==> r == Some(0usize),
    {
        if start.0 < end.0 {
            Some((end.0 - start.0) as usize)
        } else {
            Some(0)
        }
    }

    /// `self` advanced by `n` steps, or `None` past the largest value.
    pub fn add_usize(&self, n: usize) -> (r: Option<NewType>)
        ensures
            self.0 + n <= u32::MAX ==> r == Some(NewType((self.0 + n) as u32)),
            self.0 + n > u32::MAX ==> r.is_none(),
    {
        if n > u32::MAX as usize {
            None
        } else {
            self.checked_add(NewType(n as u32))
        }
    }

    /// Sets `self` to one and returns the value it held.
    pub fn replace_one(&mut self) -> (r: NewType)
        ensures
            r == *old(self),
            *final(self) == NewType(1),
    {
        let r = *self;
        *self = NewType(1);
        r
    }

    /// Sets `self` to zero and returns the value it held.
    pub fn replace_zero(&mut self) -> (r: NewType)
        ensures
            r == *old(self),
            *final(self) == NewType(0),
    {
        let r = *self;
        *self = NewType(0);
        r
    }

    /// The next value, staying at the largest value.
    pub fn add_one(&self) -> (r: NewType)
        ensures
            self.0 < u32::MAX ==> r.0 == self.0 + 1,
            self.0 == u32::MAX ==> r.0 == u32::MAX,
    {
        NewType(self.0.saturating_add(1))
    }

    /// The previous value, staying at zero.
    pub fn sub_one(&self) -> (r: NewType)
        ensures
            self.0 > 0 ==> r.0 == self.0 - 1,
            self.0 == 0 ==> r.0 == 0,
    {
        NewType(self.0.saturating_sub(1))
    }
}

/// The values `start, start + 1, ...` up to but not including `end`.
#[derive(Debug, Clone, Copy, PartialEq, Eq, Structural)]
pub struct NewTypeRange {
    pub start: NewType,
    pub end: NewType,
}

impl NewTypeRange {
    pub fn new(start: NewType, end: NewType) -> (r: NewTypeRange)
        ensures
            r.start == start,
            r.end == end,
    {
        NewTypeRange { start, end }
    }

    /// How many values are left.
    pub fn len(&self) -> (r: usize)
        ensures
            r == if self.start.0 < self.end.0 { self.end.0 - self.start.0 } else { 0 },
    {
        match NewType::steps_between(&self.start, &self.end) {
            Some(n) => n,
            None => 0,
        }
    }

    /// The next value of the range, which then starts one step later.
    pub fn next(&mut self) -> (r: Option<NewType>)
        ensures
            old(self).start.0 < old(self).end.0 ==> r == Some(old(self).start)
                && final(self).start.0 == old(self).start.0 + 1,
            old(self).start.0 >= old(self).end.0 ==> r.is_none() && *final(self) == *old(self),
            final(self).end == old(self).end,
    {
        if self.start.0 < self.end.0 {
            let v = self.start;
            self.start = v.add_one();
            Some(v)
        } else {
            None
        }
    }

    /// The value before the end, which then ends one step earlier.
    pub fn next_back(&mut self) -> (r: Option<NewType>)
        ensures
            old(self).start.0 < old(self).end.0 ==> r == Some(NewType((old(self).end.0 - 1) as u32))
                && final(self).end.0 == old(self).end.0 - 1,
            old(self).start.0 >= old(self).end.0 ==> r.is_none() && *final(self) == *old(self),
            final(self).start == old(self).start,
    {
        if self.start.0 < self.end.0 {
            self.end = self.end.sub_one();
            Some(self.end)
        } else {
            None
        }
    }

    /// All values of the range, in ascending order.
    pub fn to_vec(&self) -> (r: Vec<NewType>)
        ensures
            r@.len() == if self.start.0 < self.end.0 { self.end.0 - self.start.0 } else { 0 },
            forall|i: int| 0 <= i < r@.len() ==> (#[trigger] r@[i]).0 == self.start.0 + i,
    {
        let mut out: Vec<NewType> = Vec::new();
        let mut cur = *self;
        loop
            invariant
                cur.end == self.end,
                self.start.0 <= cur.start.0 || self.start.0 >= self.end.0,
                self.start.0 < self.end.0 ==> cur.start.0 <= self.end.0,
                self.start.0 >= self.end.0 ==> cur == *self,
                out@.len() == if self.start.0 < self.end.0 { cur.start.0 - self.start.0 } else { 0 },
                forall|i: int| 0 <= i < out@.len() ==> (#[trigger] out@[i]).0 == self.start.0 + i,
            ensures
                out@.len() == if self.start.0 < self.end.0 { self.end.0 - self.start.0 } else { 0 },
                forall|i: int| 0 <= i < out@.len() ==> (#[trigger] out@[i]).0 == self.start.0 + i,
            decreases self.end.0 - cur.start.0,
        {
            match cur.next() {
                Some(v) => out.push(v),
                None => break,
            }
        }
        out
    }
}

} // verus!
