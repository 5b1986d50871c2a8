//! Unsigned integers of 320 bits, for arithmetic on the exact values of floats.

use vstd::prelude::*;

verus! {

/// An unsigned integer of five 64-bit limbs, the least significant first.
#[derive(Clone, Copy, Debug, PartialEq, Eq, Structural)]
pub struct Wide {
    pub l0: u64,
    pub l1: u64,
    pub l2: u64,
    pub l3: u64,
    pub l4: u64,
}

/// `2^64`.
pub open spec fn limb() -> int {
    0x1_0000_0000_0000_0000
}

/// `2^320`, the first number that five limbs cannot hold.
pub open spec fn capacity() -> int {
    0x1_0000_0000_0000_0000_0000_0000_0000_0000_0000_0000_0000_0000_0000_0000_0000_0000_0000_0000_0000_0000int
}

impl Wide {
    /// The number that the limbs spell.
    pub open spec fn value(self) -> int {
        self.l0 as int + 0x1_0000_0000_0000_0000 * self.l1 as int + 0x1_0000_0000_0000_0000_0000_0000_0000_0000int * self.l2 as int + 0x1_0000_0000_0000_0000_0000_0000_0000_0000_0000_0000_0000_0000int * self.l3 as int + 0x1_0000_0000_0000_0000_0000_0000_0000_0000_0000_0000_0000_0000_0000_0000_0000_0000int
            * self.l4 as int
    }

    /// Zero.
    pub fn zero() -> (r: Wide)
        ensures
            r.value() == 0,
    {
        Wide { l0: 0, l1: 0, l2: 0, l3: 0, l4: 0 }
    }

    /// The number `x`.
    pub fn small(x: u64) -> (r: Wide)
        ensures
            r.value() == x,
    {
        Wide { l0: x, l1: 0, l2: 0, l3: 0, l4: 0 }
    }

    /// Whether the number is zero.
    pub fn is_zero(&self) -> (r: bool)
        ensures
            r == (self.value() == 0),
    {
        self.l0 == 0 && self.l1 == 0 && self.l2 == 0 && self.l3 == 0 && self.l4 == 0
    }

    /// Whether the number is below `2^63` in its top limb, so that it can be doubled.
    pub open spec fn roomy(self) -> bool {
        self.l4 < 0x8000_0000_0000_0000
    }

    /// Twice the number.
    pub fn double(&self) -> (r: Wide)
        requires
            self.roomy(),
        ensures
            r.value() == 2 * self.value(),
    {
        let m: u128 = 0x1_0000_0000_0000_0000;
        let s0: u128 = 2 * (self.l0 as u128);
        let s1: u128 = 2 * (self.l1 as u128) + s0 / m;
        let s2: u128 = 2 * (self.l2 as u128) + s1 / m;
        let s3: u128 = 2 * (self.l3 as u128) + s2 / m;
        let s4: u128 = 2 * (self.l4 as u128) + s3 / m;
        Wide {
            l0: (s0 % m) as u64,
            l1: (s1 % m) as u64,
            l2: (s2 % m) as u64,
            l3: (s3 % m) as u64,
            l4: (s4 % m) as u64,
        }
    }

    /// Half the number, rounded down, and whether it was odd.
    pub fn halve(&self) -> (r: (Wide, bool))
        ensures
            self.value() == 2 * r.0.value() + if r.1 { 1int } else { 0int },
    {
        let h: u64 = 0x8000_0000_0000_0000;
        let r = Wide {
            l0: self.l0 / 2 + (self.l1 % 2) * h,
            l1: self.l1 / 2 + (self.l2 % 2) * h,
            l2: self.l2 / 2 + (self.l3 % 2) * h,
            l3: self.l3 / 2 + (self.l4 % 2) * h,
            l4: self.l4 / 2,
        };
        (r, self.l0 % 2 == 1)
    }

    /// The sum of the two numbers.
    pub fn plus(&self, other: &Wide) -> (r: Wide)
        requires
            self.value() + other.value() < capacity(),
        ensures
            r.value() == self.value() + other.value(),
    {
        let m: u128 = 0x1_0000_0000_0000_0000;
        let s0: u128 = self.l0 as u128 + other.l0 as u128;
        let s1: u128 = self.l1 as u128 + other.l1 as u128 + s0 / m;
        let s2: u128 = self.l2 as u128 + other.l2 as u128 + s1 / m;
        let s3: u128 = self.l3 as u128 + other.l3 as u128 + s2 / m;
        let s4: u128 = self.l4 as u128 + other.l4 as u128 + s3 / m;
        assert(s4 < m);
        Wide {
            l0: (s0 % m) as u64,
            l1: (s1 % m) as u64,
            l2: (s2 % m) as u64,
            l3: (s3 % m) as u64,
            l4: (s4 % m) as u64,
        }
    }

    /// Whether this number is less than the other.
    pub fn below(&self, other: &Wide) -> (r: bool)
        ensures
            r == (self.value() < other.value()),
    {
        if self.l4 != other.l4 {
            self.l4 < other.l4
        } else if self.l3 != other.l3 {
            self.l3 < other.l3
        } else if self.l2 != other.l2 {
            self.l2 < other.l2
        } else if self.l1 != other.l1 {
            self.l1 < other.l1
        } else {
            self.l0 < other.l0
        }
    }

    /// This number less the other, which must not be greater.
    pub fn minus(&self, other: &Wide) -> (r: Wide)
        requires
            other.value() <= self.value(),
        ensures
            r.value() == self.value() - other.value(),
    {
        let m: i128 = 0x1_0000_0000_0000_0000;
        let d0: i128 = self.l0 as i128 - other.l0 as i128;
        let b0: i128 = if d0 < 0 { 1 } else { 0 };
        let d1: i128 = self.l1 as i128 - other.l1 as i128 - b0;
        let b1: i128 = if d1 < 0 { 1 } else { 0 };
        let d2: i128 = self.l2 as i128 - other.l2 as i128 - b1;
        let b2: i128 = if d2 < 0 { 1 } else { 0 };
        let d3: i128 = self.l3 as i128 - other.l3 as i128 - b2;
        let b3: i128 = if d3 < 0 { 1 } else { 0 };
        let d4: i128 = self.l4 as i128 - other.l4 as i128 - b3;
        assert(d4 >= 0);
        Wide {
            l0: (d0 + b0 * m) as u64,
            l1: (d1 + b1 * m) as u64,
            l2: (d2 + b2 * m) as u64,
            l3: (d3 + b3 * m) as u64,
            l4: d4 as u64,
        }
    }

    /// The low 32 bits of a number below `2^32`.
    pub fn low(&self) -> (r: u32)
        requires
            self.value() < 0x1_0000_0000,
        ensures
            r == self.value(),
    {
        self.l0 as u32
    }

    /// Whether the number is below `2^24`.
    pub fn fits24(&self) -> (r: bool)
        ensures
            r == (self.value() < 0x100_0000),
    {
        self.l4 == 0 && self.l3 == 0 && self.l2 == 0 && self.l1 == 0 && self.l0 < 0x100_0000
    }
}

} // verus!
