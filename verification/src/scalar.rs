use vstd::prelude::*;

verus! {

/// Number of indices among `0..n` at which `f` holds.
pub open spec fn count_true(f: spec_fn(nat) -> bool, n: nat) -> nat
    decreases n,
{
    if n == 0 {
        0
    } else {
        count_true(f, (n - 1) as nat) + if f((n - 1) as nat) {
            1nat
        } else {
            0nat
        }
    }
}

/// An unsigned machine word used as a set of bits.
pub trait Scalar: Sized {
    /// Width in bits.
    spec fn spec_size() -> nat;

    /// Bit `n`, counting from the least significant; false past the top.
    spec fn spec_bit(&self, n: nat) -> bool;

    /// The value a `usize` truncates to.
    spec fn spec_from_usize(c: usize) -> Self;

    /// The value truncated to a `usize`.
    spec fn spec_to_usize(&self) -> usize;

    /// Number of set bits.
    spec fn spec_count_ones(&self) -> nat;

    fn size() -> (r: usize)
        ensures
            r == Self::spec_size(),
    ;

    fn zero() -> (r: Self)
        ensures
            forall|i: nat| !#[trigger] r.spec_bit(i),
    ;

    fn one() -> (r: Self)
        ensures
            r.spec_bit(0),
            forall|i: nat| i != 0 ==> !#[trigger] r.spec_bit(i),
    ;

    fn from_usize(c: usize) -> (r: Self)
        ensures
            r == Self::spec_from_usize(c),
    ;

    fn to_usize(self) -> (r: usize)
        ensures
            r == self.spec_to_usize(),
    ;

    fn count_ones(&self) -> (r: u32)
        ensures
            r == self.spec_count_ones(),
    ;

    fn set_bit(&mut self, idx: usize, v: bool)
        requires
            idx < Self::spec_size(),
        ensures
            final(self).spec_bit(idx as nat) == v,
            forall|i: nat| i != idx ==> #[trigger] final(self).spec_bit(i) == old(self).spec_bit(i),
    ;

    fn get_bit(&self, idx: usize) -> (r: bool)
        requires
            idx < Self::spec_size(),
        ensures
            r == self.spec_bit(idx as nat),
    ;
}

/// Marks the unsigned words among the scalars.
pub trait UScalar: Scalar {
}

impl Scalar for u8 {
    open spec fn spec_size() -> nat {
        8 as nat
    }

    open spec fn spec_bit(&self, n: nat) -> bool {
        n < 8 && (*self >> (n as u8)) & 1 == 1
    }

    open spec fn spec_from_usize(c: usize) -> u8 {
        c as u8
    }

    open spec fn spec_to_usize(&self) -> usize {
        *self as usize
    }

    open spec fn spec_count_ones(&self) -> nat {
        count_true(|i: nat| self.spec_bit(i), 8 as nat)
    }

    fn size() -> (r: usize) {
        8 as usize
    }

    fn zero() -> (r: u8) {
        assert(forall|i: u8| i < 8 ==> #[trigger] ((0 as u8) >> i) & 1 == 0) by (bit_vector);
        let r: u8 = 0;
        assert forall|i: nat| !#[trigger] r.spec_bit(i) by {
            if i < 8 {
                let j = i as u8;
                assert(((0 as u8) >> j) & 1 == 0);
            }
        }
        r
    }

    fn one() -> (r: u8) {
        assert((forall|i: u8| 0 < i < 8 ==> #[trigger] ((1 as u8) >> i) & 1 == 0) && ((1 as u8) >> (0 as u8)) & 1 == 1) by (bit_vector);
        let r: u8 = 1;
        assert forall|i: nat| i != 0 implies !#[trigger] r.spec_bit(i) by {
            if i < 8 {
                let j = i as u8;
                assert(((1 as u8) >> j) & 1 == 0);
            }
        }
        r
    }

    fn from_usize(c: usize) -> (r: u8) {
        c as u8
    }

    fn to_usize(self) -> (r: usize) {
        self as usize
    }

    fn count_ones(&self) -> (r: u32) {
        let mut ct: u32 = 0;
        let mut i: usize = 0;
        while i < 8 as usize
            invariant
                i <= 8,
                ct == count_true(|k: nat| self.spec_bit(k), i as nat),
                ct <= i,
            decreases 8 - i,
        {
            if self.get_bit(i) {
                ct = ct + 1;
            }
            i = i + 1;
        }
        ct
    }

    fn set_bit(&mut self, idx: usize, v: bool) {
        let x = *self;
        let k = idx as u8;
        let cleared = x & !((1 as u8) << k);
        let y = if v {
            cleared | ((1 as u8) << k)
        } else {
            cleared
        };
        assert(((y >> k) & 1 == 1) == v && forall|j: u8| j < 8 && j != k ==> (y >> j) & 1 == (x >> j) & 1) by (bit_vector)
            requires
                k < 8,
                cleared == x & !((1 as u8) << k),
                y == (if v { cleared | ((1 as u8) << k) } else { cleared }),
        ;
        assert forall|i: nat| i != idx implies #[trigger] y.spec_bit(i) == x.spec_bit(i) by {
            if i < 8 {
                let j = i as u8;
                assert((y >> j) & 1 == (x >> j) & 1);
            }
        }
        *self = y;
    }

    fn get_bit(&self, idx: usize) -> (r: bool) {
        let x = *self;
        let k = idx as u8;
        assert(((x >> k) & 1 != 0) == ((x >> k) & 1 == 1)) by (bit_vector);
        ((x >> k) & 1) != 0
    }
}

impl UScalar for u8 {
}

impl Scalar for u16 {
    open spec fn spec_size() -> nat {
        16 as nat
    }

    open spec fn spec_bit(&self, n: nat) -> bool {
        n < 16 && (*self >> (n as u16)) & 1 == 1
    }

    open spec fn spec_from_usize(c: usize) -> u16 {
        c as u16
    }

    open spec fn spec_to_usize(&self) -> usize {
        *self as usize
    }

    open spec fn spec_count_ones(&self) -> nat {
        count_true(|i: nat| self.spec_bit(i), 16 as nat)
    }

    fn size() -> (r: usize) {
        16 as usize
    }

    fn zero() -> (r: u16) {
        assert(forall|i: u16| i < 16 ==> #[trigger] ((0 as u16) >> i) & 1 == 0) by (bit_vector);
        let r: u16 = 0;
        assert forall|i: nat| !#[trigger] r.spec_bit(i) by {
            if i < 16 {
                let j = i as u16;
                assert(((0 as u16) >> j) & 1 == 0);
            }
        }
        r
    }

    fn one() -> (r: u16) {
        assert((forall|i: u16| 0 < i < 16 ==> #[trigger] ((1 as u16) >> i) & 1 == 0) && ((1 as u16) >> (0 as u16)) & 1 == 1) by (bit_vector);
        let r: u16 = 1;
        assert forall|i: nat| i != 0 implies !#[trigger] r.spec_bit(i) by {
            if i < 16 {
                let j = i as u16;
                assert(((1 as u16) >> j) & 1 == 0);
            }
        }
        r
    }

    fn from_usize(c: usize) -> (r: u16) {
        c as u16
    }

    fn to_usize(self) -> (r: usize) {
        self as usize
    }

    fn count_ones(&self) -> (r: u32) {
        let mut ct: u32 = 0;
        let mut i: usize = 0;
        while i < 16 as usize
            invariant
                i <= 16,
                ct == count_true(|k: nat| self.spec_bit(k), i as nat),
                ct <= i,
            decreases 16 - i,
        {
            if self.get_bit(i) {
                ct = ct + 1;
            }
            i = i + 1;
        }
        ct
    }

    fn set_bit(&mut self, idx: usize, v: bool) {
        let x = *self;
        let k = idx as u16;
        let cleared = x & !((1 as u16) << k);
        let y = if v {
            cleared | ((1 as u16) << k)
        } else {
            cleared
        };
        assert(((y >> k) & 1 == 1) == v && forall|j: u16| j < 16 && j != k ==> (y >> j) & 1 == (x >> j) & 1) by (bit_vector)
            requires
                k < 16,
                cleared == x & !((1 as u16) << k),
                y == (if v { cleared | ((1 as u16) << k) } else { cleared }),
        ;
        assert forall|i: nat| i != idx implies #[trigger] y.spec_bit(i) == x.spec_bit(i) by {
            if i < 16 {
                let j = i as u16;
                assert((y >> j) & 1 == (x >> j) & 1);
            }
        }
        *self = y;
    }

    fn get_bit(&self, idx: usize) -> (r: bool) {
        let x = *self;
        let k = idx as u16;
        assert(((x >> k) & 1 != 0) == ((x >> k) & 1 == 1)) by (bit_vector);
        ((x >> k) & 1) != 0
    }
}

impl UScalar for u16 {
}

impl Scalar for u32 {
    open spec fn spec_size() -> nat {
        32 as nat
    }

    open spec fn spec_bit(&self, n: nat) -> bool {
        n < 32 && (*self >> (n as u32)) & 1 == 1
    }

    open spec fn spec_from_usize(c: usize) -> u32 {
        c as u32
    }

    open spec fn spec_to_usize(&self) -> usize {
        *self as usize
    }

    open spec fn spec_count_ones(&self) -> nat {
        count_true(|i: nat| self.spec_bit(i), 32 as nat)
    }

    fn size() -> (r: usize) {
        32 as usize
    }

    fn zero() -> (r: u32) {
        assert(forall|i: u32| i < 32 ==> #[trigger] ((0 as u32) >> i) & 1 == 0) by (bit_vector);
        let r: u32 = 0;
        assert forall|i: nat| !#[trigger] r.spec_bit(i) by {
            if i < 32 {
                let j = i as u32;
                assert(((0 as u32) >> j) & 1 == 0);
            }
        }
        r
    }

    fn one() -> (r: u32) {
        assert((forall|i: u32| 0 < i < 32 ==> #[trigger] ((1 as u32) >> i) & 1 == 0) && ((1 as u32) >> (0 as u32)) & 1 == 1) by (bit_vector);
        let r: u32 = 1;
        assert forall|i: nat| i != 0 implies !#[trigger] r.spec_bit(i) by {
            if i < 32 {
                let j = i as u32;
                assert(((1 as u32) >> j) & 1 == 0);
            }
        }
        r
    }

    fn from_usize(c: usize) -> (r: u32) {
        c as u32
    }

    fn to_usize(self) -> (r: usize) {
        self as usize
    }

    fn count_ones(&self) -> (r: u32) {
        let mut ct: u32 = 0;
        let mut i: usize = 0;
        while i < 32 as usize
            invariant
                i <= 32,
                ct == count_true(|k: nat| self.spec_bit(k), i as nat),
                ct <= i,
            decreases 32 - i,
        {
            if self.get_bit(i) {
                ct = ct + 1;
            }
            i = i + 1;
        }
        ct
    }

    fn set_bit(&mut self, idx: usize, v: bool) {
        let x = *self;
        let k = idx as u32;
        let cleared = x & !((1 as u32) << k);
        let y = if v {
            cleared | ((1 as u32) << k)
        } else {
            cleared
        };
        assert(((y >> k) & 1 == 1) == v && forall|j: u32| j < 32 && j != k ==> (y >> j) & 1 == (x >> j) & 1) by (bit_vector)
            requires
                k < 32,
                cleared == x & !((1 as u32) << k),
                y == (if v { cleared | ((1 as u32) << k) } else { cleared }),
        ;
        assert forall|i: nat| i != idx implies #[trigger] y.spec_bit(i) == x.spec_bit(i) by {
            if i < 32 {
                let j = i as u32;
                assert((y >> j) & 1 == (x >> j) & 1);
            }
        }
        *self = y;
    }

    fn get_bit(&self, idx: usize) -> (r: bool) {
        let x = *self;
        let k = idx as u32;
        assert(((x >> k) & 1 != 0) == ((x >> k) & 1 == 1)) by (bit_vector);
        ((x >> k) & 1) != 0
    }
}

impl UScalar for u32 {
}

impl Scalar for u64 {
    open spec fn spec_size() -> nat {
        64 as nat
    }

    open spec fn spec_bit(&self, n: nat) -> bool {
        n < 64 && (*self >> (n as u64)) & 1 == 1
    }

    open spec fn spec_from_usize(c: usize) -> u64 {
        c as u64
    }

    open spec fn spec_to_usize(&self) -> usize {
        *self as usize
    }

    open spec fn spec_count_ones(&self) -> nat {
        count_true(|i: nat| self.spec_bit(i), 64 as nat)
    }

    fn size() -> (r: usize) {
        64 as usize
    }

    fn zero() -> (r: u64) {
        assert(forall|i: u64| i < 64 ==> #[trigger] ((0 as u64) >> i) & 1 == 0) by (bit_vector);
        let r: u64 = 0;
        assert forall|i: nat| !#[trigger] r.spec_bit(i) by {
            if i < 64 {
                let j = i as u64;
                assert(((0 as u64) >> j) & 1 == 0);
            }
        }
        r
    }

    fn one() -> (r: u64) {
        assert((forall|i: u64| 0 < i < 64 ==> #[trigger] ((1 as u64) >> i) & 1 == 0) && ((1 as u64) >> (0 as u64)) & 1 == 1) by (bit_vector);
        let r: u64 = 1;
        assert forall|i: nat| i != 0 implies !#[trigger] r.spec_bit(i) by {
            if i < 64 {
                let j = i as u64;
                assert(((1 as u64) >> j) & 1 == 0);
            }
        }
        r
    }

    fn from_usize(c: usize) -> (r: u64) {
        c as u64
    }

    fn to_usize(self) -> (r: usize) {
        self as usize
    }

    fn count_ones(&self) -> (r: u32) {
        let mut ct: u32 = 0;
        let mut i: usize = 0;
        while i < 64 as usize
            invariant
                i <= 64,
                ct == count_true(|k: nat| self.spec_bit(k), i as nat),
                ct <= i,
            decreases 64 - i,
        {
            if self.get_bit(i) {
                ct = ct + 1;
            }
            i = i + 1;
        }
        ct
    }

    fn set_bit(&mut self, idx: usize, v: bool) {
        let x = *self;
        let k = idx as u64;
        let cleared = x & !((1 as u64) << k);
        let y = if v {
            cleared | ((1 as u64) << k)
        } else {
            cleared
        };
        assert(((y >> k) & 1 == 1) == v && forall|j: u64| j < 64 && j != k ==> (y >> j) & 1 == (x >> j) & 1) by (bit_vector)
            requires
                k < 64,
                cleared == x & !((1 as u64) << k),
                y == (if v { cleared | ((1 as u64) << k) } else { cleared }),
        ;
        assert forall|i: nat| i != idx implies #[trigger] y.spec_bit(i) == x.spec_bit(i) by {
            if i < 64 {
                let j = i as u64;
                assert((y >> j) & 1 == (x >> j) & 1);
            }
        }
        *self = y;
    }

    fn get_bit(&self, idx: usize) -> (r: bool) {
        let x = *self;
        let k = idx as u64;
        assert(((x >> k) & 1 != 0) == ((x >> k) & 1 == 1)) by (bit_vector);
        ((x >> k) & 1) != 0
    }
}

impl UScalar for u64 {
}

impl Scalar for u128 {
    open spec fn spec_size() -> nat {
        128 as nat
    }

    open spec fn spec_bit(&self, n: nat) -> bool {
        n < 128 && (*self >> (n as u128)) & 1 == 1
    }

    open spec fn spec_from_usize(c: usize) -> u128 {
        c as u128
    }

    open spec fn spec_to_usize(&self) -> usize {
        *self as usize
    }

    open spec fn spec_count_ones(&self) -> nat {
        count_true(|i: nat| self.spec_bit(i), 128 as nat)
    }

    fn size() -> (r: usize) {
        128 as usize
    }

    fn zero() -> (r: u128) {
        assert(forall|i: u128| i < 128 ==> #[trigger] ((0 as u128) >> i) & 1 == 0) by (bit_vector);
        let r: u128 = 0;
        assert forall|i: nat| !#[trigger] r.spec_bit(i) by {
            if i < 128 {
                let j = i as u128;
                assert(((0 as u128) >> j) & 1 == 0);
            }
        }
        r
    }

    fn one() -> (r: u128) {
        assert((forall|i: u128| 0 < i < 128 ==> #[trigger] ((1 as u128) >> i) & 1 == 0) && ((1 as u128) >> (0 as u128)) & 1 == 1) by (bit_vector);
        let r: u128 = 1;
        assert forall|i: nat| i != 0 implies !#[trigger] r.spec_bit(i) by {
            if i < 128 {
                let j = i as u128;
                assert(((1 as u128) >> j) & 1 == 0);
            }
        }
        r
    }

    fn from_usize(c: usize) -> (r: u128) {
        c as u128
    }

    fn to_usize(self) -> (r: usize) {
        self as usize
    }

    fn count_ones(&self) -> (r: u32) {
        let mut ct: u32 = 0;
        let mut i: usize = 0;
        while i < 128 as usize
            invariant
                i <= 128,
                ct == count_true(|k: nat| self.spec_bit(k), i as nat),
                ct <= i,
            decreases 128 - i,
        {
            if self.get_bit(i) {
                ct = ct + 1;
            }
            i = i + 1;
        }
        ct
    }

    fn set_bit(&mut self, idx: usize, v: bool) {
        let x = *self;
        let k = idx as u128;
        let cleared = x & !((1 as u128) << k);
        let y = if v {
            cleared | ((1 as u128) << k)
        } else {
            cleared
        };
        assert(((y >> k) & 1 == 1) == v && forall|j: u128| j < 128 && j != k ==> (y >> j) & 1 == (x >> j) & 1) by (bit_vector)
            requires
                k < 128,
                cleared == x & !((1 as u128) << k),
                y == (if v { cleared | ((1 as u128) << k) } else { cleared }),
        ;
        assert forall|i: nat| i != idx implies #[trigger] y.spec_bit(i) == x.spec_bit(i) by {
            if i < 128 {
                let j = i as u128;
                assert((y >> j) & 1 == (x >> j) & 1);
            }
        }
        *self = y;
    }

    fn get_bit(&self, idx: usize) -> (r: bool) {
        let x = *self;
        let k = idx as u128;
        assert(((x >> k) & 1 != 0) == ((x >> k) & 1 == 1)) by (bit_vector);
        ((x >> k) & 1) != 0
    }
}

impl UScalar for u128 {
}

impl Scalar for usize {
    open spec fn spec_size() -> nat {
        usize::BITS as nat
    }

    open spec fn spec_bit(&self, n: nat) -> bool {
        n < usize::BITS && (*self >> (n as usize)) & 1 == 1
    }

    open spec fn spec_from_usize(c: usize) -> usize {
        c as usize
    }

    open spec fn spec_to_usize(&self) -> usize {
        *self as usize
    }

    open spec fn spec_count_ones(&self) -> nat {
        count_true(|i: nat| self.spec_bit(i), usize::BITS as nat)
    }

    fn size() -> (r: usize) {
        usize::BITS as usize
    }

    fn zero() -> (r: usize) {
        assert(forall|i: usize| i < usize::BITS ==> #[trigger] ((0 as usize) >> i) & 1 == 0) by (bit_vector);
        let r: usize = 0;
        assert forall|i: nat| !#[trigger] r.spec_bit(i) by {
            if i < usize::BITS {
                let j = i as usize;
                assert(((0 as usize) >> j) & 1 == 0);
            }
        }
        r
    }

    fn one() -> (r: usize) {
        assert((forall|i: usize| 0 < i < usize::BITS ==> #[trigger] ((1 as usize) >> i) & 1 == 0) && ((1 as usize) >> (0 as usize)) & 1 == 1) by (bit_vector);
        let r: usize = 1;
        assert forall|i: nat| i != 0 implies !#[trigger] r.spec_bit(i) by {
            if i < usize::BITS {
                let j = i as usize;
                assert(((1 as usize) >> j) & 1 == 0);
            }
        }
        r
    }

    fn from_usize(c: usize) -> (r: usize) {
        c as usize
    }

    fn to_usize(self) -> (r: usize) {
        self as usize
    }

    fn count_ones(&self) -> (r: u32) {
        let mut ct: u32 = 0;
        let mut i: usize = 0;
        while i < usize::BITS as usize
            invariant
                i <= usize::BITS,
                ct == count_true(|k: nat| self.spec_bit(k), i as nat),
                ct <= i,
            decreases usize::BITS - i,
        {
            if self.get_bit(i) {
                ct = ct + 1;
            }
            i = i + 1;
        }
        ct
    }

    fn set_bit(&mut self, idx: usize, v: bool) {
        let x = *self;
        let k = idx as usize;
        let cleared = x & !((1 as usize) << k);
        let y = if v {
            cleared | ((1 as usize) << k)
        } else {
            cleared
        };
        assert(((y >> k) & 1 == 1) == v && forall|j: usize| j < usize::BITS && j != k ==> (y >> j) & 1 == (x >> j) & 1) by (bit_vector)
            requires
                k < usize::BITS,
                cleared == x & !((1 as usize) << k),
                y == (if v { cleared | ((1 as usize) << k) } else { cleared }),
        ;
        assert forall|i: nat| i != idx implies #[trigger] y.spec_bit(i) == x.spec_bit(i) by {
            if i < usize::BITS {
                let j = i as usize;
                assert((y >> j) & 1 == (x >> j) & 1);
            }
        }
        *self = y;
    }

    fn get_bit(&self, idx: usize) -> (r: bool) {
        let x = *self;
        let k = idx as usize;
        assert(((x >> k) & 1 != 0) == ((x >> k) & 1 == 1)) by (bit_vector);
        ((x >> k) & 1) != 0
    }
}

impl UScalar for usize {
}

} // verus!
