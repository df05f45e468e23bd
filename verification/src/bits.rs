use vstd::prelude::*;

verus! {

/// Bit `n` of a 128-bit word, counting from the least significant bit; false past the top.
pub open spec fn bit_of(x: u128, n: nat) -> bool {
    n < 128 && (x >> (n as u128)) & 1 == 1
}

/// A fixed-size set of bits, indexed from 0.
pub trait Bits: Sized {
    /// Number of bits held.
    spec fn spec_size() -> nat;

    /// Bit `n` of the value.
    spec fn spec_bit(&self, n: nat) -> bool;

    fn zero() -> (r: Self)
        ensures
            forall|i: nat| i < Self::spec_size() ==> !#[trigger] r.spec_bit(i),
    ;

    fn size() -> (r: usize)
        ensures
            r == Self::spec_size(),
    ;

    fn get_bit(&self, n: usize) -> (r: bool)
        requires
            n < Self::spec_size(),
        ensures
            r == self.spec_bit(n as nat),
    ;

    fn set_bit(&mut self, n: usize, v: bool)
        requires
            n < Self::spec_size(),
        ensures
            final(self).spec_bit(n as nat) == v,
            forall|i: nat|
                i < Self::spec_size() && i != n ==> #[trigger] final(self).spec_bit(i) == old(
                    self,
                ).spec_bit(i),
    ;

    /// The value whose bits are those of `c`; every set bit of `c` must fit.
    fn cnst(c: u128) -> (r: Self)
        requires
            forall|i: nat| #![trigger bit_of(c, i)] Self::spec_size() <= i ==> !bit_of(c, i),
        ensures
            forall|i: nat| i < Self::spec_size() ==> #[trigger] r.spec_bit(i) == bit_of(c, i),
    {
        let mut b = Self::zero();
        let sz = Self::size();
        let mut idx: usize = 0;
        while idx < 128
            invariant
                sz == Self::spec_size(),
                idx <= 128,
                forall|i: nat| #![trigger bit_of(c, i)] Self::spec_size() <= i ==> !bit_of(c, i),
                forall|i: nat| i < Self::spec_size() && i < idx ==> #[trigger] b.spec_bit(i) == bit_of(c, i),
                forall|i: nat| i < Self::spec_size() && i >= idx ==> !#[trigger] b.spec_bit(i),
            decreases 128 - idx,
        {
            let i128 = idx as u128;
            if (c >> i128) & 1 == 1 {
                assert(bit_of(c, idx as nat));
                Self::set_bit(&mut b, idx, true);
            } else {
                assert(!bit_of(c, idx as nat));
            }
            idx = idx + 1;
        }
        b
    }
}

impl Bits for u128 {
    open spec fn spec_size() -> nat {
        128
    }

    open spec fn spec_bit(&self, n: nat) -> bool {
        bit_of(*self, n)
    }

    fn zero() -> (r: u128) {
        assert(forall|i: u128| i < 128 ==> (0u128 >> i) & 1 == 0) by (bit_vector);
        0
    }

    fn size() -> (r: usize) {
        128
    }

    fn get_bit(&self, n: usize) -> (r: bool) {
        let x = *self;
        let k = n as u128;
        assert(((x >> k) & 1 != 0) == ((x >> k) & 1 == 1)) by (bit_vector);
        ((x >> k) & 1) != 0
    }

    fn set_bit(&mut self, n: usize, v: bool) {
        let x = *self;
        let k = n as u128;
        let cleared = x & !(1u128 << k);
        let y = if v {
            cleared | (1u128 << k)
        } else {
            cleared
        };
        assert(((y >> k) & 1 == 1) == v) by (bit_vector)
            requires
                k < 128,
                cleared == x & !(1u128 << k),
                y == (if v { cleared | (1u128 << k) } else { cleared }),
        ;
        assert(forall|j: u128| j < 128 && j != k ==> (y >> j) & 1 == (x >> j) & 1) by (bit_vector)
            requires
                k < 128,
                cleared == x & !(1u128 << k),
                y == (if v { cleared | (1u128 << k) } else { cleared }),
        ;
        assert forall|i: nat| i < 128 && i != n implies #[trigger] bit_of(y, i) == bit_of(x, i) by {
            let j = i as u128;
            assert((y >> j) & 1 == (x >> j) & 1);
        }
        *self = y;
    }
}

impl Bits for (u128, u128) {
    open spec fn spec_size() -> nat {
        256
    }

    open spec fn spec_bit(&self, n: nat) -> bool {
        if n < 128 {
            bit_of(self.0, n)
        } else {
            bit_of(self.1, (n - 128) as nat)
        }
    }

    fn zero() -> (r: (u128, u128)) {
        let r = (<u128 as Bits>::zero(), <u128 as Bits>::zero());
        assert forall|i: nat| i < 256 implies !#[trigger] r.spec_bit(i) by {
            if i >= 128 {
                assert(!r.1.spec_bit((i - 128) as nat));
            } else {
                assert(!r.0.spec_bit(i));
            }
        }
        r
    }

    fn size() -> (r: usize) {
        <u128 as Bits>::size() + <u128 as Bits>::size()
    }

    fn get_bit(&self, n: usize) -> (r: bool) {
        if n < <u128 as Bits>::size() {
            self.0.get_bit(n)
        } else {
            self.1.get_bit(n - <u128 as Bits>::size())
        }
    }

    fn set_bit(&mut self, n: usize, v: bool) {
        if n < <u128 as Bits>::size() {
            let mut a = self.0;
            a.set_bit(n, v);
            self.0 = a;
        } else {
            let mut b = self.1;
            b.set_bit(n - <u128 as Bits>::size(), v);
            self.1 = b;
        }
        assert forall|i: nat| i < 256 && i != n implies #[trigger] final(self).spec_bit(i) == old(
            self,
        ).spec_bit(i) by {
            if i >= 128 {
                assert(final(self).1.spec_bit((i - 128) as nat) == old(self).1.spec_bit((i - 128) as nat));
            } else {
                assert(final(self).0.spec_bit(i) == old(self).0.spec_bit(i));
            }
        }
    }
}

} // verus!
