use vstd::prelude::*;

verus! {

/// Whether `x` fits in an `isize`.
pub open spec fn in_isize(x: int) -> bool {
    isize::MIN <= x <= isize::MAX
}

/// Whether every coordinate of `v` fits in an `isize`.
pub open spec fn fits(v: Seq<int>) -> bool {
    forall|i: int| 0 <= i < v.len() ==> in_isize(#[trigger] v[i])
}

/// The zero vector of `d` coordinates.
pub open spec fn zeros(d: nat) -> Seq<int> {
    Seq::new(d, |i: int| 0)
}

/// `v` times `q`, coordinate by coordinate.
pub open spec fn scale(v: Seq<int>, q: int) -> Seq<int> {
    Seq::new(v.len(), |i: int| v[i] * q)
}

/// `v + q * w`, coordinate by coordinate.
pub open spec fn axpy(v: Seq<int>, q: int, w: Seq<int>) -> Seq<int> {
    Seq::new(v.len(), |i: int| v[i] + q * w[i])
}

/// Whether `v + q * w` can be computed in `isize` coordinates: the two vectors have the same
/// length, and each product `q * w[i]` and each sum fits.
pub open spec fn addmul_ok(v: Seq<int>, q: int, w: Seq<int>) -> bool {
    &&& v.len() == w.len()
    &&& forall|i: int| 0 <= i < v.len() ==> in_isize(#[trigger] (q * w[i])) && in_isize(v[i] + q * w[i])
}

/// A module over the integers whose values are vectors of `isize` coordinates: the integers
/// themselves, the trivial module `()`, and pairs of modules.
pub trait ZModule: Sized {
    /// The coordinates of the value.
    spec fn coords(&self) -> Seq<int>;

    /// How many coordinates each value of the type has.
    spec fn dim() -> nat;

    /// Every value has `dim()` coordinates, each of which fits in an `isize`.
    proof fn lemma_coords(&self)
        ensures
            self.coords().len() == Self::dim(),
            fits(self.coords()),
    ;

    /// The zero of the module.
    fn zero() -> (r: Self)
        ensures
            r.coords() == zeros(Self::dim()),
    ;

    /// Multiplies the value by `q`.
    fn mul(&mut self, q: isize)
        requires
            fits(scale(old(self).coords(), q as int)),
        ensures
            final(self).coords() == scale(old(self).coords(), q as int),
    ;

    /// Adds `q` times `b` to the value.
    fn addmul(&mut self, q: isize, b: &Self)
        requires
            addmul_ok(old(self).coords(), q as int, b.coords()),
        ensures
            final(self).coords() == axpy(old(self).coords(), q as int, b.coords()),
    ;
}

impl ZModule for () {
    open spec fn coords(&self) -> Seq<int> {
        Seq::empty()
    }

    open spec fn dim() -> nat {
        0
    }

    proof fn lemma_coords(&self) {
    }

    fn zero() -> (r: Self) {
        let r = ();
        assert(r.coords() =~= zeros(0));
        r
    }

    fn mul(&mut self, q: isize) {
        assert(final(self).coords() =~= scale(old(self).coords(), q as int));
    }

    fn addmul(&mut self, q: isize, b: &Self) {
        assert(final(self).coords() =~= axpy(old(self).coords(), q as int, b.coords()));
    }
}

impl ZModule for isize {
    open spec fn coords(&self) -> Seq<int> {
        seq![*self as int]
    }

    open spec fn dim() -> nat {
        1
    }

    proof fn lemma_coords(&self) {
    }

    fn zero() -> (r: Self) {
        let r: isize = 0;
        assert(r.coords() =~= zeros(1));
        r
    }

    fn mul(&mut self, q: isize) {
        assert(scale(self.coords(), q as int)[0] == *self * q);
        *self = *self * q;
        assert(self.coords() =~= scale(old(self).coords(), q as int));
    }

    fn addmul(&mut self, q: isize, b: &Self) {
        assert(in_isize(q * b.coords()[0]) && in_isize(self.coords()[0] + q * b.coords()[0]));
        let p = q * *b;
        *self = *self + p;
        assert(self.coords() =~= axpy(old(self).coords(), q as int, b.coords()));
    }
}

impl<X: ZModule, Y: ZModule> ZModule for (X, Y) {
    open spec fn coords(&self) -> Seq<int> {
        self.0.coords() + self.1.coords()
    }

    open spec fn dim() -> nat {
        X::dim() + Y::dim()
    }

    proof fn lemma_coords(&self) {
        self.0.lemma_coords();
        self.1.lemma_coords();
        let c = self.coords();
        assert forall|i: int| 0 <= i < c.len() implies in_isize(#[trigger] c[i]) by {
            if i < self.0.coords().len() {
                assert(c[i] == self.0.coords()[i]);
            } else {
                assert(c[i] == self.1.coords()[i - self.0.coords().len()]);
            }
        }
    }

    fn zero() -> (r: Self) {
        let r = (X::zero(), Y::zero());
        assert(r.coords() =~= zeros(X::dim() + Y::dim()));
        r
    }

    fn mul(&mut self, q: isize) {
        proof {
            self.0.lemma_coords();
            self.1.lemma_coords();
        }
        let ghost c0 = self.0.coords();
        let ghost c1 = self.1.coords();
        let ghost all = scale(c0 + c1, q as int);
        assert forall|i: int| 0 <= i < c0.len() implies in_isize(#[trigger] scale(c0, q as int)[i]) by {
            assert(all[i] == scale(c0, q as int)[i]);
        }
        assert forall|i: int| 0 <= i < c1.len() implies in_isize(#[trigger] scale(c1, q as int)[i]) by {
            assert(all[c0.len() + i] == scale(c1, q as int)[i]);
        }
        self.0.mul(q);
        self.1.mul(q);
        assert(self.coords() =~= all);
    }

    fn addmul(&mut self, q: isize, b: &Self) {
        proof {
            self.0.lemma_coords();
            self.1.lemma_coords();
            b.0.lemma_coords();
            b.1.lemma_coords();
        }
        let ghost c0 = self.0.coords();
        let ghost c1 = self.1.coords();
        let ghost d0 = b.0.coords();
        let ghost d1 = b.1.coords();
        let ghost all = axpy(c0 + c1, q as int, d0 + d1);
        assert forall|i: int| 0 <= i < c0.len() implies in_isize(#[trigger] (q * d0[i])) && in_isize(c0[i] + q * d0[i]) by {
            assert((c0 + c1)[i] == c0[i] && (d0 + d1)[i] == d0[i]);
        }
        assert forall|i: int| 0 <= i < c1.len() implies in_isize(#[trigger] (q * d1[i])) && in_isize(c1[i] + q * d1[i]) by {
            assert((c0 + c1)[c0.len() + i] == c1[i] && (d0 + d1)[c0.len() + i] == d1[i]);
        }
        self.0.addmul(q, &b.0);
        self.1.addmul(q, &b.1);
        assert(self.coords() =~= all);
    }
}

} // verus!
