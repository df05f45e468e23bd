use vstd::prelude::*;

verus! {

/// A tuple seen as its leading items and its last item.
pub trait TupleEnd: Sized {
    type F;
    type B;

    /// The tuple made of the leading items `f` followed by `b`.
    spec fn spec_join_end(f: Self::F, b: Self::B) -> Self;

    fn split_tuple_end(zelf: Self) -> (r: (Self::F, Self::B))
        ensures
            Self::spec_join_end(r.0, r.1) == zelf,
    ;

    fn join_tuple_end(f: Self::F, b: Self::B) -> (r: Self)
        ensures
            r == Self::spec_join_end(f, b),
    ;
}

impl<Z> TupleEnd for (Z,) {
    type F = ();
    type B = Z;

    open spec fn spec_join_end(f: (), b: Z) -> (Z,) {
        (b,)
    }

    fn split_tuple_end(zelf: (Z,)) -> (r: ((), Z)) {
        let (z,) = zelf;
        ((), z)
    }

    fn join_tuple_end(f: (), b: Z) -> (r: (Z,)) {
        (b,)
    }
}

impl<A, Z> TupleEnd for (A, Z) {
    type F = (A,);
    type B = Z;

    open spec fn spec_join_end(f: (A,), b: Z) -> (A, Z) {
        (f.0, b)
    }

    fn split_tuple_end(zelf: (A, Z)) -> (r: ((A,), Z)) {
        let (a, z) = zelf;
        ((a,), z)
    }

    fn join_tuple_end(f: (A,), b: Z) -> (r: (A, Z)) {
        let (a,) = f;
        (a, b)
    }
}

impl<A, B, Z> TupleEnd for (A, B, Z) {
    type F = (A, B);
    type B = Z;

    open spec fn spec_join_end(f: (A, B), b: Z) -> (A, B, Z) {
        (f.0, f.1, b)
    }

    fn split_tuple_end(zelf: (A, B, Z)) -> (r: ((A, B), Z)) {
        let (a, b, z) = zelf;
        ((a, b), z)
    }

    fn join_tuple_end(f: (A, B), b: Z) -> (r: (A, B, Z)) {
        let (a, bb) = f;
        (a, bb, b)
    }
}

/// A tuple seen as its first item and its trailing items.
pub trait TupleStart: Sized {
    type F;
    type B;

    /// The tuple made of `f` followed by the trailing items `b`.
    spec fn spec_join_start(f: Self::F, b: Self::B) -> Self;

    fn split_tuple_start(zelf: Self) -> (r: (Self::F, Self::B))
        ensures
            Self::spec_join_start(r.0, r.1) == zelf,
    ;

    fn join_tuple_start(f: Self::F, b: Self::B) -> (r: Self)
        ensures
            r == Self::spec_join_start(f, b),
    ;
}

impl<Z> TupleStart for (Z,) {
    type F = Z;
    type B = ();

    open spec fn spec_join_start(f: Z, b: ()) -> (Z,) {
        (f,)
    }

    fn split_tuple_start(zelf: (Z,)) -> (r: (Z, ())) {
        let (z,) = zelf;
        (z, ())
    }

    fn join_tuple_start(f: Z, b: ()) -> (r: (Z,)) {
        (f,)
    }
}

impl<Z, A> TupleStart for (Z, A) {
    type F = Z;
    type B = (A,);

    open spec fn spec_join_start(f: Z, b: (A,)) -> (Z, A) {
        (f, b.0)
    }

    fn split_tuple_start(zelf: (Z, A)) -> (r: (Z, (A,))) {
        let (z, a) = zelf;
        (z, (a,))
    }

    fn join_tuple_start(f: Z, b: (A,)) -> (r: (Z, A)) {
        let (a,) = b;
        (f, a)
    }
}

impl<Z, A, B> TupleStart for (Z, A, B) {
    type F = Z;
    type B = (A, B);

    open spec fn spec_join_start(f: Z, b: (A, B)) -> (Z, A, B) {
        (f, b.0, b.1)
    }

    fn split_tuple_start(zelf: (Z, A, B)) -> (r: (Z, (A, B))) {
        let (z, a, b) = zelf;
        (z, (a, b))
    }

    fn join_tuple_start(f: Z, b: (A, B)) -> (r: (Z, A, B)) {
        let (a, bb) = b;
        (f, a, bb)
    }
}

} // verus!
