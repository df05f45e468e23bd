use vstd::prelude::*;

verus! {

/// One of two values.
#[derive(Debug)]
pub enum Either<L, R> {
    Right(R),
    Left(L),
}

impl<L, R> Either<L, R> {
    /// Turns a left value into a right one with `f` (a right value is kept), and lends the right
    /// value out.
    #[verifier::loop_isolation(false)]
    pub fn convert_r_mut(&mut self, f: impl FnOnce(&L) -> R) -> (r: &mut R)
        requires
            *old(self) matches Either::Left(l) ==> call_requires(f, (&l,)),
        ensures
            *final(self) == Either::<L, R>::Right(*final(r)),
            match *old(self) {
                Either::Right(x) => *r == x,
                Either::Left(l) => call_ensures(f, (&l,), *r),
            },
    {
        let new_r = match self {
            Either::Right(r) => {
                return r;
            },
            Either::Left(l) => f(l),
        };
        *self = Either::Right(new_r);
        match self {
            Either::Right(r) => r,
            Either::Left(_l) => {
                loop
                    decreases 0nat,
                {
                }
            },
        }
    }

    /// Applies `f` to a left value.
    pub fn map_left<L2>(self, f: impl FnOnce(L) -> L2) -> (r: Either<L2, R>)
        requires
            self matches Either::Left(l) ==> call_requires(f, (l,)),
        ensures
            match self {
                Either::Left(l) => r matches Either::Left(l2) && call_ensures(f, (l,), l2),
                Either::Right(x) => r == Either::<L2, R>::Right(x),
            },
    {
        match self {
            Either::Left(l) => Either::Left(f(l)),
            Either::Right(r) => Either::Right(r),
        }
    }

    /// Applies `f` to a right value.
    pub fn map_right<R2>(self, f: impl FnOnce(R) -> R2) -> (r: Either<L, R2>)
        requires
            self matches Either::Right(x) ==> call_requires(f, (x,)),
        ensures
            match self {
                Either::Left(l) => r == Either::<L, R2>::Left(l),
                Either::Right(x) => r matches Either::Right(x2) && call_ensures(f, (x,), x2),
            },
    {
        match self {
            Either::Left(l) => Either::Left(l),
            Either::Right(r) => Either::Right(f(r)),
        }
    }
}

impl<T> Either<T, T> {
    /// The value, whichever side it is on.
    pub fn join(self) -> (r: T)
        ensures
            match self {
                Either::Left(t) => r == t,
                Either::Right(t) => r == t,
            },
    {
        match self {
            Either::Left(t) => t,
            Either::Right(t) => t,
        }
    }
}

} // verus!
