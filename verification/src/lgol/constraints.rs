use vstd::prelude::*;

verus! {

/// A constraint on the cells of a lattice search, checked cell by cell as a row is built: a
/// state `S` is carried along the row, starting from `zero_stat`, and `add_stat` gives the
/// state after one more cell, or nothing where the cell breaks the constraint.
pub trait LGolConstraint<BC>: Sized {
    type S;

    spec fn spec_zero_stat(&self) -> Self::S;

    spec fn spec_add_stat(&self, s0: Self::S, bg_coord: BC, r: u64, idx: usize, v: bool) -> Option<Self::S>;

    /// The state at the start of a row.
    fn zero_stat(&self) -> (r: Self::S)
        ensures
            r == self.spec_zero_stat(),
    ;

    /// The state after cell `idx` of the row `r` is set to `v`, at background position
    /// `bg_coord`.
    fn add_stat(&self, s0: Self::S, bg_coord: BC, r: u64, idx: usize, v: bool) -> (o: Option<Self::S>)
        ensures
            o == self.spec_add_stat(s0, bg_coord, r, idx, v),
    ;
}

/// No constraint.
impl<BC> LGolConstraint<BC> for () {
    type S = ();

    open spec fn spec_zero_stat(&self) -> () {
        ()
    }

    open spec fn spec_add_stat(&self, s0: (), bg_coord: BC, r: u64, idx: usize, v: bool) -> Option<()> {
        Some(())
    }

    fn zero_stat(&self) -> (r: ()) {
    }

    fn add_stat(&self, s0: (), bg_coord: BC, r: u64, idx: usize, v: bool) -> (o: Option<()>) {
        Some(())
    }
}

/// Both constraints, each with its own state.
impl<BC: Copy, CS1: LGolConstraint<BC>, CS2: LGolConstraint<BC>> LGolConstraint<BC> for (CS1, CS2) {
    type S = (CS1::S, CS2::S);

    open spec fn spec_zero_stat(&self) -> (CS1::S, CS2::S) {
        (self.0.spec_zero_stat(), self.1.spec_zero_stat())
    }

    open spec fn spec_add_stat(&self, s0: (CS1::S, CS2::S), bg_coord: BC, r: u64, idx: usize, v: bool) -> Option<(CS1::S, CS2::S)> {
        match (self.0.spec_add_stat(s0.0, bg_coord, r, idx, v), self.1.spec_add_stat(s0.1, bg_coord, r, idx, v)) {
            (Some(a), Some(b)) => Some((a, b)),
            _ => None,
        }
    }

    fn zero_stat(&self) -> (r: (CS1::S, CS2::S)) {
        (self.0.zero_stat(), self.1.zero_stat())
    }

    fn add_stat(&self, s0: (CS1::S, CS2::S), bg_coord: BC, r: u64, idx: usize, v: bool) -> (o: Option<(CS1::S, CS2::S)>) {
        let a = match self.0.add_stat(s0.0, bg_coord, r, idx, v) {
            Some(s) => s,
            None => {
                return None;
            },
        };
        let b = match self.1.add_stat(s0.1, bg_coord, r, idx, v) {
            Some(s) => s,
            None => {
                return None;
            },
        };
        Some((a, b))
    }
}

} // verus!
