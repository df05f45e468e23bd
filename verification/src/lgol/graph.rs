use vstd::prelude::*;

use crate::dfs::graph::DfsKeyNode;
use crate::dfs::graph::DfsNode;
use crate::lgol::bg::LGolBgCoord;

verus! {

/// The finished rows of a lattice search node, newest first, as a fixed-size array.
pub trait RowTuple: Sized + Copy {
    spec fn spec_len() -> nat;

    spec fn spec_rows(&self) -> Seq<u64>;

    proof fn lemma_rows_len(&self)
        ensures
            self.spec_rows().len() == Self::spec_len(),
    ;

    /// Values with the same rows are equal.
    proof fn lemma_rows_eq(&self, other: Self)
        requires
            self.spec_rows() == other.spec_rows(),
        ensures
            *self == other,
    ;

    fn len() -> (r: usize)
        ensures
            r == Self::spec_len(),
    ;

    fn zero() -> (r: Self)
        ensures
            r.spec_rows() == Seq::new(Self::spec_len(), |i: int| 0u64),
    ;

    fn get(&self, j: usize) -> (r: u64)
        requires
            j < Self::spec_len(),
        ensures
            r == self.spec_rows()[j as int],
    ;

    fn set(&mut self, j: usize, r: u64)
        requires
            j < Self::spec_len(),
        ensures
            final(self).spec_rows() == old(self).spec_rows().update(j as int, r),
    ;

    /// Keeps only the bits that `other` has, row by row.
    fn mask(&mut self, other: &Self)
        ensures
            final(self).spec_rows() == Seq::new(
                Self::spec_len(),
                |i: int| old(self).spec_rows()[i] & other.spec_rows()[i],
            ),
    ;

    /// Whether the rows are equal.
    fn same(&self, other: &Self) -> (r: bool)
        ensures
            r == (self.spec_rows() == other.spec_rows()),
    ;
}

impl<const N: usize> RowTuple for [u64; N] {
    open spec fn spec_len() -> nat {
        N as nat
    }

    open spec fn spec_rows(&self) -> Seq<u64> {
        self@
    }

    proof fn lemma_rows_len(&self) {
    }

    proof fn lemma_rows_eq(&self, other: [u64; N]) {
        assert(*self =~= other);
    }

    fn len() -> (r: usize) {
        N
    }

    fn zero() -> (r: [u64; N]) {
        let r = [0u64; N];
        assert(r@ =~= Seq::new(N as nat, |i: int| 0u64));
        r
    }

    fn get(&self, j: usize) -> (r: u64) {
        self[j]
    }

    fn set(&mut self, j: usize, r: u64) {
        self[j] = r;
    }

    fn mask(&mut self, other: &[u64; N]) {
        let ghost o = self@;
        let mut i: usize = 0;
        while i < N
            invariant
                i <= N,
                self@.len() == N,
                forall|k: int| 0 <= k < i ==> #[trigger] self@[k] == o[k] & other@[k],
                forall|k: int| i <= k < N ==> #[trigger] self@[k] == o[k],
            decreases N - i,
        {
            let m = other[i];
            let v = self[i];
            self[i] = v & m;
            i = i + 1;
        }
        assert(self@ =~= Seq::new(N as nat, |k: int| o[k] & other@[k]));
    }

    fn same(&self, other: &[u64; N]) -> (r: bool) {
        let mut i: usize = 0;
        while i < N
            invariant
                i <= N,
                forall|k: int| 0 <= k < i ==> self@[k] == other@[k],
            decreases N - i,
        {
            if self[i] != other[i] {
                return false;
            }
            i = i + 1;
        }
        assert(self@ =~= other@);
        true
    }
}

/// The part of a key node that repeats along a cycle: the background position and the rows.
#[derive(Clone, Copy, PartialEq, Eq, Structural, Debug)]
pub struct LGolHashNode<BS, BC> {
    pub bg_coord: BC,
    pub rs: BS,
}

/// A node of a lattice search: the finished rows `r0s` at background position `bg_coord` and
/// lattice offset `(du, dv)`, and the row `r1` being built, whose first `r1l` cells are decided,
/// with the constraint state `r1_css` of those cells.
#[derive(Clone, Copy, PartialEq, Eq, Structural, Debug)]
pub struct LGolNode<BS, BC, CSS> {
    pub bg_coord: BC,
    pub du: i16,
    pub dv: i16,
    pub r0s: BS,
    pub r1: u64,
    pub r1l: u8,
    pub r1_css: CSS,
}

/// The part of a lattice node that names a point of the search.
#[derive(Clone, Copy, PartialEq, Eq, Structural, Debug)]
pub struct LGolKeyNode<BS, BC> {
    pub bg_coord: BC,
    pub du: i16,
    pub dv: i16,
    pub rs: BS,
}

impl<BS: Copy, BC: Copy> LGolKeyNode<BS, BC> {
    /// The rows and background position, wherever the node sits.
    pub fn lgol_hash_node(&self) -> (r: LGolHashNode<BS, BC>)
        ensures
            r == (LGolHashNode { bg_coord: self.bg_coord, rs: self.rs }),
    {
        LGolHashNode { bg_coord: self.bg_coord, rs: self.rs }
    }
}

impl<BS: RowTuple, BC: LGolBgCoord + Copy> DfsKeyNode for LGolKeyNode<BS, BC> {
    type HN = LGolHashNode<BS, BC>;

    open spec fn spec_hash_node(&self) -> Option<LGolHashNode<BS, BC>> {
        Some(LGolHashNode { bg_coord: self.bg_coord, rs: self.rs })
    }

    fn hash_node(&self) -> (r: Option<LGolHashNode<BS, BC>>) {
        Some(self.lgol_hash_node())
    }

    fn same_hash_node(&self, other: &LGolKeyNode<BS, BC>) -> (r: bool) {
        let r = self.bg_coord.same(&other.bg_coord) && self.rs.same(&other.rs);
        proof {
            if self.rs.spec_rows() == other.rs.spec_rows() {
                self.rs.lemma_rows_eq(other.rs);
            }
        }
        r
    }
}

impl<BS: RowTuple, BC: LGolBgCoord + Copy, CSS> DfsNode for LGolNode<BS, BC, CSS> {
    type KN = LGolKeyNode<BS, BC>;

    open spec fn spec_key_node(&self) -> Option<LGolKeyNode<BS, BC>> {
        if self.r1l != 0 {
            None
        } else {
            Some(LGolKeyNode { bg_coord: self.bg_coord, du: self.du, dv: self.dv, rs: self.r0s })
        }
    }

    fn key_node(&self) -> (r: Option<LGolKeyNode<BS, BC>>) {
        if self.r1l != 0 {
            return None;
        }
        Some(LGolKeyNode { bg_coord: self.bg_coord, du: self.du, dv: self.dv, rs: self.r0s })
    }
}

} // verus!
