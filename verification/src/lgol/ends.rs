use vstd::prelude::*;

use crate::lgol::bg::LGolBgCoord;
use crate::lgol::graph::LGolHashNode;
use crate::lgol::graph::RowTuple;
use crate::lgol::lat2::LGolLat2;

verus! {

/// Which rows end a lattice search, with a label.
pub trait LGolEnds<BS, BC> {
    spec fn spec_want_justify(&self) -> bool;

    /// Whether the rows `n` end the search.
    spec fn spec_end(&self, n: LGolHashNode<BS, BC>) -> bool;

    /// Whether nodes are justified (moved to a standard position) before being tested.
    fn want_justify(&self) -> (r: bool)
        ensures
            r == self.spec_want_justify(),
    ;

    fn end(&self, lat2: &LGolLat2<BC>, n: &LGolHashNode<BS, BC>) -> (r: Option<&str>)
        ensures
            r is Some <==> self.spec_end(*n),
    ;
}

/// No rows end the search.
pub struct LGolNoEnds();

impl<BS, BC> LGolEnds<BS, BC> for LGolNoEnds {
    open spec fn spec_want_justify(&self) -> bool {
        false
    }

    open spec fn spec_end(&self, n: LGolHashNode<BS, BC>) -> bool {
        false
    }

    fn want_justify(&self) -> (r: bool) {
        false
    }

    fn end(&self, lat2: &LGolLat2<BC>, n: &LGolHashNode<BS, BC>) -> (r: Option<&str>) {
        None
    }
}

/// Ends given as patterns under masks: rows at a background position end the search when,
/// masked, they equal a pattern stored for that position and mask.
pub struct LGolMaskEnds<BS, BC> {
    entries: Vec<(BC, BS, BS, String)>,
}

/// Whether rows `rs` at `bg` match an entry: same position, and the masked rows equal its
/// pattern.
pub open spec fn mask_matches<BS: RowTuple, BC>(e: (BC, BS, BS, String), bg: BC, rs: BS) -> bool {
    &&& e.0 == bg
    &&& Seq::new(BS::spec_len(), |i: int| rs.spec_rows()[i] & e.1.spec_rows()[i]) == e.2.spec_rows()
}

impl<BS: RowTuple, BC: LGolBgCoord + Copy> LGolMaskEnds<BS, BC> {
    /// The stored ends: position, mask, pattern, label.
    pub closed spec fn view(&self) -> Seq<(BC, BS, BS, String)> {
        self.entries@
    }

    /// No two stored ends share position, mask and pattern.
    pub closed spec fn wf(&self) -> bool {
        forall|i: int, j: int|
            0 <= i < j < self.entries@.len() ==> !(#[trigger] self.entries@[i].0 == #[trigger] self.entries@[j].0
                && self.entries@[i].1 == self.entries@[j].1 && self.entries@[i].2 == self.entries@[j].2)
    }

    pub fn new() -> (r: LGolMaskEnds<BS, BC>)
        ensures
            r.wf(),
            r@.len() == 0,
    {
        LGolMaskEnds { entries: Vec::new() }
    }

    /// Stores `pat` under `mask` at `bg_coord` with label `s`, replacing the label of the same
    /// end if it was stored.  The pattern must have no bit outside the mask.
    pub fn add(&mut self, bg_coord: BC, mask: BS, pat: BS, s: String)
        requires
            old(self).wf(),
            Seq::new(BS::spec_len(), |i: int| pat.spec_rows()[i] & mask.spec_rows()[i]) == pat.spec_rows(),
        ensures
            final(self).wf(),
            ({
                let k = choose|k: int|
                    0 <= k < old(self)@.len() && old(self)@[k].0 == bg_coord && old(self)@[k].1 == mask
                        && old(self)@[k].2 == pat;
                if exists|k: int|
                    0 <= k < old(self)@.len() && old(self)@[k].0 == bg_coord && old(self)@[k].1 == mask
                        && old(self)@[k].2 == pat {
                    final(self)@ == old(self)@.update(k, (bg_coord, mask, pat, s))
                } else {
                    final(self)@ == old(self)@.push((bg_coord, mask, pat, s))
                }
            }),
    {
        let mut i: usize = 0;
        while i < self.entries.len()
            invariant
                self.entries@ == old(self).entries@,
                old(self).wf(),
                i <= self.entries@.len(),
                forall|k: int|
                    0 <= k < i ==> !(#[trigger] self.entries@[k].0 == bg_coord && self.entries@[k].1 == mask
                        && self.entries@[k].2 == pat),
            decreases self.entries@.len() - i,
        {
            let e = &self.entries[i];
            if e.0.same(&bg_coord) && e.1.same(&mask) && e.2.same(&pat) {
                proof {
                    e.1.lemma_rows_eq(mask);
                    e.2.lemma_rows_eq(pat);
                    let k = choose|k: int|
                        0 <= k < old(self)@.len() && old(self)@[k].0 == bg_coord && old(self)@[k].1 == mask
                            && old(self)@[k].2 == pat;
                    assert(old(self)@[i as int].0 == bg_coord);
                    if k != i {
                        assert(false);
                    }
                }
                self.entries.set(i, (bg_coord, mask, pat, s));
                return;
            }
            proof {
                if e.1.spec_rows() == mask.spec_rows() {
                    e.1.lemma_rows_eq(mask);
                }
                if e.2.spec_rows() == pat.spec_rows() {
                    e.2.lemma_rows_eq(pat);
                }
            }
            i = i + 1;
        }
        self.entries.push((bg_coord, mask, pat, s));
    }
}

impl<BS: RowTuple, BC: LGolBgCoord + Copy> LGolEnds<BS, BC> for LGolMaskEnds<BS, BC> {
    open spec fn spec_want_justify(&self) -> bool {
        true
    }

    /// Some stored end matches the rows.
    open spec fn spec_end(&self, n: LGolHashNode<BS, BC>) -> bool {
        exists|k: int| 0 <= k < self@.len() && mask_matches(#[trigger] self@[k], n.bg_coord, n.rs)
    }

    fn want_justify(&self) -> (r: bool) {
        true
    }

    /// The label of a stored end that the rows match, if any.
    fn end(&self, lat2: &LGolLat2<BC>, n: &LGolHashNode<BS, BC>) -> (r: Option<&str>)
        ensures
            r is None ==> forall|k: int| 0 <= k < self@.len() ==> !mask_matches(#[trigger] self@[k], n.bg_coord, n.rs),
            r matches Some(l) ==> exists|k: int|
                0 <= k < self@.len() && mask_matches(#[trigger] self@[k], n.bg_coord, n.rs) && l@ == self@[k].3@,
    {
        let mut i: usize = 0;
        while i < self.entries.len()
            invariant
                i <= self.entries@.len(),
                forall|k: int| 0 <= k < i ==> !mask_matches(#[trigger] self.entries@[k], n.bg_coord, n.rs),
            decreases self.entries@.len() - i,
        {
            let e = &self.entries[i];
            let mut rs = n.rs;
            rs.mask(&e.1);
            if e.0.same(&n.bg_coord) && rs.same(&e.2) {
                assert(mask_matches(self@[i as int], n.bg_coord, n.rs));
                return Some(e.3.as_str());
            }
            i = i + 1;
        }
        None
    }
}

} // verus!
