use vstd::prelude::*;

verus! {

/// What a search found: cycles (path into the cycle, the cycle, the node closing it) and ends
/// (path, label).
pub struct DfsRes<N> {
    pub cycles: Vec<(Vec<N>, Vec<N>, N)>,
    pub ends: Vec<(Vec<N>, String)>,
}

impl<N> DfsRes<N> {
    pub fn new() -> (r: DfsRes<N>)
        ensures
            r.cycles@.len() == 0,
            r.ends@.len() == 0,
    {
        DfsRes { cycles: Vec::new(), ends: Vec::new() }
    }

    pub fn add_cycle(&mut self, path: Vec<N>, cycle: Vec<N>, last: N)
        ensures
            final(self).cycles@ == old(self).cycles@.push((path, cycle, last)),
            final(self).ends@ == old(self).ends@,
    {
        self.cycles.push((path, cycle, last));
    }

    pub fn add_end(&mut self, path: Vec<N>, label: String)
        ensures
            final(self).ends@ == old(self).ends@.push((path, label)),
            final(self).cycles@ == old(self).cycles@,
    {
        self.ends.push((path, label));
    }

    /// Moves everything `other` found into `self`, after what `self` already holds.
    pub fn append(&mut self, other: &mut DfsRes<N>)
        ensures
            final(self).cycles@ == old(self).cycles@ + old(other).cycles@,
            final(self).ends@ == old(self).ends@ + old(other).ends@,
            final(other).cycles@.len() == 0,
            final(other).ends@.len() == 0,
    {
        self.cycles.append(&mut other.cycles);
        self.ends.append(&mut other.ends);
    }
}

} // verus!
