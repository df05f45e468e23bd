use vstd::prelude::*;

verus! {

/// A key node as stored on search paths; its hash node is what cycles are detected by.
pub trait DfsKeyNode: Sized {
    type HN;

    spec fn spec_hash_node(&self) -> Option<Self::HN>;

    fn hash_node(&self) -> (r: Option<Self::HN>)
        ensures
            r == self.spec_hash_node(),
    ;

    /// Whether two key nodes have equal hash nodes.
    fn same_hash_node(&self, other: &Self) -> (r: bool)
        ensures
            r == (self.spec_hash_node() == other.spec_hash_node()),
    ;
}

/// A node of a search; the nodes that complete a row have a key node.
pub trait DfsNode: Sized {
    type KN: DfsKeyNode;

    spec fn spec_key_node(&self) -> Option<Self::KN>;

    fn key_node(&self) -> (r: Option<Self::KN>)
        ensures
            r == self.spec_key_node(),
    ;
}

/// A search graph: how a node expands, and which key nodes end a search.
pub trait DfsGraph<N: DfsNode> {
    /// The graph is well formed.
    spec fn spec_wf(&self) -> bool;

    /// Nodes the graph can expand.
    spec fn spec_node_ok(&self, n: N) -> bool;

    spec fn spec_expand(&self, n: N) -> Seq<N>;

    spec fn spec_end(&self, kn: N::KN) -> bool;

    /// The label of an end at `kn`.
    spec fn spec_end_label(&self, kn: N::KN) -> Seq<char>;

    /// Whether the graph can expand `n`.
    fn can_expand(&self, n: &N) -> (r: bool)
        requires
            self.spec_wf(),
        ensures
            r == self.spec_node_ok(*n),
    ;

    fn expand(&self, n: &N) -> (r: Vec<N>)
        requires
            self.spec_wf(),
            self.spec_node_ok(*n),
        ensures
            r@ == self.spec_expand(*n),
    ;

    fn end(&self, kn: &N::KN) -> (r: Option<&str>)
        requires
            self.spec_wf(),
        ensures
            r is Some <==> self.spec_end(*kn),
            r matches Some(l) ==> l@ == self.spec_end_label(*kn),
    ;
}

/// Every end of `ends` has a path, labelled as the graph labels an end at its last key node.
pub open spec fn ends_labelled<N: DfsNode, GE: DfsGraph<N>>(ge: &GE, ends: Seq<(Vec<N::KN>, String)>) -> bool {
    forall|i: int|
        0 <= i < ends.len() ==> (#[trigger] ends[i]).0@.len() > 0 && ends[i].1@ == ge.spec_end_label(
            ends[i].0@.last(),
        )
}

} // verus!
