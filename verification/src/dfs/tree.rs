use vstd::prelude::*;

verus! {

/// A search tree: a node and how far its search has got.
pub struct Tree<N>(pub N, pub TreeStatus<N>);

/// Not searched yet; being searched, with the subtrees of its successors; or searched fully.
pub enum TreeStatus<N> {
    Unopened,
    Opened(Vec<Tree<N>>),
    Closed,
}

/// Whether the search of `t` is complete: it is closed, or opened with every subtree complete.
pub open spec fn finished<N>(t: Tree<N>) -> bool
    decreases t,
{
    match t.1 {
        TreeStatus::Unopened => false,
        TreeStatus::Opened(cs) => forall|i: int| 0 <= i < cs@.len() ==> finished(#[trigger] cs@[i]),
        TreeStatus::Closed => true,
    }
}

/// Whether `n` is `o` with every complete opened subtree closed.
pub open spec fn collapsed_from<N>(n: Tree<N>, o: Tree<N>) -> bool
    decreases o,
{
    &&& n.0 == o.0
    &&& match o.1 {
        TreeStatus::Unopened => n.1 is Unopened,
        TreeStatus::Closed => n.1 is Closed,
        TreeStatus::Opened(cs) => if finished(o) {
            n.1 is Closed
        } else {
            n.1 matches TreeStatus::Opened(ns) && ns@.len() == cs@.len() && forall|i: int|
                0 <= i < cs@.len() ==> collapsed_from(#[trigger] ns@[i], cs@[i])
        },
    }
}

/// The number of nodes of each status in `t`: unopened, opened, opened (closing), closed.
pub open spec fn tree_cts<N>(t: Tree<N>) -> (nat, nat, nat, nat)
    decreases t,
{
    match t.1 {
        TreeStatus::Unopened => (1, 0, 0, 0),
        TreeStatus::Opened(cs) => {
            let c = forest_cts(cs@);
            (c.0, c.1 + 1, c.2 + 1, c.3)
        },
        TreeStatus::Closed => (0, 0, 0, 1),
    }
}

/// The counts of a list of trees added up.
pub open spec fn forest_cts<N>(cs: Seq<Tree<N>>) -> (nat, nat, nat, nat)
    decreases cs,
{
    if cs.len() == 0 {
        (0, 0, 0, 0)
    } else {
        let a = forest_cts(cs.drop_last());
        let b = tree_cts(cs.last());
        (a.0 + b.0, a.1 + b.1, a.2 + b.2, a.3 + b.3)
    }
}

/// The nodes from the root of `t` to its first unopened node, in depth-first order, if it has
/// one.
pub open spec fn firstest<N>(t: Tree<N>) -> Option<Seq<N>>
    decreases t,
{
    match t.1 {
        TreeStatus::Unopened => Some(seq![t.0]),
        TreeStatus::Opened(cs) => match forest_firstest(cs@) {
            Some(p) => Some(seq![t.0] + p),
            None => None,
        },
        TreeStatus::Closed => None,
    }
}

/// `firstest` of the first tree of `cs` that has an unopened node.
pub open spec fn forest_firstest<N>(cs: Seq<Tree<N>>) -> Option<Seq<N>>
    decreases cs,
{
    if cs.len() == 0 {
        None
    } else {
        match firstest(cs.first()) {
            Some(p) => Some(p),
            None => forest_firstest(cs.drop_first()),
        }
    }
}

/// Counts fit in a `usize` when added to `acc`.
pub open spec fn cts_fit(acc: (usize, usize, usize, usize), c: (nat, nat, nat, nat)) -> bool {
    &&& acc.0 + c.0 <= usize::MAX
    &&& acc.1 + c.1 <= usize::MAX
    &&& acc.2 + c.2 <= usize::MAX
    &&& acc.3 + c.3 <= usize::MAX
}

/// `acc` with the counts `c` added.
pub open spec fn cts_add(acc: (usize, usize, usize, usize), c: (nat, nat, nat, nat)) -> (usize, usize, usize, usize) {
    ((acc.0 + c.0) as usize, (acc.1 + c.1) as usize, (acc.2 + c.2) as usize, (acc.3 + c.3) as usize)
}

proof fn lemma_forest_cts_prefix<N>(cs: Seq<Tree<N>>, i: int)
    requires
        0 <= i <= cs.len(),
    ensures
        forest_cts(cs.subrange(0, i)).0 <= forest_cts(cs).0,
        forest_cts(cs.subrange(0, i)).1 <= forest_cts(cs).1,
        forest_cts(cs.subrange(0, i)).2 <= forest_cts(cs).2,
        forest_cts(cs.subrange(0, i)).3 <= forest_cts(cs).3,
    decreases cs.len() - i,
{
    if i < cs.len() {
        lemma_forest_cts_prefix(cs, i + 1);
        assert(cs.subrange(0, i + 1).drop_last() =~= cs.subrange(0, i));
    } else {
        assert(cs.subrange(0, i) =~= cs);
    }
}

impl<N> Tree<N> {
    /// The number of nodes of each status: unopened, opened, opened (closing), closed.
    pub fn proxy_cts(&self) -> (r: (usize, usize, usize, usize))
        requires
            cts_fit((0, 0, 0, 0), tree_cts(*self)),
        ensures
            r == cts_add((0, 0, 0, 0), tree_cts(*self)),
    {
        let mut acc = (0, 0, 0, 0);
        self.proxy_cts_aux(&mut acc);
        acc
    }

    fn proxy_cts_aux(&self, acc: &mut (usize, usize, usize, usize))
        requires
            cts_fit(*old(acc), tree_cts(*self)),
        ensures
            *final(acc) == cts_add(*old(acc), tree_cts(*self)),
        decreases self,
    {
        match &self.1 {
            TreeStatus::Unopened => {
                acc.0 = acc.0 + 1;
            },
            TreeStatus::Opened(children) => {
                acc.1 = acc.1 + 1;
                let ghost a1 = *acc;
                let mut i: usize = 0;
                while i < children.len()
                    invariant
                        self.1 == TreeStatus::Opened(*children),
                        i <= children@.len(),
                        cts_fit(a1, forest_cts(children@)),
                        a1.2 + 1 + forest_cts(children@).2 <= usize::MAX,
                        *acc == cts_add(a1, forest_cts(children@.subrange(0, i as int))),
                    decreases children@.len() - i,
                {
                    proof {
                        lemma_forest_cts_prefix(children@, i + 1);
                        assert(children@.subrange(0, i + 1).drop_last() =~= children@.subrange(0, i as int));
                        assert(self.1->Opened_0 == *children);
                        assert(decreases_to!(self.1 => self.1->Opened_0));
                        assert(decreases_to!(*self => children@[i as int]));
                    }
                    children[i].proxy_cts_aux(acc);
                    i = i + 1;
                }
                assert(children@.subrange(0, children@.len() as int) =~= children@);
                acc.2 = acc.2 + 1;
            },
            TreeStatus::Closed => {
                acc.3 = acc.3 + 1;
            },
        }
    }
}

/// Closes every opened subtree whose search is complete; says whether the whole search is.
pub fn collapse<N>(tree: &mut Tree<N>) -> (r: bool)
    ensures
        r == finished(*old(tree)),
        collapsed_from(*final(tree), *old(tree)),
    decreases *old(tree),
{
    let ghost t0 = *tree;
    let mut cs: Vec<Tree<N>> = Vec::new();
    match &mut tree.1 {
        TreeStatus::Unopened => {
            return false;
        },
        TreeStatus::Closed => {
            return true;
        },
        TreeStatus::Opened(children) => {
            std::mem::swap(&mut cs, children);
        },
    }
    let ghost cs0 = cs@;
    let n0 = cs.len();
    assert(t0.1 matches TreeStatus::Opened(v) && v@ == cs0);
    let mut ns: Vec<Tree<N>> = Vec::new();
    let mut fin = true;
    let mut i: usize = 0;
    while cs.len() > 0
        invariant
            t0.1 matches TreeStatus::Opened(v) && v@ == cs0,
            t0 == *old(tree),
            n0 == cs0.len(),
            i + cs@.len() == cs0.len(),
            cs@ == cs0.subrange(i as int, cs0.len() as int),
            ns@.len() == i,
            forall|k: int| 0 <= k < i ==> collapsed_from(#[trigger] ns@[k], cs0[k]),
            fin == forall|k: int| 0 <= k < i ==> finished(#[trigger] cs0[k]),
        decreases cs@.len(),
    {
        let mut c = cs.remove(0);
        assert(c == cs0[i as int]);
        proof {
            assert(decreases_to!(t0 => cs0[i as int]));
        }
        let f = collapse(&mut c);
        ns.push(c);
        fin = fin && f;
        i = i + 1;
    }
    if fin {
        tree.1 = TreeStatus::Closed;
    } else {
        tree.1 = TreeStatus::Opened(ns);
    }
    fin
}

/// The nodes from the root to the first unopened node, in depth-first order; empty when every
/// node is opened or closed.
pub fn find_firstest<N: Copy>(tree: &Tree<N>) -> (r: Vec<N>)
    ensures
        r@ == match firstest(*tree) {
            Some(p) => p,
            None => Seq::empty(),
        },
{
    let mut r = Vec::new();
    find_firstest_aux(tree, &mut r);
    r
}

fn find_firstest_aux<N: Copy>(tree: &Tree<N>, acc: &mut Vec<N>) -> (r: bool)
    ensures
        r == firstest(*tree) is Some,
        match firstest(*tree) {
            Some(p) => final(acc)@ == old(acc)@ + p,
            None => final(acc)@ == old(acc)@,
        },
    decreases tree,
{
    acc.push(tree.0);
    match &tree.1 {
        TreeStatus::Unopened => {
            return true;
        },
        TreeStatus::Opened(children) => {
            let mut i: usize = 0;
            assert(children@.subrange(0, children@.len() as int) =~= children@);
            while i < children.len()
                invariant
                    tree.1 == TreeStatus::Opened(*children),
                    i <= children@.len(),
                    acc@ == old(acc)@.push(tree.0),
                    forest_firstest(children@) == forest_firstest(children@.subrange(i as int, children@.len() as int)),
                decreases children@.len() - i,
            {
                let ghost rest = children@.subrange(i as int, children@.len() as int);
                assert(rest.first() == children@[i as int]);
                assert(rest.drop_first() =~= children@.subrange(i + 1, children@.len() as int));
                proof {
                    assert(decreases_to!(*tree => children@[i as int]));
                }
                if find_firstest_aux(&children[i], acc) {
                    return true;
                }
                i = i + 1;
            }
            assert(children@.subrange(i as int, children@.len() as int) =~= Seq::<Tree<N>>::empty());
        },
        TreeStatus::Closed => {},
    }
    acc.pop();
    assert(acc@ =~= old(acc)@);
    false
}

} // verus!
