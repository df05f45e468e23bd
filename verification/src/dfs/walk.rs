use vstd::prelude::*;

use crate::bfs::bfs1::node_succs;
use crate::bfs::bfs2::node_path;
use crate::dfs::graph::DfsGraph;
use crate::dfs::graph::DfsKeyNode;
use crate::dfs::graph::DfsNode;
use crate::dfs::search::Frame;
use crate::dfs::search::frames_kns;

verus! {

/// What a depth-first search finds, in the order it finds them: the paths of the ends, the
/// cycles (the path before the cycle, the cycle, and the key node closing it), the budget left,
/// and whether the search completed.
pub type DfsOut<KN> = (Seq<Seq<KN>>, Seq<(Seq<KN>, Seq<KN>, KN)>, nat, bool);

/// The position on `p` of the key node with the hash node of `kn`, if there is one.
pub open spec fn hash_index<KN: DfsKeyNode>(p: Seq<KN>, kn: KN) -> Option<int> {
    if exists|i: int| 0 <= i < p.len() && (#[trigger] p[i]).spec_hash_node() == kn.spec_hash_node() {
        Some(choose|i: int| 0 <= i < p.len() && (#[trigger] p[i]).spec_hash_node() == kn.spec_hash_node())
    } else {
        None
    }
}

/// A search meeting `n`, reached by the path `p`, with `fuel` nodes left to enter: a node whose
/// key node ends the search is an end, at `p` extended by it; one whose key node's hash node is
/// on `p` closes a cycle, `p` split where that hash node sits; any other node is entered, if
/// there is fuel left, and its successors are searched on its path.
pub open spec fn dfs_visit<N: DfsNode, GE: DfsGraph<N>>(ge: &GE, p: Seq<N::KN>, n: N, fuel: nat) -> DfsOut<N::KN>
    decreases fuel, 0int, 0int,
{
    let kno = n.spec_key_node();
    if kno is Some && ge.spec_end(kno->0) {
        (seq![p.push(kno->0)], Seq::empty(), fuel, true)
    } else if kno is Some && hash_index(p, kno->0) is Some {
        let i = hash_index(p, kno->0)->0;
        (Seq::empty(), seq![(p.subrange(0, i), p.subrange(i, p.len() as int), kno->0)], fuel, true)
    } else if fuel == 0 {
        (Seq::empty(), Seq::empty(), 0, false)
    } else {
        dfs_walk(ge, node_path(p, n), node_succs(ge, n), 0, (fuel - 1) as nat)
    }
}

/// A search meeting the nodes of `s` from position `i` on, in turn, each reached by `p`,
/// stopping when the fuel runs out.
pub open spec fn dfs_walk<N: DfsNode, GE: DfsGraph<N>>(
    ge: &GE,
    p: Seq<N::KN>,
    s: Seq<N>,
    i: int,
    fuel: nat,
) -> DfsOut<N::KN>
    decreases fuel, 1int, s.len() - i,
{
    if i < 0 || i >= s.len() {
        (Seq::empty(), Seq::empty(), fuel, true)
    } else {
        let a = dfs_visit(ge, p, s[i], fuel);
        if !a.3 {
            a
        } else {
            let f2: nat = if a.2 <= fuel {
                a.2
            } else {
                fuel
            };
            let b = dfs_walk(ge, p, s, i + 1, f2);
            (a.0 + b.0, a.1 + b.1, b.2, b.3)
        }
    }
}

/// The depth-first search below `n`, reached by `p`, entering at most `fuel` nodes.
pub open spec fn dfs_search<N: DfsNode, GE: DfsGraph<N>>(ge: &GE, p: Seq<N::KN>, n: N, fuel: nat) -> DfsOut<N::KN> {
    dfs_walk(ge, p, node_succs(ge, n), 0, fuel)
}

/// What is left of a search whose frames are `st`, below the path `p0`: the rest of the top
/// frame's successors, then the rest of the frames below it.
pub open spec fn dfs_rest<N: DfsNode, GE: DfsGraph<N>>(
    ge: &GE,
    p0: Seq<N::KN>,
    st: Seq<Frame<N, N::KN>>,
    fuel: nat,
) -> DfsOut<N::KN>
    decreases st.len(),
{
    if st.len() == 0 {
        (Seq::empty(), Seq::empty(), fuel, true)
    } else {
        let top = st.last();
        let a = dfs_walk(ge, p0 + frames_kns(st), top.2@, top.3 as int, fuel);
        if !a.3 {
            a
        } else {
            let b = dfs_rest(ge, p0, st.drop_last(), a.2);
            (a.0 + b.0, a.1 + b.1, b.2, b.3)
        }
    }
}

/// A search never gains fuel, and stops short only when its fuel has run out.
pub proof fn lemma_dfs_fuel<N: DfsNode, GE: DfsGraph<N>>(ge: &GE, p: Seq<N::KN>, s: Seq<N>, i: int, fuel: nat)
    ensures
        dfs_walk(ge, p, s, i, fuel).2 <= fuel,
        !dfs_walk(ge, p, s, i, fuel).3 ==> dfs_walk(ge, p, s, i, fuel).2 == 0,
    decreases fuel, 1int, s.len() - i,
{
    if 0 <= i < s.len() {
        lemma_visit_fuel(ge, p, s[i], fuel);
        let a = dfs_visit(ge, p, s[i], fuel);
        if a.3 {
            lemma_dfs_fuel(ge, p, s, i + 1, a.2);
        }
    }
}

/// `lemma_dfs_fuel` for one node met.
pub proof fn lemma_visit_fuel<N: DfsNode, GE: DfsGraph<N>>(ge: &GE, p: Seq<N::KN>, n: N, fuel: nat)
    ensures
        dfs_visit(ge, p, n, fuel).2 <= fuel,
        !dfs_visit(ge, p, n, fuel).3 ==> dfs_visit(ge, p, n, fuel).2 == 0,
    decreases fuel, 0int, 0int,
{
    let kno = n.spec_key_node();
    if kno is Some && ge.spec_end(kno->0) {
    } else if kno is Some && hash_index(p, kno->0) is Some {
    } else if fuel == 0 {
    } else {
        lemma_dfs_fuel(ge, node_path(p, n), node_succs(ge, n), 0, (fuel - 1) as nat);
    }
}

/// The top frame's key node is what the frames put last on the path.
proof fn lemma_frames_kns_top<N, KN>(st: Seq<Frame<N, KN>>, top: Frame<N, KN>)
    ensures
        frames_kns(st.push(top)) == frames_kns(st) + match top.1 {
            Some(kn) => seq![kn],
            None => Seq::empty(),
        },
{
    assert(st.push(top).drop_last() =~= st);
}

/// A search of a single frame at the root of the path `p0` is the search of its successors.
pub proof fn lemma_rest_root<N: DfsNode, GE: DfsGraph<N>>(ge: &GE, p0: Seq<N::KN>, fr: Frame<N, N::KN>, fuel: nat)
    requires
        fr.1 is None,
    ensures
        dfs_rest(ge, p0, seq![fr], fuel) == dfs_walk(ge, p0, fr.2@, fr.3 as int, fuel),
{
    let st = seq![fr];
    lemma_frames_kns_top(Seq::<Frame<N, N::KN>>::empty(), fr);
    assert(Seq::<Frame<N, N::KN>>::empty().push(fr) =~= st);
    assert(frames_kns(Seq::<Frame<N, N::KN>>::empty()) == Seq::<N::KN>::empty());
    assert(p0 + frames_kns(st) =~= p0);
    assert(st.drop_last() =~= Seq::<Frame<N, N::KN>>::empty());
    let a = dfs_walk(ge, p0, fr.2@, fr.3 as int, fuel);
    if a.3 {
        let b = dfs_rest(ge, p0, st.drop_last(), a.2);
        assert(a.0 + b.0 =~= a.0);
        assert(a.1 + b.1 =~= a.1);
    }
}

/// A top frame with no successor left adds nothing.
pub proof fn lemma_rest_exhausted<N: DfsNode, GE: DfsGraph<N>>(
    ge: &GE,
    p0: Seq<N::KN>,
    st: Seq<Frame<N, N::KN>>,
    fuel: nat,
)
    requires
        st.len() > 0,
        st.last().3 >= st.last().2@.len(),
    ensures
        dfs_rest(ge, p0, st, fuel) == dfs_rest(ge, p0, st.drop_last(), fuel),
{
    let b = dfs_rest(ge, p0, st.drop_last(), fuel);
    assert(Seq::<Seq<N::KN>>::empty() + b.0 =~= b.0);
    assert(Seq::<(Seq<N::KN>, Seq<N::KN>, N::KN)>::empty() + b.1 =~= b.1);
}

/// Taking the next successor `n` of the top frame: what is left is what meeting `n` finds,
/// then what is left once the frame has taken it.
pub proof fn lemma_rest_take<N: DfsNode, GE: DfsGraph<N>>(
    ge: &GE,
    p0: Seq<N::KN>,
    st: Seq<Frame<N, N::KN>>,
    fr2: Frame<N, N::KN>,
    fuel: nat,
)
    requires
        st.len() > 0,
        st.last().3 < st.last().2@.len(),
        fr2.0 == st.last().0,
        fr2.1 == st.last().1,
        fr2.2 == st.last().2,
        fr2.3 == st.last().3 + 1,
    ensures
        frames_kns(st.drop_last().push(fr2)) == frames_kns(st),
        ({
            let a = dfs_visit(ge, p0 + frames_kns(st), st.last().2@[st.last().3 as int], fuel);
            dfs_rest(ge, p0, st, fuel) == if !a.3 {
                a
            } else {
                let r = dfs_rest(ge, p0, st.drop_last().push(fr2), a.2);
                (a.0 + r.0, a.1 + r.1, r.2, r.3)
            }
        }),
{
    let top = st.last();
    let st2 = st.drop_last().push(fr2);
    lemma_frames_kns_top(st.drop_last(), top);
    lemma_frames_kns_top(st.drop_last(), fr2);
    assert(st.drop_last().push(top) =~= st);
    assert(st2.drop_last() =~= st.drop_last());
    assert(st2.last() == fr2);
    let p = p0 + frames_kns(st);
    let s = top.2@;
    let i = top.3 as int;
    let a = dfs_visit(ge, p, s[i], fuel);
    lemma_visit_fuel(ge, p, s[i], fuel);
    assert(fr2.3 as int == i + 1);
    assert(fr2.2@ == s);
    assert(p0 + frames_kns(st2) == p);
    let wa = dfs_walk(ge, p, s, i, fuel);
    assert(dfs_rest(ge, p0, st, fuel) == (if !wa.3 {
        wa
    } else {
        let b = dfs_rest(ge, p0, st.drop_last(), wa.2);
        (wa.0 + b.0, wa.1 + b.1, b.2, b.3)
    }));
    if !a.3 {
        assert(wa == a);
    } else {
        let w2 = dfs_walk(ge, p, s, i + 1, a.2);
        assert(wa == (a.0 + w2.0, a.1 + w2.1, w2.2, w2.3));
        assert(dfs_rest(ge, p0, st2, a.2) == (if !w2.3 {
            w2
        } else {
            let b = dfs_rest(ge, p0, st.drop_last(), w2.2);
            (w2.0 + b.0, w2.1 + b.1, b.2, b.3)
        }));
        if w2.3 {
            let b = dfs_rest(ge, p0, st.drop_last(), w2.2);
            assert((a.0 + w2.0) + b.0 =~= a.0 + (w2.0 + b.0));
            assert((a.1 + w2.1) + b.1 =~= a.1 + (w2.1 + b.1));
        }
    }
}

/// Entering `n`, a node that neither ends the search nor closes a cycle, with fuel left: a new
/// frame for it goes on top, with one unit of fuel fewer.
pub proof fn lemma_rest_enter<N: DfsNode, GE: DfsGraph<N>>(
    ge: &GE,
    p0: Seq<N::KN>,
    st: Seq<Frame<N, N::KN>>,
    fr: Frame<N, N::KN>,
    fuel: nat,
)
    requires
        fuel > 0,
        fr.1 == fr.0.spec_key_node(),
        fr.2@ == node_succs(ge, fr.0),
        fr.3 == 0,
        !(fr.1 is Some && ge.spec_end(fr.1->0)),
        !(fr.1 is Some && hash_index(p0 + frames_kns(st), fr.1->0) is Some),
    ensures
        ({
            let a = dfs_visit(ge, p0 + frames_kns(st), fr.0, fuel);
            dfs_rest(ge, p0, st.push(fr), (fuel - 1) as nat) == if !a.3 {
                a
            } else {
                let r = dfs_rest(ge, p0, st, a.2);
                (a.0 + r.0, a.1 + r.1, r.2, r.3)
            }
        }),
{
    lemma_frames_kns_top(st, fr);
    assert(st.push(fr).drop_last() =~= st);
    let p = p0 + frames_kns(st);
    assert(p0 + frames_kns(st.push(fr)) =~= node_path(p, fr.0));
}

/// A search that completes within `f` nodes completes within any larger budget `g`, finding
/// the same ends and cycles in the same order and leaving the extra budget unused.
pub proof fn lemma_walk_more_fuel<N: DfsNode, GE: DfsGraph<N>>(
    ge: &GE,
    p: Seq<N::KN>,
    s: Seq<N>,
    i: int,
    f: nat,
    g: nat,
)
    requires
        f <= g,
        dfs_walk(ge, p, s, i, f).3,
    ensures
        ({
            let a = dfs_walk(ge, p, s, i, f);
            dfs_walk(ge, p, s, i, g) == (a.0, a.1, (a.2 + (g - f)) as nat, true)
        }),
    decreases f, 1int, s.len() - i,
{
    if 0 <= i < s.len() {
        let af = dfs_visit(ge, p, s[i], f);
        lemma_visit_more_fuel(ge, p, s[i], f, g);
        lemma_visit_fuel(ge, p, s[i], f);
        lemma_visit_fuel(ge, p, s[i], g);
        let ag = dfs_visit(ge, p, s[i], g);
        lemma_walk_more_fuel(ge, p, s, i + 1, af.2, ag.2);
    }
}

/// `lemma_walk_more_fuel` for one node met.
pub proof fn lemma_visit_more_fuel<N: DfsNode, GE: DfsGraph<N>>(ge: &GE, p: Seq<N::KN>, n: N, f: nat, g: nat)
    requires
        f <= g,
        dfs_visit(ge, p, n, f).3,
    ensures
        ({
            let a = dfs_visit(ge, p, n, f);
            dfs_visit(ge, p, n, g) == (a.0, a.1, (a.2 + (g - f)) as nat, true)
        }),
    decreases f, 0int, 0int,
{
    let kno = n.spec_key_node();
    if kno is Some && ge.spec_end(kno->0) {
    } else if kno is Some && hash_index(p, kno->0) is Some {
    } else {
        lemma_walk_more_fuel(ge, node_path(p, n), node_succs(ge, n), 0, (f - 1) as nat, (g - 1) as nat);
    }
}

} // verus!
