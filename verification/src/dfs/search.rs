use vstd::prelude::*;

use crate::bfs::bfs1::node_succs;
use crate::bfs::bfs2::cycle_views;
use crate::bfs::bfs2::end_paths;
use crate::dfs::walk::dfs_rest;
use crate::dfs::walk::dfs_search;
use crate::dfs::walk::dfs_visit;
use crate::dfs::walk::hash_index;
use crate::dfs::walk::lemma_rest_enter;
use crate::dfs::walk::lemma_rest_exhausted;
use crate::dfs::walk::lemma_rest_root;
use crate::dfs::walk::lemma_rest_take;
use crate::dfs::graph::DfsGraph;
use crate::dfs::graph::DfsKeyNode;
use crate::dfs::graph::DfsNode;
use crate::dfs::res::DfsRes;
use crate::dfs::tree::Tree;
use crate::dfs::tree::TreeStatus;
use crate::dfs::tree::firstest;
use crate::dfs::tree::forest_firstest;
use crate::text::string_of;

verus! {

/// The key nodes on the way from the root of a search to where it is, no two with the same hash
/// node.
pub struct Path<KN> {
    vec: Vec<KN>,
}

impl<KN: DfsKeyNode + Copy> Path<KN> {
    pub closed spec fn view(&self) -> Seq<KN> {
        self.vec@
    }

    /// No two key nodes of the path share a hash node.
    pub open spec fn wf(&self) -> bool {
        forall|i: int, j: int|
            0 <= i < j < self@.len() ==> (#[trigger] self@[i]).spec_hash_node() != (#[trigger] self@[j]).spec_hash_node()
    }

    pub fn new() -> (r: Path<KN>)
        ensures
            r@ == Seq::<KN>::empty(),
            r.wf(),
    {
        Path { vec: Vec::new() }
    }

    /// The position of the key node with the hash node of `kn`, if there is one; otherwise
    /// `kn` is added at the end.
    pub fn find_or_push(&mut self, kn: &KN) -> (r: Option<usize>)
        requires
            old(self).wf(),
        ensures
            final(self).wf(),
            match r {
                Some(i) => i < old(self)@.len() && old(self)@[i as int].spec_hash_node() == kn.spec_hash_node()
                    && final(self)@ == old(self)@,
                None => (forall|i: int|
                    0 <= i < old(self)@.len() ==> (#[trigger] old(self)@[i]).spec_hash_node() != kn.spec_hash_node())
                    && final(self)@ == old(self)@.push(*kn),
            },
    {
        let mut i: usize = 0;
        while i < self.vec.len()
            invariant
                old(self).wf(),
                i <= self@.len(),
                self@ == old(self)@,
                forall|k: int| 0 <= k < i ==> (#[trigger] self@[k]).spec_hash_node() != kn.spec_hash_node(),
            decreases self@.len() - i,
        {
            if self.vec[i].same_hash_node(kn) {
                return Some(i);
            }
            i = i + 1;
        }
        self.vec.push(*kn);
        proof {
            assert forall|a: int, b: int| 0 <= a < b < self@.len() implies (#[trigger] self@[a]).spec_hash_node()
                != (#[trigger] self@[b]).spec_hash_node() by {
                if b == self@.len() - 1 {
                    assert(self@[a] == old(self)@[a]);
                } else {
                    assert(self@[a] == old(self)@[a] && self@[b] == old(self)@[b]);
                }
            }
        }
        None
    }

    /// Adds `kn` unless its hash node is on the path; says whether it was added.
    pub fn push(&mut self, kn: &KN) -> (r: bool)
        requires
            old(self).wf(),
        ensures
            final(self).wf(),
            r == forall|i: int| 0 <= i < old(self)@.len() ==> (#[trigger] old(self)@[i]).spec_hash_node() != kn.spec_hash_node(),
            r ==> final(self)@ == old(self)@.push(*kn),
            !r ==> final(self)@ == old(self)@,
    {
        !self.find_or_push(kn).is_some()
    }

    /// Takes the last key node off the path.
    pub fn pop(&mut self)
        requires
            old(self).wf(),
        ensures
            final(self).wf(),
            final(self)@ == (if old(self)@.len() > 0 {
                old(self)@.drop_last()
            } else {
                old(self)@
            }),
    {
        let _ = self.vec.pop();
    }

    /// Another path with the same key nodes.
    pub fn copy(&self) -> (r: Path<KN>)
        ensures
            r@ == self@,
    {
        Path { vec: self.to_vec() }
    }

    /// A copy of the key nodes.
    pub fn to_vec(&self) -> (r: Vec<KN>)
        ensures
            r@ == self@,
    {
        let mut r: Vec<KN> = Vec::new();
        let mut k: usize = 0;
        while k < self.vec.len()
            invariant
                k <= self@.len(),
                r@ == self@.subrange(0, k as int),
            decreases self@.len() - k,
        {
            r.push(self.vec[k]);
            k = k + 1;
        }
        assert(r@ =~= self@);
        r
    }

    /// The key nodes before position `i`, and from it on.
    pub fn split(&self, i: usize) -> (r: (Vec<KN>, Vec<KN>))
        requires
            i <= self@.len(),
        ensures
            r.0@ == self@.subrange(0, i as int),
            r.1@ == self@.subrange(i as int, self@.len() as int),
    {
        let mut a: Vec<KN> = Vec::new();
        let mut b: Vec<KN> = Vec::new();
        let mut k: usize = 0;
        while k < self.vec.len()
            invariant
                k <= self@.len(),
                i <= self@.len(),
                k <= i ==> a@ == self@.subrange(0, k as int) && b@.len() == 0,
                k > i ==> a@ == self@.subrange(0, i as int) && b@ == self@.subrange(i as int, k as int),
            decreases self@.len() - k,
        {
            if k < i {
                a.push(self.vec[k]);
            } else {
                b.push(self.vec[k]);
            }
            k = k + 1;
        }
        assert(b@ =~= self@.subrange(i as int, self@.len() as int));
        (a, b)
    }
}

/// A frame of the search: a node entered, the key node it put on the path if any, its
/// successors, and how many of them were taken.
pub type Frame<N, KN> = (N, Option<KN>, Vec<N>, usize);

/// The work left in the frames: one for each frame and each successor not taken yet.
pub open spec fn frames_weight<N, KN>(s: Seq<Frame<N, KN>>) -> nat
    decreases s.len(),
{
    if s.len() == 0 {
        0
    } else {
        frames_weight(s.drop_last()) + ((s.last().2@.len() - s.last().3) as nat) + 1
    }
}

/// The key nodes the frames put on the path, in order.
pub open spec fn frames_kns<N, KN>(s: Seq<Frame<N, KN>>) -> Seq<KN>
    decreases s.len(),
{
    if s.len() == 0 {
        Seq::empty()
    } else {
        frames_kns(s.drop_last()) + match s.last().1 {
            Some(kn) => seq![kn],
            None => Seq::empty(),
        }
    }
}

/// The successors of `n`, none when the graph cannot expand it.
fn successors<N: DfsNode, GE: DfsGraph<N>>(ge: &GE, n: &N) -> (r: Vec<N>)
    requires
        ge.spec_wf(),
    ensures
        r@ == (if ge.spec_node_ok(*n) {
            ge.spec_expand(*n)
        } else {
            Seq::<N>::empty()
        }),
{
    if ge.can_expand(n) {
        ge.expand(n)
    } else {
        Vec::new()
    }
}

/// An end found: a path whose last key node ends the search, with the label of that end.
pub open spec fn end_ok<N: DfsNode, GE: DfsGraph<N>>(ge: &GE, e: (Vec<N::KN>, String)) -> bool {
    e.0@.len() > 0 && ge.spec_end(e.0@.last()) && e.1@ == ge.spec_end_label(e.0@.last())
}

/// What a search found since `old_res`: every end found is a path whose last key node ends the
/// search, and every cycle found starts at a key node with the hash node of the one closing it.
pub open spec fn found_ok<N: DfsNode, GE: DfsGraph<N>>(ge: &GE, res: &DfsRes<N::KN>, old_res: &DfsRes<N::KN>) -> bool {
    &&& old_res.ends@.len() <= res.ends@.len()
    &&& old_res.cycles@.len() <= res.cycles@.len()
    &&& res.ends@.subrange(0, old_res.ends@.len() as int) == old_res.ends@
    &&& res.cycles@.subrange(0, old_res.cycles@.len() as int) == old_res.cycles@
    &&& forall|i: int| old_res.ends@.len() <= i < res.ends@.len() ==> end_ok(ge, #[trigger] res.ends@[i])
    &&& forall|i: int|
        old_res.cycles@.len() <= i < res.cycles@.len() ==> (#[trigger] res.cycles@[i]).1@.len() > 0
            && res.cycles@[i].1@[0].spec_hash_node() == res.cycles@[i].2.spec_hash_node()
}

/// `t` is opened on the successors `succ` from some position on: its first child is the one
/// being searched, the ones after it are unopened.
pub open spec fn opened_on<N>(t: Tree<N>, succ: Seq<N>) -> bool {
    t.1 matches TreeStatus::Opened(cs) && exists|s: int| #[trigger] children_from(cs@, succ, s)
}

/// The children `cs` are for the successors `succ` from position `s` on, all unopened but the
/// first.
pub open spec fn children_from<N>(cs: Seq<Tree<N>>, succ: Seq<N>, s: int) -> bool {
    &&& 0 <= s < succ.len()
    &&& cs.len() == succ.len() - s
    &&& forall|i: int| 0 <= i < cs.len() ==> (#[trigger] cs[i]).0 == succ[s + i]
    &&& forall|i: int| 1 <= i < cs.len() ==> (#[trigger] cs[i]).1 is Unopened
}

/// Each frame but the top one has taken a successor, and the frame above it is that successor's.
pub open spec fn frames_linked<N, KN>(st: Seq<Frame<N, KN>>) -> bool {
    forall|k: int| 0 <= k < st.len() - 1 ==> (#[trigger] st[k]).3 >= 1 && st[k + 1].0 == st[k].2@[st[k].3 - 1]
}

/// Every end and every cycle that `res` found after `old_res` lies on a path that goes on from
/// `p0`: an end's path, and a cycle's path before the cycle followed by the cycle.
pub open spec fn found_below<KN>(res: &DfsRes<KN>, old_res: &DfsRes<KN>, p0: Seq<KN>) -> bool {
    &&& forall|i: int|
        old_res.ends@.len() <= i < res.ends@.len() ==> p0.is_prefix_of((#[trigger] res.ends@[i]).0@)
    &&& forall|i: int|
        old_res.cycles@.len() <= i < res.cycles@.len() ==> p0.is_prefix_of(
            (#[trigger] res.cycles@[i]).0@ + res.cycles@[i].1@,
        )
}

/// Searches depth first below the unopened node `t1`, whose path of key nodes is `path`,
/// entering at most `budget` more nodes.  The ends and cycles met are added to `res`, in the
/// order in which the search meets them (see `dfs_search`).  Returns true when the search of
/// `t1` completes within the budget (it is then closed, and `path` is as it was); otherwise
/// `t1` becomes the tree of what is left: the nodes on the way to where the search stopped,
/// opened, with their successors not searched yet unopened.
pub fn dfs_single_thread<N, GE>(
    ge: &GE,
    t1: &mut Tree<N>,
    path: &mut Path<N::KN>,
    res: &mut DfsRes<N::KN>,
    budget: usize,
) -> (r: bool)
    where
        N: DfsNode + Copy,
        N::KN: Copy,
        GE: DfsGraph<N>,
    requires
        ge.spec_wf(),
        old(t1).1 is Unopened,
        old(path).wf(),
    ensures
        final(t1).0 == old(t1).0,
        r ==> final(t1).1 is Closed && final(path)@ == old(path)@,
        r == dfs_search(ge, old(path)@, old(t1).0, budget as nat).3,
        end_paths(final(res).ends@) == end_paths(old(res).ends@) + dfs_search(ge, old(path)@, old(t1).0, budget as nat).0,
        cycle_views(final(res).cycles@) == cycle_views(old(res).cycles@) + dfs_search(
            ge,
            old(path)@,
            old(t1).0,
            budget as nat,
        ).1,
        !r ==> final(t1).1 is Opened,
        !r ==> opened_on(*final(t1), node_succs(ge, old(t1).0)),
        final(path).wf(),
        found_ok(ge, &*final(res), &*old(res)),
        found_below(&*final(res), &*old(res), old(path)@),
{
    let n1 = t1.0;
    let n2s = successors(ge, &n1);
    let ghost succ0 = n2s@;
    let mut stack: Vec<Frame<N, N::KN>> = Vec::new();
    stack.push((n1, None, n2s, 0));
    let mut left = budget;
    let ghost path0 = path@;
    let ghost res0 = *res;
    let ghost total = dfs_search(ge, path0, n1, budget as nat);
    proof {
        lemma_rest_root(ge, path0, stack@[0], budget as nat);
        assert(stack@ =~= seq![stack@[0]]);
        assert(end_paths(res.ends@) + total.0 =~= end_paths(res0.ends@) + total.0);
    }
    assert(frames_kns(stack@) =~= Seq::<N::KN>::empty()) by {
        let e = stack@.drop_last();
        assert(e =~= Seq::<Frame<N, N::KN>>::empty());
        assert(frames_kns(e) == Seq::<N::KN>::empty());
        assert(stack@.last().1 is None);
    }
    assert(res.ends@.subrange(0, res0.ends@.len() as int) =~= res0.ends@);
    assert(res.cycles@.subrange(0, res0.cycles@.len() as int) =~= res0.cycles@);
    loop
        invariant
            ge.spec_wf(),
            t1.0 == old(t1).0,
            path.wf(),
            path@ == path0 + frames_kns(stack@),
            path0 == old(path)@,
            res0 == *old(res),
            found_ok(ge, &*res, &res0),
            stack@.len() > 0 ==> stack@[0].0 == t1.0 && stack@[0].1 is None,
            forall|k: int| 0 <= k < stack@.len() ==> (#[trigger] stack@[k]).3 <= stack@[k].2@.len(),
            succ0 == node_succs(ge, old(t1).0),
            stack@.len() > 0 ==> stack@[0].2@ == succ0,
            found_below(&*res, &res0, path0),
            frames_linked(stack@),
            total == dfs_search(ge, path0, old(t1).0, budget as nat),
            end_paths(res.ends@) + dfs_rest(ge, path0, stack@, left as nat).0 == end_paths(res0.ends@) + total.0,
            cycle_views(res.cycles@) + dfs_rest(ge, path0, stack@, left as nat).1 == cycle_views(res0.cycles@)
                + total.1,
            dfs_rest(ge, path0, stack@, left as nat).3 == total.3,
        decreases left, frames_weight(stack@),
    {
        if stack.len() == 0 {
            t1.1 = TreeStatus::Closed;
            assert(path@ =~= path0);
            assert(dfs_rest(ge, path0, stack@, left as nat) == (
                Seq::<Seq<N::KN>>::empty(),
                Seq::<(Seq<N::KN>, Seq<N::KN>, N::KN)>::empty(),
                left as nat,
                true,
            ));
            assert(end_paths(res.ends@) + Seq::<Seq<N::KN>>::empty() =~= end_paths(res.ends@));
            assert(cycle_views(res.cycles@) + Seq::<(Seq<N::KN>, Seq<N::KN>, N::KN)>::empty() =~= cycle_views(
                res.cycles@,
            ));
            return true;
        }
        let ghost st0 = stack@;
        let mut fr = stack.pop().unwrap();
        proof {
            assert(st0.drop_last() =~= stack@);
            assert(st0.last() == fr);
        }
        proof {
            assert forall|k: int| 0 <= k < stack@.len() - 1 implies (#[trigger] stack@[k]).3 >= 1 && stack@[k + 1].0
                == stack@[k].2@[stack@[k].3 - 1] by {
                assert(stack@[k] == st0[k]);
                assert(stack@[k + 1] == st0[k + 1]);
            }
        }
        if fr.3 >= fr.2.len() {
            proof {
                lemma_rest_exhausted(ge, path0, st0, left as nat);
            }
            if fr.1.is_some() {
                path.pop();
                proof {
                    assert(frames_kns(st0) == frames_kns(stack@).push(fr.1.unwrap()));
                    assert((path0 + frames_kns(stack@)).push(fr.1.unwrap()).drop_last() =~= path0 + frames_kns(stack@));
                }
            } else {
                assert(frames_kns(st0) =~= frames_kns(stack@));
            }
            continue;
        }
        let n = fr.2[fr.3];
        let ghost res_head = *res;
        fr.3 = fr.3 + 1;
        let ghost fr_kn = fr.1;
        stack.push(fr);
        proof {
            assert(stack@.drop_last() =~= st0.drop_last());
            assert(frames_kns(stack@) =~= frames_kns(st0));
            assert(frames_weight(stack@) < frames_weight(st0));
            if stack@.len() == 1 {
                assert(stack@[0] == fr);
            } else {
                assert(stack@[0] == st0[0]);
            }
            assert forall|k: int| 0 <= k < stack@.len() implies (#[trigger] stack@[k]).3 <= stack@[k].2@.len() by {
                if k < stack@.len() - 1 {
                    assert(stack@[k] == st0[k]);
                }
            }
            assert(stack@[0].2@ == succ0);
            assert(n == stack@.last().2@[stack@.last().3 - 1]);
            assert forall|k: int| 0 <= k < stack@.len() - 1 implies (#[trigger] stack@[k]).3 >= 1 && stack@[k + 1].0
                == stack@[k].2@[stack@[k].3 - 1] by {
                assert(stack@[k] == st0[k]);
                if k + 1 < stack@.len() - 1 {
                    assert(stack@[k + 1] == st0[k + 1]);
                } else {
                    assert(stack@[k + 1].0 == st0[k + 1].0);
                }
            }
        }
        let ghost p_here = path@;
        proof {
            lemma_rest_take(ge, path0, st0, stack@.last(), left as nat);
            assert(stack@ == st0.drop_last().push(stack@.last()));
            assert(p_here == path0 + frames_kns(st0));
        }
        let ghost out0 = dfs_rest(ge, path0, st0, left as nat);
        let ghost av = dfs_visit(ge, p_here, n, left as nat);
        let kn1o = n.key_node();
        let mut pushed: Option<N::KN> = None;
        if let Some(kn1) = kn1o {
            if let Some(label) = ge.end(&kn1) {
                let mut p = path.to_vec();
                p.push(kn1);
                let ghost res_before = *res;
                res.add_end(p, string_of(label));
                proof {
                    assert(res.ends@.subrange(0, res0.ends@.len() as int) =~= res_before.ends@.subrange(
                        0,
                        res0.ends@.len() as int,
                    ));
                    assert forall|i: int| res0.ends@.len() <= i < res.ends@.len() implies end_ok(
                        ge,
                        #[trigger] res.ends@[i],
                    ) by {
                        if i < res.ends@.len() - 1 {
                            assert(res.ends@[i] == res_before.ends@[i]);
                        }
                    }
                    let last = res_before.ends@.len() as int;
                    assert(res.ends@[last].0@ == path@.push(kn1));
                    assert forall|i: int| res0.ends@.len() <= i < res.ends@.len() implies path0.is_prefix_of(
                        (#[trigger] res.ends@[i]).0@,
                    ) by {
                        if i < last {
                            assert(res.ends@[i] == res_before.ends@[i]);
                        } else {
                            assert(res.ends@[i].0@.subrange(0, path0.len() as int) =~= path0);
                        }
                    }
                    assert forall|i: int| res0.cycles@.len() <= i < res.cycles@.len() implies path0.is_prefix_of(
                        (#[trigger] res.cycles@[i]).0@ + res.cycles@[i].1@,
                    ) by {
                        assert(res.cycles@[i] == res_before.cycles@[i]);
                    }
                    let r_rest = dfs_rest(ge, path0, stack@, left as nat);
                    assert(av == (seq![p_here.push(kn1)], Seq::<(Seq<N::KN>, Seq<N::KN>, N::KN)>::empty(), left as nat, true));
                    assert(end_paths(res.ends@) =~= end_paths(res_before.ends@).push(p_here.push(kn1)));
                    assert(end_paths(res.ends@) + r_rest.0 =~= end_paths(res_before.ends@) + (av.0 + r_rest.0));
                    assert(cycle_views(res.cycles@) =~= cycle_views(res_before.cycles@));
                    assert(cycle_views(res.cycles@) + r_rest.1 =~= cycle_views(res_before.cycles@) + (av.1 + r_rest.1));
                }
                continue;
            }
            match path.find_or_push(&kn1) {
                Some(idx) => {
                    let (a, b) = path.split(idx);
                    let ghost res_before = *res;
                    res.add_cycle(a, b, kn1);
                    assert(res.ends@ == res_head.ends@);
                    proof {
                        assert(!ge.spec_end(kn1));
                        let c = choose|i: int|
                            0 <= i < p_here.len() && (#[trigger] p_here[i]).spec_hash_node() == kn1.spec_hash_node();
                        assert(p_here[idx as int].spec_hash_node() == kn1.spec_hash_node());
                        assert(hash_index(p_here, kn1) is Some);
                        if c != idx as int {
                            if c < idx {
                                assert(p_here[c].spec_hash_node() != p_here[idx as int].spec_hash_node());
                            } else {
                                assert(p_here[idx as int].spec_hash_node() != p_here[c].spec_hash_node());
                            }
                        }
                        assert(hash_index(p_here, kn1) == Some(idx as int));
                        let cyc = (p_here.subrange(0, idx as int), p_here.subrange(idx as int, p_here.len() as int), kn1);
                        assert(av == (Seq::<Seq<N::KN>>::empty(), seq![cyc], left as nat, true));
                        let r_rest = dfs_rest(ge, path0, stack@, left as nat);
                        assert(cycle_views(res.cycles@) =~= cycle_views(res_before.cycles@).push(cyc));
                        assert(cycle_views(res.cycles@) + r_rest.1 =~= cycle_views(res_before.cycles@) + (av.1
                            + r_rest.1));
                        assert(end_paths(res.ends@) + r_rest.0 =~= end_paths(res_before.ends@) + (av.0 + r_rest.0));
                    }
                    proof {
                        assert(a@ + b@ =~= path@);
                        assert forall|i: int| res0.cycles@.len() <= i < res.cycles@.len() implies path0.is_prefix_of(
                            (#[trigger] res.cycles@[i]).0@ + res.cycles@[i].1@,
                        ) by {
                            if i < res_before.cycles@.len() {
                                assert(res.cycles@[i] == res_before.cycles@[i]);
                            } else {
                                assert((a@ + b@).subrange(0, path0.len() as int) =~= path0);
                            }
                        }
                        assert forall|i: int| res0.ends@.len() <= i < res.ends@.len() implies path0.is_prefix_of(
                            (#[trigger] res.ends@[i]).0@,
                        ) by {
                            assert(res.ends@[i] == res_before.ends@[i]);
                        }
                    }
                    proof {
                        assert(res.cycles@.subrange(0, res0.cycles@.len() as int) =~= res_before.cycles@.subrange(
                            0,
                            res0.cycles@.len() as int,
                        ));
                        assert forall|i: int| res0.cycles@.len() <= i < res.cycles@.len() implies (#[trigger] res.cycles@[i]).1@.len()
                            > 0 && res.cycles@[i].1@[0].spec_hash_node() == res.cycles@[i].2.spec_hash_node() by {
                            if i < res.cycles@.len() - 1 {
                                assert(res.cycles@[i] == res_before.cycles@[i]);
                            }
                        }
                    }
                    continue;
                },
                None => {
                    pushed = Some(kn1);
                },
            }
        }
        proof {
            assert(res.ends@ == res_head.ends@);
            assert(pushed == n.spec_key_node());
            if let Some(kn) = pushed {
                assert(!ge.spec_end(kn));
                assert(hash_index(p_here, kn) is None);
            }
            if left == 0 {
                assert(av == (Seq::<Seq<N::KN>>::empty(), Seq::<(Seq<N::KN>, Seq<N::KN>, N::KN)>::empty(), 0nat, false));
                assert(end_paths(res.ends@) + out0.0 =~= end_paths(res.ends@));
                assert(cycle_views(res.cycles@) + out0.1 =~= cycle_views(res.cycles@));
            }
        }
        if left == 0 {
            let mut tr = Tree(n, TreeStatus::Unopened);
            while stack.len() > 0
                invariant
                    stack@.len() > 0 ==> stack@[0].0 == t1.0 && stack@[0].2@ == succ0,
                    stack@.len() > 0 ==> stack@.last().3 >= 1 && tr.0 == stack@.last().2@[stack@.last().3 - 1],
                    stack@.len() == 0 ==> tr.0 == t1.0 && tr.1 is Opened && opened_on(tr, succ0),
                    forall|k: int| 0 <= k < stack@.len() ==> (#[trigger] stack@[k]).3 <= stack@[k].2@.len(),
                    frames_linked(stack@),
                decreases stack@.len(),
            {
                let ghost st1 = stack@;
                let fr2 = stack.pop().unwrap();
                proof {
                    assert(st1.drop_last() =~= stack@);
                    assert(fr2 == st1.last());
                    if stack@.len() > 0 {
                        assert(stack@[0] == st1[0]);
                        let k = stack@.len() - 1;
                        assert(stack@[k] == st1[k]);
                        assert(stack@.last() == st1[k]);
                        assert(st1[k + 1].0 == st1[k].2@[st1[k].3 - 1]);
                    } else {
                        assert(fr2 == st1[0]);
                    }
                    assert forall|k: int| 0 <= k < stack@.len() implies (#[trigger] stack@[k]).3 <= stack@[k].2@.len() by {
                        assert(stack@[k] == st1[k]);
                    }
                    assert forall|k: int| 0 <= k < stack@.len() - 1 implies (#[trigger] stack@[k]).3 >= 1 && stack@[k
                        + 1].0 == stack@[k].2@[stack@[k].3 - 1] by {
                        assert(stack@[k] == st1[k]);
                        assert(stack@[k + 1] == st1[k + 1]);
                    }
                }
                let mut children: Vec<Tree<N>> = Vec::new();
                children.push(tr);
                let mut j = fr2.3;
                while j < fr2.2.len()
                    invariant
                        fr2.3 >= 1,
                        fr2.3 <= j <= fr2.2@.len(),
                        children@.len() == 1 + j - fr2.3,
                        children@[0] == tr,
                        forall|i: int|
                            1 <= i < children@.len() ==> #[trigger] children@[i] == Tree(
                                fr2.2@[fr2.3 - 1 + i],
                                TreeStatus::<N>::Unopened,
                            ),
                    decreases fr2.2@.len() - j,
                {
                    children.push(Tree(fr2.2[j], TreeStatus::Unopened));
                    j = j + 1;
                }
                let ghost cs = children@;
                let ghost tr_child = tr;
                tr = Tree(fr2.0, TreeStatus::Opened(children));
                proof {
                    if stack@.len() == 0 {
                        let s0 = fr2.3 - 1;
                        assert(0 <= s0 < succ0.len());
                        assert(cs.len() == succ0.len() - s0);
                        assert forall|i: int| 0 <= i < cs.len() implies (#[trigger] cs[i]).0 == succ0[s0 + i] by {
                            if i == 0 {
                                assert(cs[0] == tr_child);
                            }
                        }
                        assert forall|i: int| 1 <= i < cs.len() implies (#[trigger] cs[i]).1 is Unopened by {
                        }
                        assert(children_from(cs, succ0, s0));
                        assert(tr.1 matches TreeStatus::Opened(v) && v@ == cs);
                        assert(opened_on(tr, succ0));
                    }
                }
            }
            *t1 = tr;
            return false;
        }
        left = left - 1;
        let succs = successors(ge, &n);
        let ghost st2 = stack@;
        stack.push((n, pushed, succs, 0));
        proof {
            assert(stack@.drop_last() =~= st2);
            assert(stack@[0] == st2[0]);
            assert forall|k: int| 0 <= k < stack@.len() implies (#[trigger] stack@[k]).3 <= stack@[k].2@.len() by {
                if k < stack@.len() - 1 {
                    assert(stack@[k] == st2[k]);
                }
            }
            match pushed {
                Some(kn) => {
                    assert(frames_kns(stack@) =~= frames_kns(st2).push(kn));
                },
                None => {
                    assert(frames_kns(stack@) =~= frames_kns(st2));
                },
            }
            assert(frames_kns(st2) == frames_kns(st0));
            lemma_rest_enter(ge, path0, st2, stack@.last(), (left + 1) as nat);
            assert(st2.push(stack@.last()) == stack@);
        }
    }
}

proof fn lemma_forest_firstest_some<N>(cs: Seq<Tree<N>>, i: int)
    requires
        0 <= i < cs.len(),
        firstest(cs[i]) is Some,
    ensures
        forest_firstest(cs) is Some,
    decreases cs.len(),
{
    if i > 0 && firstest(cs.first()) is None {
        lemma_forest_firstest_some(cs.drop_first(), i - 1);
    }
}

proof fn lemma_forest_firstest_none<N>(cs: Seq<Tree<N>>)
    requires
        forall|i: int| 0 <= i < cs.len() ==> firstest(#[trigger] cs[i]) is None,
    ensures
        forest_firstest(cs) is None,
    decreases cs.len(),
{
    if cs.len() > 0 {
        assert(firstest(cs[0]) is None);
        lemma_forest_firstest_none(cs.drop_first());
    }
}

/// The path below `n` in a pass reached by `p`: `p` extended by `n`'s key node, unless `n` has
/// none or its hash node is already on `p`.
pub open spec fn pass_path<N: DfsNode>(p: Seq<N::KN>, n: N) -> Seq<N::KN> {
    match n.spec_key_node() {
        Some(kn) => if hash_index(p, kn) is None {
            p.push(kn)
        } else {
            p
        },
        None => p,
    }
}

/// What a pass over `t`, reached by `p`, finds: the ends and the cycles of the search of each
/// unopened node, with `budget` nodes each, in the order of the tree.
pub open spec fn pass_finds<N: DfsNode, GE: DfsGraph<N>>(ge: &GE, t: Tree<N>, p: Seq<N::KN>, budget: nat) -> (
    Seq<Seq<N::KN>>,
    Seq<(Seq<N::KN>, Seq<N::KN>, N::KN)>,
)
    decreases t,
{
    match t.1 {
        TreeStatus::Unopened => {
            let o = dfs_search(ge, pass_path(p, t.0), t.0, budget);
            (o.0, o.1)
        },
        TreeStatus::Closed => (Seq::empty(), Seq::empty()),
        TreeStatus::Opened(cs) => forest_finds(ge, cs@, pass_path(p, t.0), budget),
    }
}

/// `pass_finds` over the trees `cs` in turn, each reached by `p`.
pub open spec fn forest_finds<N: DfsNode, GE: DfsGraph<N>>(ge: &GE, cs: Seq<Tree<N>>, p: Seq<N::KN>, budget: nat) -> (
    Seq<Seq<N::KN>>,
    Seq<(Seq<N::KN>, Seq<N::KN>, N::KN)>,
)
    decreases cs,
{
    if cs.len() == 0 {
        (Seq::empty(), Seq::empty())
    } else {
        let a = forest_finds(ge, cs.subrange(0, cs.len() - 1), p, budget);
        let b = pass_finds(ge, cs[cs.len() - 1], p, budget);
        (a.0 + b.0, a.1 + b.1)
    }
}

/// `new` is the tree `old`, reached by `p`, after each of its unopened nodes was searched with
/// `budget` nodes: each is now closed when its search completed and opened otherwise, and the
/// rest keeps its nodes and its shape.
pub open spec fn searched<N: DfsNode, GE: DfsGraph<N>>(ge: &GE, old: Tree<N>, new: Tree<N>, p: Seq<N::KN>, budget: nat) -> bool
    decreases old,
{
    &&& new.0 == old.0
    &&& match old.1 {
        TreeStatus::Unopened => !(new.1 is Unopened) && ((new.1 is Closed) == dfs_search(
            ge,
            pass_path(p, old.0),
            old.0,
            budget,
        ).3),
        TreeStatus::Closed => new.1 is Closed,
        TreeStatus::Opened(cs) => new.1 matches TreeStatus::Opened(ns) && ns@.len() == cs@.len() && forall|k: int|
            0 <= k < cs@.len() ==> searched(ge, cs@[k], #[trigger] ns@[k], pass_path(p, old.0), budget),
    }
}

/// Whether the search of every unopened node of `t`, reached by `p`, completes within `budget`.
pub open spec fn pass_completes<N: DfsNode, GE: DfsGraph<N>>(ge: &GE, t: Tree<N>, p: Seq<N::KN>, budget: nat) -> bool
    decreases t,
{
    match t.1 {
        TreeStatus::Unopened => dfs_search(ge, pass_path(p, t.0), t.0, budget).3,
        TreeStatus::Closed => true,
        TreeStatus::Opened(cs) => forall|k: int|
            0 <= k < cs@.len() ==> pass_completes(ge, #[trigger] cs@[k], pass_path(p, t.0), budget),
    }
}

/// A pass in which the search of every unopened node completes leaves no unopened node.
pub proof fn lemma_complete_pass_closes<N: DfsNode, GE: DfsGraph<N>>(
    ge: &GE,
    old: Tree<N>,
    new: Tree<N>,
    p: Seq<N::KN>,
    budget: nat,
)
    requires
        searched(ge, old, new, p, budget),
        pass_completes(ge, old, p, budget),
    ensures
        firstest(new) is None,
    decreases old,
{
    match old.1 {
        TreeStatus::Opened(cs) => {
            let ns = new.1->Opened_0;
            assert forall|k: int| 0 <= k < ns@.len() implies firstest(#[trigger] ns@[k]) is None by {
                assert(decreases_to!(old => cs@[k]));
                lemma_complete_pass_closes(ge, cs@[k], ns@[k], pass_path(p, old.0), budget);
            }
            lemma_forest_firstest_none(ns@);
        },
        _ => {},
    }
}

/// One pass of a search over the tree `t` reached by `path`: every unopened node is searched
/// (with `budget` entries each, see `dfs_single_thread`), with the key nodes on the way to it
/// as its path.  Says whether there was an unopened node.
pub fn sdfs_pass<N, GE>(ge: &GE, t: &mut Tree<N>, path: &mut Path<N::KN>, res: &mut DfsRes<N::KN>, budget: usize) -> (r: bool)
    where
        N: DfsNode + Copy,
        N::KN: Copy,
        GE: DfsGraph<N>,
    requires
        ge.spec_wf(),
        old(path).wf(),
    ensures
        r == firstest(*old(t)) is Some,
        final(t).0 == old(t).0,
        searched(ge, *old(t), *final(t), old(path)@, budget as nat),
        end_paths(final(res).ends@) == end_paths(old(res).ends@) + pass_finds(ge, *old(t), old(path)@, budget as nat).0,
        cycle_views(final(res).cycles@) == cycle_views(old(res).cycles@) + pass_finds(
            ge,
            *old(t),
            old(path)@,
            budget as nat,
        ).1,
        final(path)@ == old(path)@,
        final(path).wf(),
        found_ok(ge, &*final(res), &*old(res)),
        found_below(&*final(res), &*old(res), old(path)@),
    decreases *old(t),
{
    let ghost t0 = *t;
    let ghost res0 = *res;
    assert(res.ends@.subrange(0, res0.ends@.len() as int) =~= res0.ends@);
    assert(res.cycles@.subrange(0, res0.cycles@.len() as int) =~= res0.cycles@);
    let kno = t.0.key_node();
    let mut pushed = false;
    if let Some(kn) = kno {
        pushed = path.push(&kn);
    }
    let ghost path1 = path@;
    assert(path1 == pass_path(old(path)@, t0.0)) by {
        if let Some(kn) = t0.0.spec_key_node() {
            if hash_index(old(path)@, kn) is Some {
                let c = choose|i: int|
                    0 <= i < old(path)@.len() && (#[trigger] old(path)@[i]).spec_hash_node() == kn.spec_hash_node();
                assert(!pushed);
            } else {
                assert(pushed);
            }
        }
    }
    assert(old(path)@.is_prefix_of(path1)) by {
        assert(path1.subrange(0, old(path)@.len() as int) =~= old(path)@);
    }
    let found: bool;
    let mut cs: Vec<Tree<N>> = Vec::new();
    let mut opened = false;
    match &mut t.1 {
        TreeStatus::Unopened => {
            found = true;
        },
        TreeStatus::Closed => {
            found = false;
        },
        TreeStatus::Opened(children) => {
            std::mem::swap(&mut cs, children);
            opened = true;
            found = false;
        },
    }
    let mut any = found;
    if found {
        let ghost rb = *res;
        let mut p = path.copy();
        dfs_single_thread(ge, t, &mut p, res, budget);
        proof {
            lemma_found_ok_trans(ge, &*res, &rb, &res0);
            lemma_found_below_trans(&*res, &rb, &res0, old(path)@, path1);
        }
    }
    if opened {
        let ghost cs0 = cs@;
        let n0 = cs.len();
        assert(t0.1 matches TreeStatus::Opened(v) && v@ == cs0);
        let mut ns: Vec<Tree<N>> = Vec::new();
        let mut i: usize = 0;
        assert(res.ends@.subrange(0, res0.ends@.len() as int) =~= res0.ends@);
        assert(res.cycles@.subrange(0, res0.cycles@.len() as int) =~= res0.cycles@);
        assert(cs0.subrange(0, 0) =~= Seq::<Tree<N>>::empty());
        assert(end_paths(res.ends@) =~= end_paths(res0.ends@) + Seq::<Seq<N::KN>>::empty());
        assert(cycle_views(res.cycles@) =~= cycle_views(res0.cycles@) + Seq::<(Seq<N::KN>, Seq<N::KN>, N::KN)>::empty());
        while cs.len() > 0
            invariant
                ge.spec_wf(),
                t0.1 matches TreeStatus::Opened(v) && v@ == cs0,
                t0 == *old(t),
                n0 == cs0.len(),
                i + cs@.len() == cs0.len(),
                cs@ == cs0.subrange(i as int, cs0.len() as int),
                ns@.len() == i,
                forall|k: int| 0 <= k < i ==> (#[trigger] ns@[k]).0 == cs0[k].0,
                forall|k: int| 0 <= k < i ==> searched(ge, cs0[k], #[trigger] ns@[k], path1, budget as nat),
                end_paths(res.ends@) == end_paths(res0.ends@) + forest_finds(
                    ge,
                    cs0.subrange(0, i as int),
                    path1,
                    budget as nat,
                ).0,
                cycle_views(res.cycles@) == cycle_views(res0.cycles@) + forest_finds(
                    ge,
                    cs0.subrange(0, i as int),
                    path1,
                    budget as nat,
                ).1,
                path1 == pass_path(old(path)@, t0.0),
                any == exists|k: int| 0 <= k < i && firstest(#[trigger] cs0[k]) is Some,
                path.wf(),
                path@ == path1,
                res0 == *old(res),
                found_ok(ge, &*res, &res0),
                found_below(&*res, &res0, old(path)@),
                old(path)@.is_prefix_of(path1),
            decreases cs@.len(),
        {
            let mut c = cs.remove(0);
            assert(c == cs0[i as int]);
            proof {
                assert(decreases_to!(t0 => cs0[i as int]));
            }
            let ghost rb = *res;
            let f = sdfs_pass(ge, &mut c, path, res, budget);
            proof {
                lemma_found_ok_trans(ge, &*res, &rb, &res0);
                lemma_found_below_trans(&*res, &rb, &res0, old(path)@, path1);
                let pre = cs0.subrange(0, i as int);
                let nxt = cs0.subrange(0, i + 1);
                assert(nxt.subrange(0, nxt.len() - 1) =~= pre);
                assert(nxt[nxt.len() - 1] == cs0[i as int]);
                let fa = forest_finds(ge, pre, path1, budget as nat);
                let fb = pass_finds(ge, cs0[i as int], path1, budget as nat);
                assert(forest_finds(ge, nxt, path1, budget as nat) == (fa.0 + fb.0, fa.1 + fb.1));
                assert(end_paths(res.ends@) =~= end_paths(res0.ends@) + (fa.0 + fb.0));
                assert(cycle_views(res.cycles@) =~= cycle_views(res0.cycles@) + (fa.1 + fb.1));
            }
            ns.push(c);
            any = any || f;
            i = i + 1;
        }
        proof {
            assert(cs0.subrange(0, i as int) =~= cs0);
            if any {
                let k = choose|k: int| 0 <= k < i && firstest(#[trigger] cs0[k]) is Some;
                lemma_forest_firstest_some(cs0, k);
            } else {
                lemma_forest_firstest_none(cs0);
            }
        }
        t.1 = TreeStatus::Opened(ns);
    }
    if pushed {
        path.pop();
    }
    any
}

proof fn lemma_found_below_trans<KN>(c: &DfsRes<KN>, b: &DfsRes<KN>, a: &DfsRes<KN>, p0: Seq<KN>, p1: Seq<KN>)
    requires
        found_below(c, b, p1),
        found_below(b, a, p0),
        p0.is_prefix_of(p1),
        a.ends@.len() <= b.ends@.len(),
        a.cycles@.len() <= b.cycles@.len(),
        b.ends@.len() <= c.ends@.len(),
        b.cycles@.len() <= c.cycles@.len(),
        c.ends@.subrange(0, b.ends@.len() as int) == b.ends@,
        c.cycles@.subrange(0, b.cycles@.len() as int) == b.cycles@,
    ensures
        found_below(c, a, p0),
{
    assert forall|i: int| a.ends@.len() <= i < c.ends@.len() implies p0.is_prefix_of((#[trigger] c.ends@[i]).0@) by {
        if i < b.ends@.len() {
            assert(c.ends@.subrange(0, b.ends@.len() as int)[i] == c.ends@[i]);
        } else {
            assert(p1.is_prefix_of(c.ends@[i].0@));
            assert(c.ends@[i].0@.subrange(0, p0.len() as int) =~= p1.subrange(0, p0.len() as int));
        }
    }
    assert forall|i: int| a.cycles@.len() <= i < c.cycles@.len() implies p0.is_prefix_of(
        (#[trigger] c.cycles@[i]).0@ + c.cycles@[i].1@,
    ) by {
        if i < b.cycles@.len() {
            assert(c.cycles@.subrange(0, b.cycles@.len() as int)[i] == c.cycles@[i]);
        } else {
            let w = c.cycles@[i].0@ + c.cycles@[i].1@;
            assert(p1.is_prefix_of(w));
            assert(w.subrange(0, p0.len() as int) =~= p1.subrange(0, p0.len() as int));
        }
    }
}

proof fn lemma_found_ok_trans<N: DfsNode, GE: DfsGraph<N>>(
    ge: &GE,
    c: &DfsRes<N::KN>,
    b: &DfsRes<N::KN>,
    a: &DfsRes<N::KN>,
)
    requires
        found_ok(ge, c, b),
        found_ok(ge, b, a),
    ensures
        found_ok(ge, c, a),
{
    assert(c.ends@.subrange(0, a.ends@.len() as int) =~= b.ends@.subrange(0, a.ends@.len() as int));
    assert(c.cycles@.subrange(0, a.cycles@.len() as int) =~= b.cycles@.subrange(0, a.cycles@.len() as int));
    assert forall|i: int| a.ends@.len() <= i < c.ends@.len() implies end_ok(ge, #[trigger] c.ends@[i]) by {
        if i < b.ends@.len() {
            assert(c.ends@[i] == b.ends@[i]);
        }
    }
    assert forall|i: int| a.cycles@.len() <= i < c.cycles@.len() implies (#[trigger] c.cycles@[i]).1@.len() > 0
        && c.cycles@[i].1@[0].spec_hash_node() == c.cycles@[i].2.spec_hash_node() by {
        if i < b.cycles@.len() {
            assert(c.cycles@[i] == b.cycles@[i]);
        }
    }
}

} // verus!
