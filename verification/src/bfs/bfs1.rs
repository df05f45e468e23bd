use vstd::prelude::*;

use crate::bfs::bfs2::cycle_views;
use crate::bfs::bfs2::end_paths;
use crate::bfs::bfs2::succ_cycle;
use crate::bfs::bfs2::succ_end;
use crate::bfs::bfs2::succ_q2;
use crate::dfs::graph::DfsGraph;
use crate::dfs::graph::DfsKeyNode;
use crate::dfs::graph::DfsNode;
use crate::dfs::graph::ends_labelled;
use crate::dfs::res::DfsRes;
use crate::kn_pile::KnPile;
use crate::kn_pile::pile_chain;
use crate::kn_pile::count_marked;
use crate::kn_pile::packed_index;
use crate::kn_pile::pin_marks;
use crate::text::string_of;

verus! {

/// `f` applied to each item of `s` in turn, the results joined.
pub open spec fn flat<A, B>(s: Seq<A>, f: spec_fn(A) -> Seq<B>) -> Seq<B>
    decreases s.len(),
{
    if s.len() == 0 {
        Seq::empty()
    } else {
        flat(s.drop_last(), f) + f(s.last())
    }
}

/// What the graph expands `n` into: nothing where it cannot expand `n`.
pub open spec fn node_succs<N: DfsNode, GE: DfsGraph<N>>(ge: &GE, n: N) -> Seq<N> {
    if ge.spec_node_ok(n) {
        ge.spec_expand(n)
    } else {
        Seq::empty()
    }
}

/// `n2` has a key node that ends the search.
pub open spec fn ends_at<N: DfsNode, GE: DfsGraph<N>>(ge: &GE, n2: N) -> bool {
    match n2.spec_key_node() {
        Some(kn2) => ge.spec_end(kn2),
        None => false,
    }
}

/// The cycle `n2`, reached from `prev`, closes, unless it ends the search first.
pub open spec fn step_cycle<N: DfsNode, GE: DfsGraph<N>>(ge: &GE, kns: &KnPile<N::KN>, prev: usize, n2: N) -> Seq<
    (Seq<N::KN>, Seq<N::KN>, N::KN),
>
    where N::KN: Copy,
{
    if ends_at(ge, n2) {
        Seq::empty()
    } else {
        succ_cycle(kns, prev, n2)
    }
}

/// `n2`, reached from `prev`, goes on to the next level unless it ends the search or closes a
/// cycle.
pub open spec fn step_next<N: DfsNode, GE: DfsGraph<N>>(ge: &GE, kns: &KnPile<N::KN>, prev: usize, n2: N) -> Seq<
    (usize, N),
>
    where N::KN: Copy,
{
    if ends_at(ge, n2) {
        Seq::empty()
    } else {
        succ_q2(kns, prev, n2)
    }
}

/// The ends found expanding the nodes `ql`.
pub open spec fn level_ends<N: DfsNode, GE: DfsGraph<N>>(ge: &GE, kns: &KnPile<N::KN>, ql: Seq<(usize, N)>) -> Seq<
    Seq<N::KN>,
>
    where N::KN: Copy,
{
    flat(ql, |e: (usize, N)| flat(node_succs(ge, e.1), |n2: N| succ_end(ge, kns, e.0, n2)))
}

/// The cycles found expanding the nodes `ql`.
pub open spec fn level_cycles<N: DfsNode, GE: DfsGraph<N>>(ge: &GE, kns: &KnPile<N::KN>, ql: Seq<(usize, N)>) -> Seq<
    (Seq<N::KN>, Seq<N::KN>, N::KN),
>
    where N::KN: Copy,
{
    flat(ql, |e: (usize, N)| flat(node_succs(ge, e.1), |n2: N| step_cycle(ge, kns, e.0, n2)))
}

/// The nodes of the next level found expanding the nodes `ql`, each with the entry of the node
/// it came from.
pub open spec fn level_next<N: DfsNode, GE: DfsGraph<N>>(ge: &GE, kns: &KnPile<N::KN>, ql: Seq<(usize, N)>) -> Seq<
    (usize, N),
>
    where N::KN: Copy,
{
    flat(ql, |e: (usize, N)| flat(node_succs(ge, e.1), |n2: N| step_next(ge, kns, e.0, n2)))
}

/// The nodes of a level as `(entry, node)`, dropping their key nodes.
pub open spec fn pairs<N, KN>(v: Seq<(usize, N, Option<KN>)>) -> Seq<(usize, N)> {
    v.map_values(|e: (usize, N, Option<KN>)| (e.0, e.1))
}

/// Every item of `v` carries the key node of its node.
pub open spec fn keyed<N: DfsNode>(v: Seq<(usize, N, Option<N::KN>)>) -> bool {
    forall|i: int| 0 <= i < v.len() ==> (#[trigger] v[i]).2 == v[i].1.spec_key_node()
}

/// Expands the node `n`, reached through entry `prev_idx` of `kns` (a node the graph cannot
/// expand has no successors): a successor whose key node ends the search is recorded as an end;
/// otherwise one whose key node closes a cycle is recorded as a cycle; the others go onto `q2`
/// with their key nodes.
pub fn expand_node<N, GE>(
    ge: &GE,
    kns: &KnPile<N::KN>,
    prev_idx: usize,
    n: N,
    r: &mut DfsRes<N::KN>,
    q2: &mut Vec<(usize, N, Option<N::KN>)>,
)
    where
        N: DfsNode + Copy,
        N::KN: Copy,
        GE: DfsGraph<N>,
    requires
        ge.spec_wf(),
        kns.wf(),
        prev_idx < kns@.len(),
        keyed(old(q2)@),
    ensures
        end_paths(final(r).ends@) == end_paths(old(r).ends@) + flat(node_succs(ge, n), |n2: N| succ_end(ge, kns, prev_idx, n2)),
        ends_labelled(ge, old(r).ends@) ==> ends_labelled(ge, final(r).ends@),
        cycle_views(final(r).cycles@) == cycle_views(old(r).cycles@) + flat(node_succs(ge, n), |n2: N| step_cycle(ge, kns, prev_idx, n2)),
        pairs(final(q2)@) == pairs(old(q2)@) + flat(node_succs(ge, n), |n2: N| step_next(ge, kns, prev_idx, n2)),
        keyed(final(q2)@),
{
    let n2s: Vec<N> = if ge.can_expand(&n) {
        ge.expand(&n)
    } else {
        Vec::new()
    };
    let ghost s = n2s@;
    assert(s == node_succs(ge, n));
    let ghost fe = |n2: N| succ_end(ge, kns, prev_idx, n2);
    let ghost fc = |n2: N| step_cycle(ge, kns, prev_idx, n2);
    let ghost fq = |n2: N| step_next(ge, kns, prev_idx, n2);
    let ghost q2_0 = pairs(q2@);
    let ghost ends_0 = end_paths(r.ends@);
    let ghost cycles_0 = cycle_views(r.cycles@);
    let kl = kns.len();
    let mut i: usize = 0;
    assert(s.subrange(0, 0) =~= Seq::<N>::empty());
    while i < n2s.len()
        invariant
            ge.spec_wf(),
            kns.wf(),
            kl == kns@.len(),
            prev_idx < kns@.len(),
            s == n2s@,
            i <= s.len(),
            fe == (|n2: N| succ_end(ge, kns, prev_idx, n2)),
            fc == (|n2: N| step_cycle(ge, kns, prev_idx, n2)),
            fq == (|n2: N| step_next(ge, kns, prev_idx, n2)),
            keyed(q2@),
            pairs(q2@) == q2_0 + flat(s.subrange(0, i as int), fq),
            end_paths(r.ends@) == ends_0 + flat(s.subrange(0, i as int), fe),
            ends_labelled(ge, old(r).ends@) ==> ends_labelled(ge, r.ends@),
            cycle_views(r.cycles@) == cycles_0 + flat(s.subrange(0, i as int), fc),
        decreases s.len() - i,
    {
        let n2 = n2s[i];
        let ghost pre = s.subrange(0, i as int);
        let ghost nxt = s.subrange(0, i + 1);
        assert(nxt.drop_last() =~= pre);
        assert(nxt.last() == n2);
        assert(flat(nxt, fe) == flat(pre, fe) + fe(n2));
        assert(flat(nxt, fc) == flat(pre, fc) + fc(n2));
        assert(flat(nxt, fq) == flat(pre, fq) + fq(n2));
        let ghost ends_before = r.ends@;
        let ghost cycles_before = r.cycles@;
        let ghost q2_before = q2@;
        let kn2o = n2.key_node();
        if let Some(kn2) = kn2o {
            match ge.end(&kn2) {
                Some(label) => {
                    let mut path = kns.materialize_cloned(prev_idx);
                    path.push(kn2);
                    r.add_end(path, string_of(label));
                    assert(end_paths(r.ends@) =~= end_paths(ends_before).push(kns.path(prev_idx as int).push(kn2)));
                    assert(ends_labelled(ge, ends_before) ==> ends_labelled(ge, r.ends@)) by {
                        if ends_labelled(ge, ends_before) {
                            assert forall|k: int| 0 <= k < r.ends@.len() implies (#[trigger] r.ends@[k]).0@.len()
                                > 0 && r.ends@[k].1@ == ge.spec_end_label(r.ends@[k].0@.last()) by {
                                if k < ends_before.len() {
                                    assert(r.ends@[k] == ends_before[k]);
                                }
                            }
                        }
                    }
                    assert(fe(n2) == seq![kns.path(prev_idx as int).push(kn2)]);
                    assert(fc(n2) =~= Seq::<(Seq<N::KN>, Seq<N::KN>, N::KN)>::empty());
                    assert(fq(n2) =~= Seq::<(usize, N)>::empty());
                    assert(cycle_views(r.cycles@) =~= cycle_views(cycles_before));
                    i = i + 1;
                    continue;
                },
                None => {
                    assert(end_paths(r.ends@) =~= end_paths(ends_before));
                },
            }
            assert(fe(n2) =~= Seq::<Seq<N::KN>>::empty());
            let f = |idx: usize, _p: usize, kn: &N::KN| -> (o: Option<usize>)
                ensures
                    o == (if kn.spec_hash_node() == kn2.spec_hash_node() {
                        Some(idx)
                    } else {
                        None
                    }),
                {
                    if kn.same_hash_node(&kn2) {
                        Some(idx)
                    } else {
                        None
                    }
                };
            let hit = kns.find(prev_idx, &f);
            proof {
                let ch = pile_chain(kns@, prev_idx as int);
                match hit {
                    Some(t) => {
                        let k = choose|k: int|
                            0 <= k < ch.len() && call_ensures(
                                f,
                                (ch[k], kns@[ch[k] as int].0, &kns@[ch[k] as int].1),
                                Some(t),
                            ) && forall|m: int|
                                0 <= m < k ==> call_ensures(
                                    f,
                                    (#[trigger] ch[m], kns@[ch[m] as int].0, &kns@[ch[m] as int].1),
                                    None::<usize>,
                                );
                        assert forall|m: int| 0 <= m < k implies kns@[#[trigger] ch[m] as int].1.spec_hash_node()
                            != kn2.spec_hash_node() by {
                            assert(call_ensures(f, (ch[m], kns@[ch[m] as int].0, &kns@[ch[m] as int].1), None::<usize>));
                        }
                        crate::bfs::bfs2::lemma_first_hit_some(kns@, ch, kn2, 0, k);
                    },
                    None => {
                        assert forall|m: int| 0 <= m < ch.len() implies kns@[#[trigger] ch[m] as int].1.spec_hash_node()
                            != kn2.spec_hash_node() by {
                            assert(call_ensures(f, (ch[m], kns@[ch[m] as int].0, &kns@[ch[m] as int].1), None::<usize>));
                        }
                        crate::bfs::bfs2::lemma_first_hit_none(kns@, ch, kn2, 0);
                    },
                }
            }
            if let Some(rep_idx) = hit {
                proof {
                    crate::kn_pile::lemma_chain_in_range(kns@, prev_idx as int);
                }
                let mut path = kns.materialize_cloned(rep_idx);
                proof {
                    assert(kns@[rep_idx as int].0 < rep_idx);
                    assert(kns.path(rep_idx as int).len() >= 1);
                }
                let _ = path.pop();
                let whole = kns.materialize_cloned(prev_idx);
                let cycle = crate::bfs::bfs2::vec_skip(&whole, path.len());
                r.add_cycle(path, cycle, kn2);
                assert(cycle_views(r.cycles@) =~= cycle_views(cycles_before).push(succ_cycle(kns, prev_idx, n2)[0]));
                assert(fc(n2) == succ_cycle(kns, prev_idx, n2));
                assert(fq(n2) =~= Seq::<(usize, N)>::empty());
                i = i + 1;
                continue;
            }
            assert(cycle_views(r.cycles@) =~= cycle_views(cycles_before));
        } else {
            assert(end_paths(r.ends@) =~= end_paths(ends_before));
            assert(cycle_views(r.cycles@) =~= cycle_views(cycles_before));
        }
        q2.push((prev_idx, n2, kn2o));
        assert(pairs(q2@) =~= pairs(q2_before).push((prev_idx, n2)));
        assert(fq(n2) == seq![(prev_idx, n2)]);
        i = i + 1;
    }
    assert(s.subrange(0, s.len() as int) =~= s);
}

/// Expands the nodes `ql[start..end]` in order (see `expand_node`).
pub fn expand_level<N, GE>(
    ge: &GE,
    kns: &KnPile<N::KN>,
    ql: &Vec<(usize, N)>,
    start: usize,
    end: usize,
    r: &mut DfsRes<N::KN>,
    q2: &mut Vec<(usize, N, Option<N::KN>)>,
)
    where
        N: DfsNode + Copy,
        N::KN: Copy,
        GE: DfsGraph<N>,
    requires
        ge.spec_wf(),
        kns.wf(),
        start <= end <= ql@.len(),
        forall|i: int| start <= i < end ==> (#[trigger] ql@[i]).0 < kns@.len(),
        keyed(old(q2)@),
    ensures
        end_paths(final(r).ends@) == end_paths(old(r).ends@) + level_ends(ge, kns, ql@.subrange(start as int, end as int)),
        ends_labelled(ge, old(r).ends@) ==> ends_labelled(ge, final(r).ends@),
        cycle_views(final(r).cycles@) == cycle_views(old(r).cycles@) + level_cycles(ge, kns, ql@.subrange(start as int, end as int)),
        pairs(final(q2)@) == pairs(old(q2)@) + level_next(ge, kns, ql@.subrange(start as int, end as int)),
        keyed(final(q2)@),
{
    let ghost ge_ = |e: (usize, N)| flat(node_succs(ge, e.1), |n2: N| succ_end(ge, kns, e.0, n2));
    let ghost gc = |e: (usize, N)| flat(node_succs(ge, e.1), |n2: N| step_cycle(ge, kns, e.0, n2));
    let ghost gq = |e: (usize, N)| flat(node_succs(ge, e.1), |n2: N| step_next(ge, kns, e.0, n2));
    let ghost q2_0 = pairs(q2@);
    let ghost ends_0 = end_paths(r.ends@);
    let ghost cycles_0 = cycle_views(r.cycles@);
    let mut i = start;
    assert(ql@.subrange(start as int, start as int) =~= Seq::<(usize, N)>::empty());
    while i < end
        invariant
            ge.spec_wf(),
            kns.wf(),
            start <= i <= end <= ql@.len(),
            forall|k: int| start <= k < end ==> (#[trigger] ql@[k]).0 < kns@.len(),
            ge_ == (|e: (usize, N)| flat(node_succs(ge, e.1), |n2: N| succ_end(ge, kns, e.0, n2))),
            gc == (|e: (usize, N)| flat(node_succs(ge, e.1), |n2: N| step_cycle(ge, kns, e.0, n2))),
            gq == (|e: (usize, N)| flat(node_succs(ge, e.1), |n2: N| step_next(ge, kns, e.0, n2))),
            keyed(q2@),
            pairs(q2@) == q2_0 + flat(ql@.subrange(start as int, i as int), gq),
            end_paths(r.ends@) == ends_0 + flat(ql@.subrange(start as int, i as int), ge_),
            ends_labelled(ge, old(r).ends@) ==> ends_labelled(ge, r.ends@),
            cycle_views(r.cycles@) == cycles_0 + flat(ql@.subrange(start as int, i as int), gc),
        decreases end - i,
    {
        let (prev_idx, n) = ql[i];
        let ghost pre = ql@.subrange(start as int, i as int);
        let ghost nxt = ql@.subrange(start as int, i + 1);
        assert(nxt.drop_last() =~= pre);
        assert(nxt.last() == (prev_idx, n));
        assert(flat(nxt, ge_) == flat(pre, ge_) + ge_((prev_idx, n)));
        assert(flat(nxt, gc) == flat(pre, gc) + gc((prev_idx, n)));
        assert(flat(nxt, gq) == flat(pre, gq) + gq((prev_idx, n)));
        assert(ql@[i as int].0 < kns@.len());
        expand_node(ge, kns, prev_idx, n, r, q2);
        assert(ge_((prev_idx, n)) == flat(node_succs(ge, n), |n2: N| succ_end(ge, kns, prev_idx, n2)));
        assert(gc((prev_idx, n)) == flat(node_succs(ge, n), |n2: N| step_cycle(ge, kns, prev_idx, n2)));
        assert(gq((prev_idx, n)) == flat(node_succs(ge, n), |n2: N| step_next(ge, kns, prev_idx, n2)));
        i = i + 1;
    }
}

/// Adds the key nodes of the next level to `kns`, each after the entry its node came from, and
/// gives the level as `(entry, node)`: a node with a key node gets the new entry holding it,
/// the others keep their entry.  Also tells whether any entry was added.  Paths already in
/// `kns` are left as they were.
pub fn absorb<N, KN>(kns: &mut KnPile<KN>, q2: &Vec<(usize, N, Option<KN>)>) -> (r: (Vec<(usize, N)>, bool))
    where
        N: Copy,
        KN: Copy,
    requires
        old(kns).wf(),
        forall|i: int| 0 <= i < q2@.len() ==> (#[trigger] q2@[i]).0 < old(kns)@.len(),
    ensures
        final(kns).wf(),
        final(kns)@.len() >= old(kns)@.len(),
        r.0@.len() == q2@.len(),
        r.1 == exists|i: int| 0 <= i < q2@.len() && (#[trigger] q2@[i]).2 is Some,
        forall|k: int| 0 <= k < old(kns)@.len() ==> #[trigger] final(kns).path(k) == old(kns).path(k),
        forall|i: int| 0 <= i < q2@.len() ==> {
            &&& (#[trigger] r.0@[i]).1 == q2@[i].1
            &&& r.0@[i].0 < final(kns)@.len()
            &&& final(kns).path(r.0@[i].0 as int) == match q2@[i].2 {
                Some(kn) => old(kns).path(q2@[i].0 as int).push(kn),
                None => old(kns).path(q2@[i].0 as int),
            }
        },
{
    let ghost k0 = *kns;
    let mut out: Vec<(usize, N)> = Vec::new();
    let mut added = false;
    let mut i: usize = 0;
    while i < q2.len()
        invariant
            i <= q2@.len(),
            k0.wf(),
            kns.wf(),
            kns@.len() >= k0@.len(),
            out@.len() == i,
            forall|j: int| 0 <= j < q2@.len() ==> (#[trigger] q2@[j]).0 < k0@.len(),
            added == exists|j: int| 0 <= j < i && (#[trigger] q2@[j]).2 is Some,
            forall|k: int| 0 <= k < k0@.len() ==> #[trigger] kns.path(k) == k0.path(k),
            forall|j: int| 0 <= j < i ==> {
                &&& (#[trigger] out@[j]).1 == q2@[j].1
                &&& out@[j].0 < kns@.len()
                &&& kns.path(out@[j].0 as int) == match q2@[j].2 {
                    Some(kn) => k0.path(q2@[j].0 as int).push(kn),
                    None => k0.path(q2@[j].0 as int),
                }
            },
        decreases q2@.len() - i,
    {
        let (prev, n, kno) = q2[i];
        assert(q2@[i as int] == (prev, n, kno));
        let ghost before = *kns;
        match kno {
            Some(kn) => {
                let idx = kns.push(prev, kn);
                assert(kns.path(idx as int) == before.path(prev as int).push(kn));
                out.push((idx, n));
                added = true;
            },
            None => {
                out.push((prev, n));
            },
        }
        assert forall|j: int| 0 <= j < i + 1 implies {
            &&& (#[trigger] out@[j]).1 == q2@[j].1
            &&& out@[j].0 < kns@.len()
            &&& kns.path(out@[j].0 as int) == match q2@[j].2 {
                Some(kn) => k0.path(q2@[j].0 as int).push(kn),
                None => k0.path(q2@[j].0 as int),
            }
        } by {
            if j < i {
                assert(kns.path(out@[j].0 as int) == before.path(out@[j].0 as int));
            }
        }
        i = i + 1;
    }
    (out, added)
}

/// One level of the breadth-first search: expands every node of `ql` (see `expand_node`), adds
/// the key nodes of the next level to `kns` (see `absorb`), and gives what was found, the next
/// level, and whether `kns` grew.
pub fn step_level<N, GE>(ge: &GE, kns: &mut KnPile<N::KN>, ql: &Vec<(usize, N)>) -> (r: (DfsRes<N::KN>, Vec<(usize, N)>, bool))
    where
        N: DfsNode + Copy,
        N::KN: Copy,
        GE: DfsGraph<N>,
    requires
        ge.spec_wf(),
        old(kns).wf(),
        forall|i: int| 0 <= i < ql@.len() ==> (#[trigger] ql@[i]).0 < old(kns)@.len(),
    ensures
        final(kns).wf(),
        end_paths(r.0.ends@) == level_ends(ge, &*old(kns), ql@),
        cycle_views(r.0.cycles@) == level_cycles(ge, &*old(kns), ql@),
        r.1@.len() == level_next(ge, &*old(kns), ql@).len(),
        forall|k: int| 0 <= k < old(kns)@.len() ==> #[trigger] final(kns).path(k) == old(kns).path(k),
        forall|i: int| 0 <= i < r.1@.len() ==> {
            let (prev, n2) = level_next(ge, &*old(kns), ql@)[i];
            &&& (#[trigger] r.1@[i]).1 == n2
            &&& r.1@[i].0 < final(kns)@.len()
            &&& final(kns).path(r.1@[i].0 as int) == match n2.spec_key_node() {
                Some(kn) => old(kns).path(prev as int).push(kn),
                None => old(kns).path(prev as int),
            }
        },
{
    let mut res: DfsRes<N::KN> = DfsRes::new();
    let mut q2: Vec<(usize, N, Option<N::KN>)> = Vec::new();
    assert(end_paths(res.ends@) =~= Seq::<Seq<N::KN>>::empty());
    assert(cycle_views(res.cycles@) =~= Seq::<(Seq<N::KN>, Seq<N::KN>, N::KN)>::empty());
    assert(pairs(q2@) =~= Seq::<(usize, N)>::empty());
    assert(ql@.subrange(0, ql@.len() as int) =~= ql@);
    expand_level(ge, &*kns, ql, 0, ql.len(), &mut res, &mut q2);
    let ghost k0 = *kns;
    let ghost nx = level_next(ge, &k0, ql@);
    assert(pairs(q2@) =~= nx);
    assert forall|i: int| 0 <= i < q2@.len() implies (#[trigger] q2@[i]).0 < kns@.len() by {
        assert(pairs(q2@)[i] == nx[i]);
        lemma_next_from(ge, &k0, ql@, i);
    }
    let (next, added) = absorb(kns, &q2);
    assert forall|i: int| 0 <= i < next@.len() implies {
        let (prev, n2) = nx[i];
        &&& (#[trigger] next@[i]).1 == n2
        &&& next@[i].0 < kns@.len()
        &&& kns.path(next@[i].0 as int) == match n2.spec_key_node() {
            Some(kn) => k0.path(prev as int).push(kn),
            None => k0.path(prev as int),
        }
    } by {
        assert(pairs(q2@)[i] == (q2@[i].0, q2@[i].1));
        assert(q2@[i].2 == q2@[i].1.spec_key_node());
    }
    (res, next, added)
}

/// Every node of the next level comes from an entry of `kns` that a node of `ql` came from.
proof fn lemma_next_from<N: DfsNode, GE: DfsGraph<N>>(ge: &GE, kns: &KnPile<N::KN>, ql: Seq<(usize, N)>, i: int)
    where
        N::KN: Copy,
    requires
        forall|j: int| 0 <= j < ql.len() ==> (#[trigger] ql[j]).0 < kns@.len(),
        0 <= i < level_next(ge, kns, ql).len(),
    ensures
        level_next(ge, kns, ql)[i].0 < kns@.len(),
    decreases ql.len(),
{
    let gq = |e: (usize, N)| flat(node_succs(ge, e.1), |n2: N| step_next(ge, kns, e.0, n2));
    assert(level_next(ge, kns, ql) == flat(ql, gq));
    if ql.len() > 0 {
        let pre = ql.drop_last();
        assert(flat(ql, gq) == flat(pre, gq) + gq(ql.last()));
        if i < flat(pre, gq).len() {
            assert forall|j: int| 0 <= j < pre.len() implies (#[trigger] pre[j]).0 < kns@.len() by {
                assert(pre[j] == ql[j]);
            }
            assert(level_next(ge, kns, pre) == flat(pre, gq));
            lemma_next_from(ge, kns, pre, i);
        } else {
            let e = ql.last();
            assert(ql[ql.len() - 1] == e);
            lemma_flat_first(node_succs(ge, e.1), e.0, |n2: N| step_next(ge, kns, e.0, n2), i - flat(pre, gq).len());
        }
    }
}

/// Where each piece `f(x)` holds pairs starting with `p`, so does the whole.
proof fn lemma_flat_first<A, B>(s: Seq<A>, p: usize, f: spec_fn(A) -> Seq<(usize, B)>, i: int)
    requires
        forall|x: A, k: int| 0 <= k < f(x).len() ==> (#[trigger] f(x)[k]).0 == p,
        0 <= i < flat(s, f).len(),
    ensures
        flat(s, f)[i].0 == p,
    decreases s.len(),
{
    if s.len() > 0 {
        let pre = s.drop_last();
        if i < flat(pre, f).len() {
            lemma_flat_first(pre, p, f, i);
        } else {
            assert(flat(s, f)[i] == f(s.last())[i - flat(pre, f).len()]);
        }
    }
}

/// The pile entries that the nodes of `ql` name.
pub open spec fn entry_indices<N>(ql: Seq<(usize, N)>) -> Seq<usize> {
    ql.map_values(|e: (usize, N)| e.0)
}

/// Past `limit` entries, and where the level added some, drops the entries of `kns` that no
/// node of `ql` needs and renames the nodes' entries; each node keeps naming the same path.
/// Tells whether it did.
pub fn compact_level<N, KN>(kns: &mut KnPile<KN>, ql: &mut Vec<(usize, N)>, added: bool, limit: usize) -> (r: bool)
    where
        N: Copy,
        KN: Copy,
    requires
        old(kns).wf(),
        forall|i: int| 0 <= i < old(ql)@.len() ==> (#[trigger] old(ql)@[i]).0 < old(kns)@.len(),
    ensures
        final(kns).wf(),
        r == (added && old(kns)@.len() > limit),
        !r ==> *final(kns) == *old(kns) && final(ql)@ == old(ql)@,
        final(ql)@.len() == old(ql)@.len(),
        forall|i: int| 0 <= i < final(ql)@.len() ==> {
            &&& (#[trigger] final(ql)@[i]).1 == old(ql)@[i].1
            &&& final(ql)@[i].0 < final(kns)@.len()
            &&& final(kns).path(final(ql)@[i].0 as int) == old(kns).path(old(ql)@[i].0 as int)
        },
        r ==> final(kns)@.len() == 1 + count_marked(pin_marks(old(kns)@, entry_indices(old(ql)@)), old(kns)@.len() as int),
        r ==> forall|i: int|
            0 <= i < final(ql)@.len() ==> (#[trigger] final(ql)@[i]).0 == (if old(ql)@[i].0 == 0 {
                0
            } else {
                packed_index(pin_marks(old(kns)@, entry_indices(old(ql)@)), old(ql)@[i].0 as int) as usize
            }),
{
    if !(added && kns.len() > limit) {
        return false;
    }
    let mut pins: Vec<usize> = Vec::new();
    let mut i: usize = 0;
    while i < ql.len()
        invariant
            i <= ql@.len(),
            pins@.len() == i,
            forall|j: int| 0 <= j < i ==> #[trigger] pins@[j] == ql@[j].0,
        decreases ql@.len() - i,
    {
        pins.push(ql[i].0);
        i = i + 1;
    }
    let ghost p0 = pins@;
    assert(p0 =~= entry_indices(ql@));
    let _ = kns.rebuild(&mut pins);
    let ghost q0 = ql@;
    let mut out: Vec<(usize, N)> = Vec::new();
    let mut j: usize = 0;
    while j < ql.len()
        invariant
            j <= ql@.len(),
            ql@ == q0,
            pins@.len() == ql@.len(),
            out@.len() == j,
            forall|k: int| 0 <= k < j ==> (#[trigger] out@[k]).1 == q0[k].1 && out@[k].0 == pins@[k],
        decreases ql@.len() - j,
    {
        out.push((pins[j], ql[j].1));
        j = j + 1;
    }
    *ql = out;
    true
}

/// The first level of a breadth-first search from `n0`: a pile holding the path of `n0`'s key
/// node alone, and `n0` at its entry.
pub fn start_level<N>(n0: N) -> (r: (KnPile<N::KN>, Vec<(usize, N)>))
    where
        N: DfsNode + Copy,
        N::KN: Copy + Default,
    requires
        n0.spec_key_node() is Some,
    ensures
        r.0.wf(),
        r.1@.len() == 1,
        r.1@[0].1 == n0,
        r.1@[0].0 < r.0@.len(),
        r.0.path(r.1@[0].0 as int) == seq![n0.spec_key_node().unwrap()],
{
    let kn0 = n0.key_node().unwrap();
    let mut kns: KnPile<N::KN> = KnPile::new();
    let idx = kns.push(0, kn0);
    assert(kns.path(0) =~= Seq::<N::KN>::empty()) by {
        assert(crate::kn_pile::pile_path(kns@, 0) == Seq::<N::KN>::empty());
    }
    assert(kns.path(idx as int) =~= seq![kn0]);
    let mut ql: Vec<(usize, N)> = Vec::new();
    ql.push((idx, n0));
    (kns, ql)
}

} // verus!
