use vstd::prelude::*;

use crate::chunk_queue::ChunkQueue;
use crate::chunk_store::ChunkFactory;
use crate::chunk_store::filter_by;
use crate::dfs::graph::DfsGraph;
use crate::dfs::graph::DfsKeyNode;
use crate::dfs::graph::DfsNode;
use crate::dfs::graph::ends_labelled;
use crate::dfs::res::DfsRes;
use crate::kn_pile::KnPile;
use crate::kn_pile::count_marked;
use crate::kn_pile::packed_index;
use crate::kn_pile::pile_chain;
use crate::kn_pile::pile_path;
use crate::kn_pile::pin_marks;
use crate::text::string_of;
use crate::bfs::bfs1::entry_indices;
use crate::bfs::bfs1::flat;
use crate::bfs::bfs1::node_succs;

verus! {

/// Hash nodes that can be compared.
pub trait DedupeKey: Sized {
    fn same(&self, other: &Self) -> (r: bool)
        ensures
            r == (*self == *other),
    ;
}

/// A set of hash nodes already met, so that each is expanded once.
pub trait Bfs2Dedupe<HN>: Sized {
    spec fn spec_set(&self) -> Set<HN>;

    spec fn wf(&self) -> bool;

    fn new() -> (r: Self)
        ensures
            r.wf(),
            r.spec_set() == Set::<HN>::empty(),
    ;

    fn len(&self) -> (r: usize)
        requires
            self.wf(),
        ensures
            r == self.spec_set().len(),
    ;

    /// Adds `n`; says whether it was new.
    fn insert(&mut self, n: HN) -> (r: bool)
        requires
            old(self).wf(),
        ensures
            final(self).wf(),
            r == !old(self).spec_set().contains(n),
            final(self).spec_set() == old(self).spec_set().insert(n),
    ;
}

/// A dedupe set kept as a list without repeats.
pub struct VecDedupe<HN> {
    items: Vec<HN>,
}

impl<HN: DedupeKey + Copy> VecDedupe<HN> {
    /// The hash nodes held, each once.
    pub fn items(&self) -> (r: Vec<HN>)
        ensures
            r@.to_set() == self.spec_set(),
            r@.no_duplicates() <== self.wf(),
    {
        let mut r: Vec<HN> = Vec::new();
        let mut i: usize = 0;
        while i < self.items.len()
            invariant
                i <= self.items@.len(),
                r@ == self.items@.subrange(0, i as int),
            decreases self.items@.len() - i,
        {
            r.push(self.items[i]);
            assert(self.items@.subrange(0, i + 1) =~= self.items@.subrange(0, i as int).push(self.items@[i as int]));
            i = i + 1;
        }
        assert(self.items@.subrange(0, i as int) =~= self.items@);
        r
    }
}

impl<HN: DedupeKey> Bfs2Dedupe<HN> for VecDedupe<HN> {
    closed spec fn spec_set(&self) -> Set<HN> {
        self.items@.to_set()
    }

    closed spec fn wf(&self) -> bool {
        self.items@.no_duplicates()
    }

    fn new() -> (r: VecDedupe<HN>) {
        let r = VecDedupe { items: Vec::new() };
        assert(r.items@.to_set() =~= Set::<HN>::empty());
        r
    }

    fn len(&self) -> (r: usize) {
        proof {
            self.items@.unique_seq_to_set();
        }
        self.items.len()
    }

    fn insert(&mut self, n: HN) -> (r: bool) {
        let mut i: usize = 0;
        while i < self.items.len()
            invariant
                self.items@.no_duplicates(),
                i <= self.items@.len(),
                forall|k: int| 0 <= k < i ==> self.items@[k] != n,
            decreases self.items@.len() - i,
        {
            if self.items[i].same(&n) {
                assert(self.items@.to_set().contains(n));
                assert(self.items@.to_set().insert(n) =~= self.items@.to_set());
                return false;
            }
            i = i + 1;
        }
        let ghost old_items = self.items@;
        self.items.push(n);
        proof {
            assert(!old_items.contains(n));
            assert forall|v: HN| #[trigger] self.items@.to_set().contains(v) == old_items.to_set().insert(n).contains(v) by {
                if v == n {
                    assert(self.items@[self.items@.len() - 1] == n);
                } else if old_items.contains(v) {
                    let k = choose|k: int| 0 <= k < old_items.len() && old_items[k] == v;
                    assert(self.items@[k] == v);
                } else if self.items@.contains(v) {
                    let k = choose|k: int| 0 <= k < self.items@.len() && self.items@[k] == v;
                    assert(old_items[k] == v);
                }
            }
            assert(self.items@.to_set() =~= old_items.to_set().insert(n));
            assert forall|a: int, b: int| 0 <= a < b < self.items@.len() implies self.items@[a] != self.items@[b] by {
                if b == self.items@.len() - 1 {
                    assert(old_items[a] != n);
                } else {
                    assert(old_items[a] != old_items[b]);
                }
            }
        }
        true
    }
}

/// The first entry of `ch`, from position `from` on, whose node has the hash node of `kn`.
pub open spec fn first_hit<KN: DfsKeyNode>(e: Seq<(usize, KN, usize)>, ch: Seq<usize>, kn: KN, from: int) -> Option<
    usize,
>
    decreases ch.len() - from,
{
    if from < 0 || from >= ch.len() {
        None
    } else if e[ch[from] as int].1.spec_hash_node() == kn.spec_hash_node() {
        Some(ch[from])
    } else {
        first_hit(e, ch, kn, from + 1)
    }
}

pub(crate) proof fn lemma_first_hit_some<KN: DfsKeyNode>(e: Seq<(usize, KN, usize)>, ch: Seq<usize>, kn: KN, from: int, k: int)
    requires
        0 <= from <= k < ch.len(),
        e[ch[k] as int].1.spec_hash_node() == kn.spec_hash_node(),
        forall|m: int| from <= m < k ==> e[#[trigger] ch[m] as int].1.spec_hash_node() != kn.spec_hash_node(),
    ensures
        first_hit(e, ch, kn, from) == Some(ch[k]),
    decreases k - from,
{
    if from < k {
        lemma_first_hit_some(e, ch, kn, from + 1, k);
    }
}

pub(crate) proof fn lemma_first_hit_none<KN: DfsKeyNode>(e: Seq<(usize, KN, usize)>, ch: Seq<usize>, kn: KN, from: int)
    requires
        0 <= from,
        forall|m: int| from <= m < ch.len() ==> e[#[trigger] ch[m] as int].1.spec_hash_node() != kn.spec_hash_node(),
    ensures
        first_hit(e, ch, kn, from) is None,
    decreases ch.len() - from,
{
    if from < ch.len() {
        lemma_first_hit_none(e, ch, kn, from + 1);
    }
}

/// The entry, on the way from `prev` back to the root of `kns`, of the nearest key node with the
/// hash node of `kn`: where a path through `kn` would close a cycle.
pub open spec fn cycle_hit<KN: DfsKeyNode + Copy>(kns: &KnPile<KN>, prev: int, kn: KN) -> Option<usize> {
    first_hit(kns@, pile_chain(kns@, prev), kn, 0)
}

/// The last `s.len() - k` items of `s`, none when `k` is past the end.
pub open spec fn skip_or_empty<T>(s: Seq<T>, k: int) -> Seq<T> {
    if 0 <= k <= s.len() {
        s.skip(k)
    } else {
        Seq::empty()
    }
}

/// A copy of the items of `v` from `k` on.
pub(crate) fn vec_skip<T: Copy>(v: &Vec<T>, k: usize) -> (r: Vec<T>)
    ensures
        r@ == skip_or_empty(v@, k as int),
{
    let mut r: Vec<T> = Vec::new();
    if k > v.len() {
        return r;
    }
    let mut i = k;
    while i < v.len()
        invariant
            k <= i <= v@.len(),
            r@ == v@.subrange(k as int, i as int),
        decreases v@.len() - i,
    {
        r.push(v[i]);
        i = i + 1;
    }
    r
}

/// What expanding a node at `prev` into `n2` adds to the queue: `n2`, unless it closes a cycle.
pub open spec fn succ_q2<N: DfsNode>(kns: &KnPile<N::KN>, prev: usize, n2: N) -> Seq<(usize, N)>
    where N::KN: Copy,
{
    match n2.spec_key_node() {
        Some(kn2) => if cycle_hit(kns, prev as int, kn2) is Some {
            Seq::empty()
        } else {
            seq![(prev, n2)]
        },
        None => seq![(prev, n2)],
    }
}

/// The end path expanding into `n2` finds, if any: the path to `prev` extended by `n2`'s key
/// node, when that key node ends the search.
pub open spec fn succ_end<N: DfsNode, GE: DfsGraph<N>>(ge: &GE, kns: &KnPile<N::KN>, prev: usize, n2: N) -> Seq<Seq<N::KN>>
    where N::KN: Copy,
{
    match n2.spec_key_node() {
        Some(kn2) => if ge.spec_end(kn2) {
            seq![kns.path(prev as int).push(kn2)]
        } else {
            Seq::empty()
        },
        None => Seq::empty(),
    }
}

/// The cycle expanding into `n2` closes, if any: the path to where it starts, the cycle, and the
/// key node closing it.
pub open spec fn succ_cycle<N: DfsNode>(kns: &KnPile<N::KN>, prev: usize, n2: N) -> Seq<(Seq<N::KN>, Seq<N::KN>, N::KN)>
    where N::KN: Copy,
{
    match n2.spec_key_node() {
        Some(kn2) => match cycle_hit(kns, prev as int, kn2) {
            Some(rep) => {
                let path = kns.path(rep as int).drop_last();
                seq![(path, skip_or_empty(kns.path(prev as int), path.len() as int), kn2)]
            },
            None => Seq::empty(),
        },
        None => Seq::empty(),
    }
}

/// `succ_q2` over the successors `s`, in order.
pub open spec fn succs_q2<N: DfsNode>(kns: &KnPile<N::KN>, prev: usize, s: Seq<N>) -> Seq<(usize, N)>
    where N::KN: Copy,
    decreases s.len(),
{
    if s.len() == 0 {
        Seq::empty()
    } else {
        succs_q2(kns, prev, s.drop_last()) + succ_q2(kns, prev, s.last())
    }
}

/// `succ_end` over the successors `s`, in order.
pub open spec fn succs_end<N: DfsNode, GE: DfsGraph<N>>(ge: &GE, kns: &KnPile<N::KN>, prev: usize, s: Seq<N>) -> Seq<
    Seq<N::KN>,
>
    where N::KN: Copy,
    decreases s.len(),
{
    if s.len() == 0 {
        Seq::empty()
    } else {
        succs_end(ge, kns, prev, s.drop_last()) + succ_end(ge, kns, prev, s.last())
    }
}

/// `succ_cycle` over the successors `s`, in order.
pub open spec fn succs_cycle<N: DfsNode>(kns: &KnPile<N::KN>, prev: usize, s: Seq<N>) -> Seq<
    (Seq<N::KN>, Seq<N::KN>, N::KN),
>
    where N::KN: Copy,
    decreases s.len(),
{
    if s.len() == 0 {
        Seq::empty()
    } else {
        succs_cycle(kns, prev, s.drop_last()) + succ_cycle(kns, prev, s.last())
    }
}

/// The paths of the ends found.
pub open spec fn end_paths<KN>(ends: Seq<(Vec<KN>, String)>) -> Seq<Seq<KN>> {
    ends.map_values(|e: (Vec<KN>, String)| e.0@)
}

/// The cycles found, as sequences.
pub open spec fn cycle_views<KN>(cycles: Seq<(Vec<KN>, Vec<KN>, KN)>) -> Seq<(Seq<KN>, Seq<KN>, KN)> {
    cycles.map_values(|c: (Vec<KN>, Vec<KN>, KN)| (c.0@, c.1@, c.2))
}

/// A share of a search step: nodes to expand, the nodes they expand into, and what was found.
pub struct WorkUnit<N: DfsNode, CF> {
    pub q: ChunkQueue<(usize, N), CF>,
    pub q2: ChunkQueue<(usize, N), CF>,
    pub r: DfsRes<N::KN>,
}

impl<N: DfsNode + Copy, CF: ChunkFactory<(usize, N)> + Copy> WorkUnit<N, CF> where N::KN: Copy {
    pub fn new(q: ChunkQueue<(usize, N), CF>) -> (r: WorkUnit<N, CF>)
        requires
            q.wf(),
        ensures
            r.q == q,
            r.q2.wf(),
            r.q2@.len() == 0,
            r.r.cycles@.len() == 0,
            r.r.ends@.len() == 0,
    {
        let cf = q.factory();
        WorkUnit { q: q, q2: ChunkQueue::new(cf), r: DfsRes::new() }
    }
}

/// Takes the next node off `w.q` and expands it (a node the graph cannot expand has no
/// successors): ends met are recorded, successors closing a cycle are recorded as cycles, the
/// others are queued on `w.q2`.  Returns false, changing nothing, when `w.q` is empty.
pub fn expand_one<N, CF, GE>(ge: &GE, kns: &KnPile<N::KN>, w: &mut WorkUnit<N, CF>) -> (r: bool)
    where
        N: DfsNode + Copy,
        N::KN: Copy,
        CF: ChunkFactory<(usize, N)> + Copy,
        GE: DfsGraph<N>,
    requires
        ge.spec_wf(),
        kns.wf(),
        old(w).q.wf(),
        old(w).q2.wf(),
        old(w).q@.len() > 0 ==> old(w).q@[0].0 < kns@.len(),
        old(w).q@.len() > 0 ==> old(w).q2@.len() + ge.spec_expand(old(w).q@[0].1).len() < usize::MAX,
    ensures
        final(w).q.wf(),
        final(w).q2.wf(),
        final(w).q.spec_cf() == old(w).q.spec_cf(),
        final(w).q2.spec_cf() == old(w).q2.spec_cf(),
        old(w).q@.len() == 0 ==> {
            &&& !r
            &&& final(w).q@ == old(w).q@
            &&& final(w).q2@ == old(w).q2@
            &&& final(w).r.ends@ == old(w).r.ends@
            &&& final(w).r.cycles@ == old(w).r.cycles@
        },
        old(w).q@.len() > 0 ==> {
            let (prev, n) = old(w).q@[0];
            let s = if ge.spec_node_ok(n) {
                ge.spec_expand(n)
            } else {
                Seq::empty()
            };
            &&& r
            &&& final(w).q@ == old(w).q@.drop_first()
            &&& final(w).q2@ == old(w).q2@ + succs_q2(kns, prev, s)
            &&& end_paths(final(w).r.ends@) == end_paths(old(w).r.ends@) + succs_end(ge, kns, prev, s)
            &&& cycle_views(final(w).r.cycles@) == cycle_views(old(w).r.cycles@) + succs_cycle(kns, prev, s)
        },
        ends_labelled(ge, old(w).r.ends@) ==> ends_labelled(ge, final(w).r.ends@),
{
    let (prev_idx, n) = match w.q.pop_front() {
        Some(p) => p,
        None => {
            return false;
        },
    };
    let n2s: Vec<N> = if ge.can_expand(&n) {
        ge.expand(&n)
    } else {
        Vec::new()
    };
    let kl = kns.len();
    let ghost s = n2s@;
    let ghost q2_0 = w.q2@;
    let ghost ends_0 = end_paths(w.r.ends@);
    let ghost cycles_0 = cycle_views(w.r.cycles@);
    let mut i: usize = 0;
    while i < n2s.len()
        invariant
            ge.spec_wf(),
            kns.wf(),
            kl == kns@.len(),
            prev_idx < kns@.len(),
            w.q.wf(),
            w.q@ == old(w).q@.drop_first(),
            w.q.spec_cf() == old(w).q.spec_cf(),
            s == n2s@,
            i <= s.len(),
            w.q2.wf(),
            w.q2.spec_cf() == old(w).q2.spec_cf(),
            q2_0.len() + s.len() < usize::MAX,
            w.q2@ == q2_0 + succs_q2(kns, prev_idx, s.subrange(0, i as int)),
            ends_labelled(ge, old(w).r.ends@) ==> ends_labelled(ge, w.r.ends@),
            end_paths(w.r.ends@) == ends_0 + succs_end(ge, kns, prev_idx, s.subrange(0, i as int)),
            cycle_views(w.r.cycles@) == cycles_0 + succs_cycle(kns, prev_idx, s.subrange(0, i as int)),
            succs_q2(kns, prev_idx, s.subrange(0, i as int)).len() <= i,
        decreases s.len() - i,
    {
        let n2 = n2s[i];
        let ghost pre = s.subrange(0, i as int);
        let ghost nxt = s.subrange(0, i + 1);
        assert(nxt.drop_last() =~= pre);
        assert(nxt.last() == n2);
        let ghost ends_before = w.r.ends@;
        let ghost cycles_before = w.r.cycles@;
        let kn2o = n2.key_node();
        if let Some(kn2) = kn2o {
            match ge.end(&kn2) {
                Some(label) => {
                    let mut path = kns.materialize_cloned(prev_idx);
                    path.push(kn2);
                    w.r.add_end(path, string_of(label));
                    assert(end_paths(w.r.ends@) =~= end_paths(ends_before).push(kns.path(prev_idx as int).push(kn2)));
                    assert(ends_labelled(ge, ends_before) ==> ends_labelled(ge, w.r.ends@)) by {
                        if ends_labelled(ge, ends_before) {
                            assert forall|k: int| 0 <= k < w.r.ends@.len() implies (#[trigger] w.r.ends@[k]).0@.len()
                                > 0 && w.r.ends@[k].1@ == ge.spec_end_label(w.r.ends@[k].0@.last()) by {
                                if k < ends_before.len() {
                                    assert(w.r.ends@[k] == ends_before[k]);
                                }
                            }
                        }
                    }
                },
                None => {
                    assert(end_paths(w.r.ends@) =~= end_paths(ends_before));
                },
            }
            let ghost ends_mid = w.r.ends@;
            let f = |idx: usize, _p: usize, kn: &N::KN| -> (r: Option<usize>)
                ensures
                    r == (if kn.spec_hash_node() == kn2.spec_hash_node() {
                        Some(idx)
                    } else {
                        None
                    }),
                {
                    if kn.same_hash_node(&kn2) {
                        Some(idx)
                    } else {
                        None
                    }
                };
            let hit = kns.find(prev_idx, &f);
            proof {
                let ch = pile_chain(kns@, prev_idx as int);
                match hit {
                    Some(t) => {
                        let k = choose|k: int|
                            0 <= k < ch.len() && call_ensures(
                                f,
                                (ch[k], kns@[ch[k] as int].0, &kns@[ch[k] as int].1),
                                Some(t),
                            ) && forall|m: int|
                                0 <= m < k ==> call_ensures(
                                    f,
                                    (#[trigger] ch[m], kns@[ch[m] as int].0, &kns@[ch[m] as int].1),
                                    None::<usize>,
                                );
                        assert forall|m: int| 0 <= m < k implies kns@[#[trigger] ch[m] as int].1.spec_hash_node()
                            != kn2.spec_hash_node() by {
                            assert(call_ensures(f, (ch[m], kns@[ch[m] as int].0, &kns@[ch[m] as int].1), None::<usize>));
                        }
                        lemma_first_hit_some(kns@, ch, kn2, 0, k);
                    },
                    None => {
                        assert forall|m: int| 0 <= m < ch.len() implies kns@[#[trigger] ch[m] as int].1.spec_hash_node()
                            != kn2.spec_hash_node() by {
                            assert(call_ensures(f, (ch[m], kns@[ch[m] as int].0, &kns@[ch[m] as int].1), None::<usize>));
                        }
                        lemma_first_hit_none(kns@, ch, kn2, 0);
                    },
                }
            }
            if let Some(rep_idx) = hit {
                proof {
                    crate::kn_pile::lemma_chain_in_range(kns@, prev_idx as int);
                }
                let mut path = kns.materialize_cloned(rep_idx);
                proof {
                    assert(kns@[rep_idx as int].0 < rep_idx);
                    assert(kns.path(rep_idx as int).len() >= 1);
                }
                let _ = path.pop();
                let whole = kns.materialize_cloned(prev_idx);
                let cycle = vec_skip(&whole, path.len());
                w.r.add_cycle(path, cycle, kn2);
                assert(cycle_views(w.r.cycles@) =~= cycle_views(cycles_before).push(succ_cycle(kns, prev_idx, n2)[0]));
                assert(succs_cycle(kns, prev_idx, nxt) =~= succs_cycle(kns, prev_idx, pre) + succ_cycle(kns, prev_idx, n2));
                assert(succs_q2(kns, prev_idx, nxt) =~= succs_q2(kns, prev_idx, pre));
                i = i + 1;
                continue;
            }
            assert(cycle_views(w.r.cycles@) =~= cycle_views(cycles_before));
        } else {
            assert(end_paths(w.r.ends@) =~= end_paths(ends_before));
            assert(cycle_views(w.r.cycles@) =~= cycle_views(cycles_before));
        }
        w.q2.push_back((prev_idx, n2));
        assert(succs_q2(kns, prev_idx, nxt) =~= succs_q2(kns, prev_idx, pre).push((prev_idx, n2)));
        i = i + 1;
    }
    assert(s.subrange(0, s.len() as int) =~= s);
    true
}

/// Whether a node reached by expanding ends the search.
pub open spec fn ends_search<N: DfsNode, GE: DfsGraph<N>>(ge: &GE, n: N) -> bool {
    match n.spec_key_node() {
        Some(kn) => ge.spec_end(kn),
        None => false,
    }
}

/// Whether `n` can still lead somewhere within `f` more expansions: `f` is 0, or some successor
/// ends the search or can lead somewhere within `f - 1`.
pub open spec fn reaches_within<N: DfsNode, GE: DfsGraph<N>>(ge: &GE, n: N, f: nat) -> bool
    decreases f, 0nat,
{
    if f == 0 {
        true
    } else if !ge.spec_node_ok(n) {
        false
    } else {
        some_reaches(ge, ge.spec_expand(n), (f - 1) as nat)
    }
}

/// Whether some node of `s` ends the search or can lead somewhere within `f` expansions.
pub open spec fn some_reaches<N: DfsNode, GE: DfsGraph<N>>(ge: &GE, s: Seq<N>, f: nat) -> bool
    decreases f, s.len() + 1,
{
    if s.len() == 0 {
        false
    } else {
        some_reaches(ge, s.drop_last(), f) || ends_search(ge, s.last()) || reaches_within(ge, s.last(), f)
    }
}

proof fn lemma_some_reaches_any<N: DfsNode, GE: DfsGraph<N>>(ge: &GE, s: Seq<N>, f: nat, i: int)
    requires
        0 <= i < s.len(),
        ends_search(ge, s[i]) || reaches_within(ge, s[i], f),
    ensures
        some_reaches(ge, s, f),
    decreases s.len(),
{
    if i < s.len() - 1 {
        lemma_some_reaches_any(ge, s.drop_last(), f, i);
    }
}

proof fn lemma_some_reaches_none<N: DfsNode, GE: DfsGraph<N>>(ge: &GE, s: Seq<N>, f: nat)
    requires
        forall|i: int| 0 <= i < s.len() ==> !ends_search(ge, #[trigger] s[i]) && !reaches_within(ge, s[i], f),
    ensures
        !some_reaches(ge, s, f),
    decreases s.len(),
{
    if s.len() > 0 {
        lemma_some_reaches_none(ge, s.drop_last(), f);
    }
}

/// Looks `foresight` expansions ahead of `n` for a way on (see `reaches_within`).
pub fn deepen_search<N: DfsNode + Copy, GE: DfsGraph<N>>(ge: &GE, n: &N, foresight: usize) -> (r: bool)
    requires
        ge.spec_wf(),
    ensures
        r == reaches_within(ge, *n, foresight as nat),
    decreases foresight,
{
    if foresight == 0 {
        return true;
    }
    if !ge.can_expand(n) {
        return false;
    }
    let n2s = ge.expand(n);
    let ghost s = n2s@;
    let mut i: usize = 0;
    while i < n2s.len()
        invariant
            ge.spec_wf(),
            s == n2s@,
            s == ge.spec_expand(*n),
            ge.spec_node_ok(*n),
            foresight > 0,
            i <= s.len(),
            forall|k: int|
                0 <= k < i ==> !ends_search(ge, #[trigger] s[k]) && !reaches_within(ge, s[k], (foresight - 1) as nat),
        decreases s.len() - i,
    {
        let n2 = n2s[i];
        if let Some(kn2) = n2.key_node() {
            if let Some(_) = ge.end(&kn2) {
                proof {
                    lemma_some_reaches_any(ge, s, (foresight - 1) as nat, i as int);
                }
                return true;
            }
        }
        if deepen_search(ge, &n2, foresight - 1) {
            proof {
                lemma_some_reaches_any(ge, s, (foresight - 1) as nat, i as int);
            }
            return true;
        }
        i = i + 1;
    }
    proof {
        lemma_some_reaches_none(ge, s, (foresight - 1) as nat);
    }
    false
}

/// Moves the next node of `q3` (step three of a search step) to `q4`: a node completing a row
/// gets its key node added to `kns`, and its queue entry then names the extended path; a node
/// whose hash node `should_dedupe` picks and `dedupe` already holds is dropped instead.  Returns
/// false, changing nothing, when `q3` is empty.
pub fn fold_one<N, CF, D>(
    q3: &mut ChunkQueue<(usize, N), CF>,
    q4: &mut ChunkQueue<(usize, N), CF>,
    kns: &mut KnPile<N::KN>,
    dedupe: &mut D,
    should_dedupe: &impl Fn(&<N::KN as DfsKeyNode>::HN) -> bool,
) -> (r: bool)
    where
        N: DfsNode + Copy,
        N::KN: Copy,
        CF: ChunkFactory<(usize, N)> + Copy,
        D: Bfs2Dedupe<<N::KN as DfsKeyNode>::HN>,
    requires
        old(kns).wf(),
        old(q3).wf(),
        old(q4).wf(),
        old(dedupe).wf(),
        old(q3)@.len() > 0 ==> old(q3)@[0].0 < old(kns)@.len(),
        old(q4)@.len() < usize::MAX,
        old(kns)@.len() < usize::MAX,
        forall|h: <N::KN as DfsKeyNode>::HN| #[trigger] call_requires(*should_dedupe, (&h,)),
    ensures
        final(kns).wf(),
        final(q3).wf(),
        final(q4).wf(),
        final(dedupe).wf(),
        final(q3).spec_cf() == old(q3).spec_cf(),
        final(q4).spec_cf() == old(q4).spec_cf(),
        old(q3)@.len() == 0 ==> !r && final(q3)@ == old(q3)@ && final(q4)@ == old(q4)@ && final(kns)@ == old(kns)@
            && final(dedupe).spec_set() == old(dedupe).spec_set(),
        old(q3)@.len() > 0 ==> r && final(q3)@ == old(q3)@.drop_first() && fold_step(
            old(q3)@[0],
            old(q4)@,
            final(q4)@,
            old(kns),
            final(kns),
            *should_dedupe,
            old(dedupe).spec_set(),
            final(dedupe).spec_set(),
        ),
{
    let (prev_idx, n) = match q3.pop_front() {
        Some(p) => p,
        None => {
            return false;
        },
    };
    let mut prev_idx = prev_idx;
    if let Some(kn) = n.key_node() {
        if let Some(hn) = kn.hash_node() {
            if should_dedupe(&hn) {
                if !dedupe.insert(hn) {
                    assert(dedupe.spec_set() =~= old(dedupe).spec_set());
                    return true;
                }
            }
        }
        prev_idx = kns.push(prev_idx, kn);
    }
    q4.push_back((prev_idx, n));
    proof {
        assert(final(q4)@.len() == old(q4)@.len() + 1);
    }
    true
}

/// Bytes taken by the key nodes of a search.
pub fn kns_mem<KN: Copy>(kns: &KnPile<KN>) -> (r: usize)
    requires
        kns@.len() * vstd::layout::size_of::<(usize, KN, usize)>() <= usize::MAX,
    ensures
        r == kns@.len() * vstd::layout::size_of::<(usize, KN, usize)>(),
{
    kns.len() * kns.esize()
}

/// Bytes taken by the entries of a queue.
pub fn q_mem<T, CF: ChunkFactory<T>>(q: &ChunkQueue<T, CF>) -> (r: usize)
    requires
        q.wf(),
        q@.len() * vstd::layout::size_of::<T>() <= usize::MAX,
    ensures
        r == q@.len() * vstd::layout::size_of::<T>(),
{
    q.len() * core::mem::size_of::<T>()
}

/// The number of key nodes on all the paths of `init`.
pub open spec fn chain_total<KN, N>(init: Seq<(Vec<KN>, N)>) -> nat
    decreases init.len(),
{
    if init.len() == 0 {
        0
    } else {
        chain_total(init.drop_last()) + init.last().0@.len()
    }
}

/// The state of a breadth-first search between steps: the key-node paths found so far, the
/// queue of nodes to expand (each with the entry of its path), the dedupe set, how far ahead
/// nodes are looked at before being kept, and the depth reached.
pub struct Bfs2State<N: DfsNode, CF, D> {
    pub kns: KnPile<N::KN>,
    pub q: ChunkQueue<(usize, N), CF>,
    pub dedupe: D,
    pub foresight: usize,
    pub depth: usize,
}

impl<N, CF, D> Bfs2State<N, CF, D>
    where
        N: DfsNode + Copy,
        N::KN: Copy + Default,
        CF: ChunkFactory<(usize, N)> + Copy,
        D: Bfs2Dedupe<<N::KN as DfsKeyNode>::HN>,
{
    /// A search starting from the nodes of `init`, each reached by its path of key nodes.
    pub fn new(init: Vec<(Vec<N::KN>, N)>, cf: CF) -> (r: Bfs2State<N, CF, D>)
        requires
        ensures
            r.kns.wf(),
            r.q.wf(),
            r.q.spec_cf() == cf,
            r.dedupe.wf(),
            r.dedupe.spec_set() == Set::<<N::KN as DfsKeyNode>::HN>::empty(),
            r.foresight == 0,
            r.depth == 0,
            r.q@.len() == init@.len(),
            r.kns@.len() == 1 + chain_total(init@),
            forall|k: int|
                0 <= k < init@.len() ==> {
                    &&& (#[trigger] r.q@[k]).1 == init@[k].1
                    &&& r.q@[k].0 < r.kns@.len()
                    &&& r.kns.path(r.q@[k].0 as int) == init@[k].0@
                },
    {
        let mut kns: KnPile<N::KN> = KnPile::new();
        let mut q: ChunkQueue<(usize, N), CF> = ChunkQueue::new(cf);
        let mut k: usize = 0;
        while k < init.len()
            invariant
                kns.wf(),
                q.wf(),
                q.spec_cf() == cf,
                k <= init@.len(),
                q@.len() == k,
                kns@.len() == 1 + chain_total(init@.subrange(0, k as int)),
                forall|j: int|
                    0 <= j < k ==> {
                        &&& (#[trigger] q@[j]).1 == init@[j].1
                        &&& q@[j].0 < kns@.len()
                        &&& kns.path(q@[j].0 as int) == init@[j].0@
                    },
            decreases init@.len() - k,
        {
            let kn0s = &init[k].0;
            let n0 = init[k].1;
            let mut idx: usize = 0;
            let mut i: usize = 0;
            assert(kns.path(0) =~= Seq::<N::KN>::empty());
            while i < kn0s.len()
                invariant
                    kns.wf(),
                    k < init@.len(),
                    kn0s == &init@[k as int].0,
                    i <= kn0s@.len(),
                    idx < kns@.len(),
                    kns.path(idx as int) == kn0s@.subrange(0, i as int),
                    q@.len() == k,
                    kns@.len() == 1 + chain_total(init@.subrange(0, k as int)) + i,
                    forall|j: int|
                        0 <= j < k ==> {
                            &&& (#[trigger] q@[j]).1 == init@[j].1
                            &&& q@[j].0 < kns@.len()
                            &&& kns.path(q@[j].0 as int) == init@[j].0@
                        },
                decreases kn0s@.len() - i,
            {
                let ghost before = kns;
                idx = kns.push(idx, kn0s[i]);
                assert(kn0s@.subrange(0, i + 1) =~= kn0s@.subrange(0, i as int).push(kn0s@[i as int]));
                assert forall|j: int| 0 <= j < k implies {
                    &&& (#[trigger] q@[j]).1 == init@[j].1
                    &&& q@[j].0 < kns@.len()
                    &&& kns.path(q@[j].0 as int) == init@[j].0@
                } by {
                    assert(before.path(q@[j].0 as int) == init@[j].0@);
                }
                i = i + 1;
            }
            assert(kn0s@.subrange(0, kn0s@.len() as int) =~= kn0s@);
            q.push_back((idx, n0));
            assert(init@.subrange(0, k + 1).drop_last() =~= init@.subrange(0, k as int));
            k = k + 1;
        }
        assert(init@.subrange(0, k as int) =~= init@);
        Bfs2State { kns: kns, q: q, dedupe: D::new(), foresight: 0, depth: 0 }
    }

    /// A search starting from `n0`, reached by its own key node alone.
    pub fn new_simple(n0: N, cf: CF) -> (r: Bfs2State<N, CF, D>)
        requires
            n0.spec_key_node() is Some,
        ensures
            r.kns.wf(),
            r.q.wf(),
            r.q.spec_cf() == cf,
            r.dedupe.wf(),
            r.dedupe.spec_set() == Set::<<N::KN as DfsKeyNode>::HN>::empty(),
            r.foresight == 0,
            r.depth == 0,
            r.q@.len() == 1,
            r.q@[0].1 == n0,
            r.q@[0].0 < r.kns@.len(),
            r.kns.path(r.q@[0].0 as int) == seq![n0.spec_key_node().unwrap()],
    {
        let kn0 = n0.key_node().unwrap();
        let r = Self::new(vec![(vec![kn0], n0)], cf);
        proof {
            assert(r.q@[0].1 == n0);
        }
        r
    }
}

/// Whether the parts of a saved search fit together: each key-node entry's parent comes
/// before it (the entry at `i` becomes entry `i + 1` of the pile, after the root), and each
/// queue entry names an entry of the pile.
pub open spec fn parts_fit<KN, N>(kn_entries: Seq<(usize, KN)>, q: Seq<(usize, N)>) -> bool {
    &&& forall|i: int| 0 <= i < kn_entries.len() ==> (#[trigger] kn_entries[i]).0 <= i
    &&& forall|j: int| 0 <= j < q.len() ==> (#[trigger] q[j]).0 <= kn_entries.len()
}

/// A search state put back together from the parts that a saved search holds: the key-node
/// entries after the root (each with its parent's index and its key node), the queue, the
/// hash nodes of the dedupe set, the foresight and the depth.  `None` when the parts do not
/// fit together (see `parts_fit`).
pub fn bfs2_state_from_parts<N, CF, D>(
    kn_entries: Vec<(usize, N::KN)>,
    q: Vec<(usize, N)>,
    dedupe: Vec<<N::KN as DfsKeyNode>::HN>,
    foresight: usize,
    depth: usize,
    cf: CF,
) -> (r: Option<Bfs2State<N, CF, D>>)
    where
        N: DfsNode + Copy,
        N::KN: Copy + Default,
        CF: ChunkFactory<(usize, N)> + Copy,
        D: Bfs2Dedupe<<N::KN as DfsKeyNode>::HN>,
    requires
        kn_entries@.len() < usize::MAX,
        q@.len() < usize::MAX,
    ensures
        r is Some <==> parts_fit(kn_entries@, q@),
        r matches Some(st) ==> {
            &&& st.kns.wf()
            &&& st.q.wf()
            &&& st.dedupe.wf()
            &&& st.q.spec_cf() == cf
            &&& st.kns@.len() == kn_entries@.len() + 1
            &&& forall|i: int|
                0 <= i < kn_entries@.len() ==> #[trigger] st.kns@[i + 1] == (
                    kn_entries@[i].0,
                    kn_entries@[i].1,
                    0usize,
                )
            &&& st.q@ == q@
            &&& st.dedupe.spec_set() == dedupe@.to_set()
            &&& st.foresight == foresight
            &&& st.depth == depth
        },
{
    let mut i: usize = 0;
    while i < kn_entries.len()
        invariant
            i <= kn_entries@.len(),
            forall|j: int| 0 <= j < i ==> (#[trigger] kn_entries@[j]).0 <= j,
        decreases kn_entries@.len() - i,
    {
        if kn_entries[i].0 > i {
            return None;
        }
        i = i + 1;
    }
    let mut j: usize = 0;
    while j < q.len()
        invariant
            j <= q@.len(),
            forall|k: int| 0 <= k < j ==> (#[trigger] q@[k]).0 <= kn_entries@.len(),
        decreases q@.len() - j,
    {
        if q[j].0 > kn_entries.len() {
            return None;
        }
        j = j + 1;
    }
    let mut kns: KnPile<N::KN> = KnPile::new();
    let mut i: usize = 0;
    while i < kn_entries.len()
        invariant
            parts_fit(kn_entries@, q@),
            kn_entries@.len() < usize::MAX,
            i <= kn_entries@.len(),
            kns.wf(),
            kns@.len() == i + 1,
            forall|k: int| 0 <= k < i ==> #[trigger] kns@[k + 1] == (kn_entries@[k].0, kn_entries@[k].1, 0usize),
        decreases kn_entries@.len() - i,
    {
        let (p, kn) = kn_entries[i];
        assert(kn_entries@[i as int].0 <= i);
        let ghost before = kns@;
        kns.push(p, kn);
        assert forall|k: int| 0 <= k < i + 1 implies #[trigger] kns@[k + 1] == (
            kn_entries@[k].0,
            kn_entries@[k].1,
            0usize,
        ) by {
            if k < i {
                assert(kns@[k + 1] == before[k + 1]);
            }
        }
        i = i + 1;
    }
    let mut qq: ChunkQueue<(usize, N), CF> = ChunkQueue::new(cf);
    let mut j: usize = 0;
    while j < q.len()
        invariant
            q@.len() < usize::MAX,
            j <= q@.len(),
            qq.wf(),
            qq.spec_cf() == cf,
            qq@ == q@.subrange(0, j as int),
        decreases q@.len() - j,
    {
        qq.push_back(q[j]);
        assert(q@.subrange(0, j + 1) =~= q@.subrange(0, j as int).push(q@[j as int]));
        j = j + 1;
    }
    assert(q@.subrange(0, j as int) =~= q@);
    let mut d = D::new();
    let mut rest = dedupe;
    proof {
        assert(d.spec_set().union(rest@.to_set()) =~= dedupe@.to_set());
    }
    while rest.len() > 0
        invariant
            d.wf(),
            d.spec_set().union(rest@.to_set()) == dedupe@.to_set(),
        decreases rest@.len(),
    {
        let ghost before = rest@;
        let h = rest.pop().unwrap();
        assert(before == rest@.push(h));
        assert(before.drop_last() =~= rest@);
        assert(rest@.to_set().insert(h) =~= before.to_set());
        let ghost d0 = d.spec_set();
        d.insert(h);
        assert(d.spec_set().union(rest@.to_set()) =~= d0.union(before.to_set()));
    }
    assert(rest@.to_set() =~= Set::empty());
    assert(d.spec_set().union(rest@.to_set()) =~= d.spec_set());
    Some(Bfs2State { kns: kns, q: qq, dedupe: d, foresight: foresight, depth: depth })
}

/// Drops the nodes of `q` that cannot lead anywhere within `foresight` expansions (see
/// `reaches_within`), keeping the others in order, and compacts the queue.
pub fn deepen_queue<N, CF, GE>(ge: &GE, q: &mut ChunkQueue<(usize, N), CF>, foresight: usize)
    where
        N: DfsNode + Copy,
        CF: ChunkFactory<(usize, N)>,
        GE: DfsGraph<N>,
    requires
        ge.spec_wf(),
        old(q).wf(),
    ensures
        final(q).wf(),
        final(q).spec_cf() == old(q).spec_cf(),
        final(q)@ == filter_by(
            old(q)@,
            old(q)@.map_values(|e: (usize, N)| reaches_within(ge, e.1, foresight as nat)),
        ),
{
    let f = |e: &(usize, N)| -> (r: bool)
        requires
            ge.spec_wf(),
        ensures
            r == reaches_within(ge, e.1, foresight as nat),
        { deepen_search(ge, &e.1, foresight) };
    let ghost q0 = q@;
    q.retain(&f);
    proof {
        let keep = choose|keep: Seq<bool>|
            {
                &&& keep.len() == q0.len()
                &&& forall|k: int| 0 <= k < keep.len() ==> call_ensures(f, (&q0[k],), #[trigger] keep[k])
                &&& q@ == filter_by(q0, keep)
            };
        assert(keep =~= q0.map_values(|e: (usize, N)| reaches_within(ge, e.1, foresight as nat)));
    }
    q.defragment();
}

/// What a search does next, by the bytes its queue and key nodes take.
#[derive(Clone, Copy, PartialEq, Eq, Structural, Debug)]
pub enum Bfs2Action {
    /// Expand the queue as it is.
    Expand,
    /// Look one level further ahead and thin the queue first (see `bfs2_deepen`).
    Deepen,
}

/// A search whose queue takes `q_mem` bytes and whose key nodes take `kns_mem` deepens when
/// together they pass `max_mem`, and otherwise expands.
pub fn bfs2_next_action(q_mem: usize, kns_mem: usize, max_mem: usize) -> (r: Bfs2Action)
    ensures
        r == (if q_mem + kns_mem > max_mem {
            Bfs2Action::Deepen
        } else {
            Bfs2Action::Expand
        }),
{
    if q_mem > max_mem || kns_mem > max_mem - q_mem {
        Bfs2Action::Deepen
    } else {
        Bfs2Action::Expand
    }
}

/// Drops the key nodes that no queued node needs (see `KnPile::rebuild`), renaming the
/// queue's entries; each queued node keeps naming the same path.
pub fn bfs2_rebuild<N, CF, D>(state: &mut Bfs2State<N, CF, D>)
    where
        N: DfsNode + Copy,
        N::KN: Copy,
        CF: ChunkFactory<(usize, N)> + Copy,
    requires
        old(state).kns.wf(),
        old(state).q.wf(),
        queue_ok(old(state).q@, &old(state).kns),
    ensures
        final(state).kns.wf(),
        final(state).q.wf(),
        final(state).q.spec_cf() == old(state).q.spec_cf(),
        final(state).q@.len() == old(state).q@.len(),
        queue_ok(final(state).q@, &final(state).kns),
        forall|i: int| 0 <= i < final(state).q@.len() ==> {
            &&& (#[trigger] final(state).q@[i]).1 == old(state).q@[i].1
            &&& final(state).kns.path(final(state).q@[i].0 as int) == old(state).kns.path(old(state).q@[i].0 as int)
            &&& final(state).q@[i].0 == (if old(state).q@[i].0 == 0 {
                0
            } else {
                packed_index(pin_marks(old(state).kns@, entry_indices(old(state).q@)), old(state).q@[i].0 as int) as usize
            })
        },
        final(state).kns@.len() == 1 + count_marked(
            pin_marks(old(state).kns@, entry_indices(old(state).q@)),
            old(state).kns@.len() as int,
        ),
        final(state).dedupe == old(state).dedupe,
        final(state).foresight == old(state).foresight,
        final(state).depth == old(state).depth,
{
    let cf = state.q.factory();
    let mut ql = state.q.iter();
    let ghost q0 = ql@;
    let r = crate::bfs::bfs1::compact_level(&mut state.kns, &mut ql, true, 0);
    assert(r);
    let mut q: ChunkQueue<(usize, N), CF> = ChunkQueue::new(cf);
    let mut i: usize = 0;
    while i < ql.len()
        invariant
            i <= ql@.len(),
            ql@.len() == q0.len(),
            q.wf(),
            q.spec_cf() == cf,
            q@ == ql@.subrange(0, i as int),
        decreases ql@.len() - i,
    {
        q.push_back(ql[i]);
        assert(ql@.subrange(0, i + 1) =~= ql@.subrange(0, i as int).push(ql@[i as int]));
        i = i + 1;
    }
    assert(ql@.subrange(0, i as int) =~= ql@);
    state.q = q;
}

/// Looks one level further ahead: the foresight goes up by one, and the queue keeps, in order,
/// the nodes that can go that many levels on (see `deepen_queue`).
pub fn bfs2_deepen<N, CF, D, GE>(state: &mut Bfs2State<N, CF, D>, ge: &GE)
    where
        N: DfsNode + Copy,
        CF: ChunkFactory<(usize, N)>,
        GE: DfsGraph<N>,
    requires
        ge.spec_wf(),
        old(state).q.wf(),
        old(state).foresight < usize::MAX,
    ensures
        final(state).q.wf(),
        final(state).q.spec_cf() == old(state).q.spec_cf(),
        final(state).foresight == old(state).foresight + 1,
        final(state).q@ == filter_by(
            old(state).q@,
            old(state).q@.map_values(|e: (usize, N)| reaches_within(ge, e.1, final(state).foresight as nat)),
        ),
        final(state).kns == old(state).kns,
        final(state).dedupe == old(state).dedupe,
        final(state).depth == old(state).depth,
{
    state.foresight = state.foresight + 1;
    deepen_queue(ge, &mut state.q, state.foresight);
}

/// The queue entries that expanding the nodes of `ql` in turn gives (see `expand_one`).
pub open spec fn level2_q2<N: DfsNode, GE: DfsGraph<N>>(ge: &GE, kns: &KnPile<N::KN>, ql: Seq<(usize, N)>) -> Seq<(usize, N)>
    where N::KN: Copy,
{
    flat(ql, |e: (usize, N)| succs_q2(kns, e.0, node_succs(ge, e.1)))
}

/// The end paths that expanding the nodes of `ql` in turn finds.
pub open spec fn level2_ends<N: DfsNode, GE: DfsGraph<N>>(ge: &GE, kns: &KnPile<N::KN>, ql: Seq<(usize, N)>) -> Seq<Seq<N::KN>>
    where N::KN: Copy,
{
    flat(ql, |e: (usize, N)| succs_end(ge, kns, e.0, node_succs(ge, e.1)))
}

/// The cycles that expanding the nodes of `ql` in turn closes.
pub open spec fn level2_cycles<N: DfsNode, GE: DfsGraph<N>>(ge: &GE, kns: &KnPile<N::KN>, ql: Seq<(usize, N)>) -> Seq<
    (Seq<N::KN>, Seq<N::KN>, N::KN),
>
    where N::KN: Copy,
{
    flat(ql, |e: (usize, N)| succs_cycle(kns, e.0, node_succs(ge, e.1)))
}

/// Each entry on the chain from `idx` names a non-empty path ending in that entry's key node,
/// a prefix of the path that `idx` names.
pub proof fn lemma_chain_prefix<N>(e: Seq<(usize, N, usize)>, idx: int, k: int)
    requires
        0 <= k < pile_chain(e, idx).len(),
        e.len() <= usize::MAX,
    ensures
        ({
            let c = pile_chain(e, idx)[k] as int;
            &&& pile_path(e, c).len() >= 1
            &&& pile_path(e, c).last() == e[c].1
            &&& pile_path(e, c).is_prefix_of(pile_path(e, idx))
        }),
    decreases idx,
{
    let par = e[idx].0 as int;
    if k == 0 {
        assert(pile_chain(e, idx)[0] == idx as usize);
        assert(pile_path(e, idx).subrange(0, pile_path(e, idx).len() as int) =~= pile_path(e, idx));
    } else {
        assert(pile_chain(e, idx)[k] == pile_chain(e, par)[k - 1]);
        lemma_chain_prefix(e, par, k - 1);
        let c = pile_chain(e, par)[k - 1] as int;
        let pc = pile_path(e, c);
        let pp = pile_path(e, par);
        assert(pile_path(e, idx) == pp.push(e[idx].1));
        assert(pile_path(e, idx).subrange(0, pc.len() as int) =~= pp.subrange(0, pc.len() as int));
    }
}

proof fn lemma_first_hit_found<KN: DfsKeyNode>(e: Seq<(usize, KN, usize)>, ch: Seq<usize>, kn: KN, from: int)
    requires
        first_hit(e, ch, kn, from) is Some,
    ensures
        exists|k: int|
            0 <= k < ch.len() && ch[k] == first_hit(e, ch, kn, from)->0 && e[(#[trigger] ch[k]) as int].1.spec_hash_node()
                == kn.spec_hash_node(),
    decreases ch.len() - from,
{
    if e[ch[from] as int].1.spec_hash_node() != kn.spec_hash_node() {
        lemma_first_hit_found(e, ch, kn, from + 1);
    }
}

/// Each cycle that meeting `n2` from the entry `prev` reports closes on the path of `prev`: the
/// path before the cycle followed by the cycle is that path, and the cycle is not empty and
/// starts with a key node with the hash node of the one closing it.
pub proof fn lemma_cycle_on_path<N: DfsNode>(kns: &KnPile<N::KN>, prev: usize, n2: N, i: int)
    where N::KN: Copy,
    requires
        0 <= i < succ_cycle(kns, prev, n2).len(),
        kns@.len() <= usize::MAX,
    ensures
        ({
            let c = succ_cycle(kns, prev, n2)[i];
            &&& c.0 + c.1 == kns.path(prev as int)
            &&& c.1.len() > 0
            &&& c.1[0].spec_hash_node() == c.2.spec_hash_node()
        }),
{
    let kn2 = n2.spec_key_node()->0;
    let rep = cycle_hit(kns, prev as int, kn2)->0;
    let ch = pile_chain(kns@, prev as int);
    lemma_first_hit_found(kns@, ch, kn2, 0);
    let k = choose|k: int|
        0 <= k < ch.len() && ch[k] == rep && kns@[(#[trigger] ch[k]) as int].1.spec_hash_node() == kn2.spec_hash_node();
    lemma_chain_prefix(kns@, prev as int, k);
    let pr = kns.path(rep as int);
    let pp = kns.path(prev as int);
    let path = pr.drop_last();
    assert(pp.subrange(0, pr.len() as int) == pr);
    let cyc = skip_or_empty(pp, path.len() as int);
    assert(cyc =~= pp.skip(path.len() as int));
    assert(path + cyc =~= pp);
    assert(cyc[0] == pr.last());
}

/// Each cycle that a step of a breadth-first search reports closes on the path of the queued
/// node it expands (see `lemma_cycle_on_path`).
pub proof fn lemma_level_cycles_on_paths<N: DfsNode, GE: DfsGraph<N>>(
    ge: &GE,
    kns: &KnPile<N::KN>,
    ql: Seq<(usize, N)>,
    i: int,
)
    where N::KN: Copy,
    requires
        0 <= i < level2_cycles(ge, kns, ql).len(),
        kns@.len() <= usize::MAX,
    ensures
        ({
            let c = level2_cycles(ge, kns, ql)[i];
            &&& exists|j: int| 0 <= j < ql.len() && c.0 + c.1 == kns.path((#[trigger] ql[j]).0 as int)
            &&& c.1.len() > 0
            &&& c.1[0].spec_hash_node() == c.2.spec_hash_node()
        }),
    decreases ql.len(),
{
    let f = |e: (usize, N)| succs_cycle(kns, e.0, node_succs(ge, e.1));
    let pre = ql.drop_last();
    assert(level2_cycles(ge, kns, ql) == flat(pre, f) + f(ql.last()));
    if i < flat(pre, f).len() {
        assert(level2_cycles(ge, kns, pre) == flat(pre, f));
        lemma_level_cycles_on_paths(ge, kns, pre, i);
        let j = choose|j: int|
            0 <= j < pre.len() && level2_cycles(ge, kns, pre)[i].0 + level2_cycles(ge, kns, pre)[i].1 == kns.path(
                (#[trigger] pre[j]).0 as int,
            );
        assert(pre[j] == ql[j]);
    } else {
        let e = ql.last();
        lemma_succs_cycle_on_path(kns, e.0, node_succs(ge, e.1), i - flat(pre, f).len());
        assert(ql[ql.len() - 1] == e);
    }
}

proof fn lemma_succs_cycle_on_path<N: DfsNode>(kns: &KnPile<N::KN>, prev: usize, s: Seq<N>, i: int)
    where N::KN: Copy,
    requires
        0 <= i < succs_cycle(kns, prev, s).len(),
        kns@.len() <= usize::MAX,
    ensures
        ({
            let c = succs_cycle(kns, prev, s)[i];
            &&& c.0 + c.1 == kns.path(prev as int)
            &&& c.1.len() > 0
            &&& c.1[0].spec_hash_node() == c.2.spec_hash_node()
        }),
    decreases s.len(),
{
    let pre = s.drop_last();
    if i < succs_cycle(kns, prev, pre).len() {
        lemma_succs_cycle_on_path(kns, prev, pre, i);
    } else {
        lemma_cycle_on_path(kns, prev, s.last(), i - succs_cycle(kns, prev, pre).len());
    }
}

/// Each end that a step of a breadth-first search reports is the path of the queued node it
/// expands, extended by a key node that ends the search.
pub proof fn lemma_level_ends_on_paths<N: DfsNode, GE: DfsGraph<N>>(
    ge: &GE,
    kns: &KnPile<N::KN>,
    ql: Seq<(usize, N)>,
    i: int,
)
    where N::KN: Copy,
    requires
        0 <= i < level2_ends(ge, kns, ql).len(),
    ensures
        exists|j: int, kn: N::KN|
            #![trigger ql[j], ge.spec_end(kn)]
            0 <= j < ql.len() && ge.spec_end(kn) && level2_ends(ge, kns, ql)[i] == kns.path(ql[j].0 as int).push(kn),
    decreases ql.len(),
{
    let f = |e: (usize, N)| succs_end(ge, kns, e.0, node_succs(ge, e.1));
    let pre = ql.drop_last();
    assert(level2_ends(ge, kns, ql) == flat(pre, f) + f(ql.last()));
    if i < flat(pre, f).len() {
        assert(level2_ends(ge, kns, pre) == flat(pre, f));
        lemma_level_ends_on_paths(ge, kns, pre, i);
        let (j, kn) = choose|j: int, kn: N::KN|
            #![trigger pre[j], ge.spec_end(kn)]
            0 <= j < pre.len() && ge.spec_end(kn) && level2_ends(ge, kns, pre)[i] == kns.path(pre[j].0 as int).push(kn);
        assert(pre[j] == ql[j]);
    } else {
        let e = ql.last();
        let kn = lemma_succs_end_on_path(ge, kns, e.0, node_succs(ge, e.1), i - flat(pre, f).len());
        assert(ql[ql.len() - 1] == e);
    }
}

proof fn lemma_succs_end_on_path<N: DfsNode, GE: DfsGraph<N>>(
    ge: &GE,
    kns: &KnPile<N::KN>,
    prev: usize,
    s: Seq<N>,
    i: int,
) -> (kn: N::KN)
    where N::KN: Copy,
    requires
        0 <= i < succs_end(ge, kns, prev, s).len(),
    ensures
        ge.spec_end(kn),
        succs_end(ge, kns, prev, s)[i] == kns.path(prev as int).push(kn),
    decreases s.len(),
{
    let pre = s.drop_last();
    if i < succs_end(ge, kns, prev, pre).len() {
        lemma_succs_end_on_path(ge, kns, prev, pre, i)
    } else {
        s.last().spec_key_node()->0
    }
}

/// How many successors the graph gives the nodes of `ql` in all.
pub open spec fn level_width<N: DfsNode, GE: DfsGraph<N>>(ge: &GE, ql: Seq<(usize, N)>) -> nat {
    flat(ql, |e: (usize, N)| ge.spec_expand(e.1)).len()
}

proof fn lemma_succs_q2_len<N: DfsNode>(kns: &KnPile<N::KN>, prev: usize, s: Seq<N>)
    where N::KN: Copy,
    ensures
        succs_q2(kns, prev, s).len() <= s.len(),
        forall|k: int| 0 <= k < succs_q2(kns, prev, s).len() ==> (#[trigger] succs_q2(kns, prev, s)[k]).0 == prev,
    decreases s.len(),
{
    if s.len() > 0 {
        lemma_succs_q2_len(kns, prev, s.drop_last());
        let a = succs_q2(kns, prev, s.drop_last());
        let b = succ_q2(kns, prev, s.last());
        assert forall|k: int| 0 <= k < (a + b).len() implies (#[trigger] (a + b)[k]).0 == prev by {
            if k >= a.len() {
                assert((a + b)[k] == b[k - a.len()]);
            }
        }
    }
}

proof fn lemma_level2_q2_bound<N: DfsNode, GE: DfsGraph<N>>(ge: &GE, kns: &KnPile<N::KN>, ql: Seq<(usize, N)>)
    where N::KN: Copy,
    ensures
        level2_q2(ge, kns, ql).len() <= level_width(ge, ql),
        forall|k: int| 0 <= k < level2_q2(ge, kns, ql).len() ==> exists|j: int| 0 <= j < ql.len() && (#[trigger] level2_q2(ge, kns, ql)[k]).0 == ql[j].0,
    decreases ql.len(),
{
    if ql.len() > 0 {
        let pre = ql.drop_last();
        let e = ql.last();
        lemma_level2_q2_bound(ge, kns, pre);
        lemma_succs_q2_len(kns, e.0, node_succs(ge, e.1));
        let a = level2_q2(ge, kns, pre);
        let b = succs_q2(kns, e.0, node_succs(ge, e.1));
        assert(level2_q2(ge, kns, ql) == a + b);
        assert(level_width(ge, ql) == level_width(ge, pre) + ge.spec_expand(e.1).len());
        assert forall|k: int| 0 <= k < (a + b).len() implies exists|j: int| 0 <= j < ql.len() && (#[trigger] (a + b)[k]).0 == ql[j].0 by {
            if k < a.len() {
                let j = choose|j: int| 0 <= j < pre.len() && a[k].0 == pre[j].0;
                assert(ql[j] == pre[j]);
            } else {
                assert((a + b)[k] == b[k - a.len()]);
                assert(ql[ql.len() - 1] == e);
            }
        }
    }
}

proof fn lemma_flat_take<A, B>(s: Seq<A>, f: spec_fn(A) -> Seq<B>, k: int)
    requires
        0 <= k < s.len(),
    ensures
        flat(s.take(k + 1), f) == flat(s.take(k), f) + f(s[k]),
{
    assert(s.take(k + 1).drop_last() =~= s.take(k));
}

proof fn lemma_width_take<N: DfsNode, GE: DfsGraph<N>>(ge: &GE, ql: Seq<(usize, N)>, k: int)
    requires
        0 <= k <= ql.len(),
    ensures
        level_width(ge, ql.take(k)) <= level_width(ge, ql),
    decreases ql.len() - k,
{
    if k < ql.len() {
        lemma_width_take(ge, ql, k + 1);
        lemma_flat_take(ql, |e: (usize, N)| ge.spec_expand(e.1), k);
    } else {
        assert(ql.take(k) =~= ql);
    }
}

/// Expands every node of `w.q` in turn (see `expand_one`), leaving `w.q` empty.
pub fn expand_unit<N, CF, GE>(ge: &GE, kns: &KnPile<N::KN>, w: &mut WorkUnit<N, CF>)
    where
        N: DfsNode + Copy,
        N::KN: Copy,
        CF: ChunkFactory<(usize, N)> + Copy,
        GE: DfsGraph<N>,
    requires
        ge.spec_wf(),
        kns.wf(),
        old(w).q.wf(),
        old(w).q2.wf(),
        forall|k: int| 0 <= k < old(w).q@.len() ==> (#[trigger] old(w).q@[k]).0 < kns@.len(),
        old(w).q2@.len() + level_width(ge, old(w).q@) < usize::MAX,
    ensures
        final(w).q.wf(),
        final(w).q2.wf(),
        final(w).q.spec_cf() == old(w).q.spec_cf(),
        final(w).q2.spec_cf() == old(w).q2.spec_cf(),
        final(w).q@.len() == 0,
        final(w).q2@ == old(w).q2@ + level2_q2(ge, kns, old(w).q@),
        end_paths(final(w).r.ends@) == end_paths(old(w).r.ends@) + level2_ends(ge, kns, old(w).q@),
        ends_labelled(ge, old(w).r.ends@) ==> ends_labelled(ge, final(w).r.ends@),
        cycle_views(final(w).r.cycles@) == cycle_views(old(w).r.cycles@) + level2_cycles(ge, kns, old(w).q@),
{
    let ghost q0 = w.q@;
    let ghost q2_0 = w.q2@;
    let ghost ends0 = end_paths(w.r.ends@);
    let ghost cycles0 = cycle_views(w.r.cycles@);
    let ghost k: int = 0;
    proof {
        assert(q0.take(0) =~= Seq::<(usize, N)>::empty());
        assert(q0.subrange(0, q0.len() as int) =~= q0);
    }
    loop
        invariant
            ge.spec_wf(),
            kns.wf(),
            0 <= k <= q0.len(),
            w.q.wf(),
            w.q2.wf(),
            w.q.spec_cf() == old(w).q.spec_cf(),
            w.q2.spec_cf() == old(w).q2.spec_cf(),
            q0 == old(w).q@,
            forall|j: int| 0 <= j < q0.len() ==> (#[trigger] q0[j]).0 < kns@.len(),
            q2_0.len() + level_width(ge, q0) < usize::MAX,
            w.q@ == q0.subrange(k, q0.len() as int),
            w.q2@ == q2_0 + level2_q2(ge, kns, q0.take(k)),
            end_paths(w.r.ends@) == ends0 + level2_ends(ge, kns, q0.take(k)),
            ends_labelled(ge, old(w).r.ends@) ==> ends_labelled(ge, w.r.ends@),
            cycle_views(w.r.cycles@) == cycles0 + level2_cycles(ge, kns, q0.take(k)),
        ensures
            k == q0.len(),
            w.q@.len() == 0,
            w.q.wf(),
            w.q2.wf(),
            w.q.spec_cf() == old(w).q.spec_cf(),
            w.q2.spec_cf() == old(w).q2.spec_cf(),
            w.q2@ == q2_0 + level2_q2(ge, kns, q0.take(k)),
            end_paths(w.r.ends@) == ends0 + level2_ends(ge, kns, q0.take(k)),
            ends_labelled(ge, old(w).r.ends@) ==> ends_labelled(ge, w.r.ends@),
            cycle_views(w.r.cycles@) == cycles0 + level2_cycles(ge, kns, q0.take(k)),
        decreases q0.len() - k,
    {
        proof {
            if k < q0.len() {
                assert(w.q@[0] == q0[k]);
                lemma_width_take(ge, q0, k + 1);
                lemma_flat_take(q0, |e: (usize, N)| ge.spec_expand(e.1), k);
                lemma_level2_q2_bound(ge, kns, q0.take(k));
            }
        }
        let more = expand_one(ge, kns, w);
        if !more {
            assert(k == q0.len());
            break;
        }
        proof {
            lemma_flat_take(q0, |e: (usize, N)| succs_q2(kns, e.0, node_succs(ge, e.1)), k);
            lemma_flat_take(q0, |e: (usize, N)| succs_end(ge, kns, e.0, node_succs(ge, e.1)), k);
            lemma_flat_take(q0, |e: (usize, N)| succs_cycle(kns, e.0, node_succs(ge, e.1)), k);
            assert(w.q@ =~= q0.subrange(k + 1, q0.len() as int));
            k = k + 1;
        }
    }
    proof {
        assert(q0.take(k) =~= q0);
    }
}

/// How many entries a work unit holds once the first `j` nodes of `q0` are expanded, from a
/// second queue `q2_0`: the nodes left, and the second queue with their successors.
pub open spec fn unit_load<N: DfsNode, GE: DfsGraph<N>>(
    ge: &GE,
    kns: &KnPile<N::KN>,
    q0: Seq<(usize, N)>,
    q2_0: Seq<(usize, N)>,
    j: int,
) -> int
    where N::KN: Copy,
{
    (q0.len() - j) + q2_0.len() + level2_q2(ge, kns, q0.take(j)).len()
}

/// Expands the queued nodes of `w` in turn (see `expand_one`) until the queue is empty or the
/// unit holds more than `room` entries.  Returns whether it stopped for room, and how many nodes
/// it expanded: the first nodes of the queue, after each of which but the last the unit fitted.
pub fn expand_unit_within<N, CF, GE>(ge: &GE, kns: &KnPile<N::KN>, w: &mut WorkUnit<N, CF>, room: usize) -> (r: (
    bool,
    usize,
))
    where
        N: DfsNode + Copy,
        N::KN: Copy,
        CF: ChunkFactory<(usize, N)> + Copy,
        GE: DfsGraph<N>,
    requires
        ge.spec_wf(),
        kns.wf(),
        old(w).q.wf(),
        old(w).q2.wf(),
        forall|k: int| 0 <= k < old(w).q@.len() ==> (#[trigger] old(w).q@[k]).0 < kns@.len(),
        old(w).q2@.len() + level_width(ge, old(w).q@) < usize::MAX,
    ensures
        final(w).q.wf(),
        final(w).q2.wf(),
        final(w).q.spec_cf() == old(w).q.spec_cf(),
        final(w).q2.spec_cf() == old(w).q2.spec_cf(),
        r.1 <= old(w).q@.len(),
        final(w).q@ == old(w).q@.subrange(r.1 as int, old(w).q@.len() as int),
        final(w).q2@ == old(w).q2@ + level2_q2(ge, kns, old(w).q@.take(r.1 as int)),
        end_paths(final(w).r.ends@) == end_paths(old(w).r.ends@) + level2_ends(ge, kns, old(w).q@.take(r.1 as int)),
        ends_labelled(ge, old(w).r.ends@) ==> ends_labelled(ge, final(w).r.ends@),
        cycle_views(final(w).r.cycles@) == cycle_views(old(w).r.cycles@) + level2_cycles(
            ge,
            kns,
            old(w).q@.take(r.1 as int),
        ),
        forall|j: int| 1 <= j < r.1 ==> #[trigger] unit_load(ge, kns, old(w).q@, old(w).q2@, j) <= room,
        r.0 ==> r.1 >= 1 && unit_load(ge, kns, old(w).q@, old(w).q2@, r.1 as int) > room,
        !r.0 ==> r.1 == old(w).q@.len() && (r.1 >= 1 ==> unit_load(ge, kns, old(w).q@, old(w).q2@, r.1 as int)
            <= room),
{
    let ghost q0 = w.q@;
    let ghost q2_0 = w.q2@;
    let ghost ends0 = end_paths(w.r.ends@);
    let ghost cycles0 = cycle_views(w.r.cycles@);
    let n0 = w.q.len();
    let mut k: usize = 0;
    proof {
        assert(q0.take(0) =~= Seq::<(usize, N)>::empty());
        assert(q0.subrange(0, q0.len() as int) =~= q0);
    }
    loop
        invariant
            ge.spec_wf(),
            kns.wf(),
            0 <= k <= q0.len(),
            q0.len() == n0,
            w.q.wf(),
            w.q2.wf(),
            w.q.spec_cf() == old(w).q.spec_cf(),
            w.q2.spec_cf() == old(w).q2.spec_cf(),
            q0 == old(w).q@,
            q2_0 == old(w).q2@,
            forall|j: int| 0 <= j < q0.len() ==> (#[trigger] q0[j]).0 < kns@.len(),
            q2_0.len() + level_width(ge, q0) < usize::MAX,
            w.q@ == q0.subrange(k as int, q0.len() as int),
            w.q2@ == q2_0 + level2_q2(ge, kns, q0.take(k as int)),
            end_paths(w.r.ends@) == ends0 + level2_ends(ge, kns, q0.take(k as int)),
            ends_labelled(ge, old(w).r.ends@) ==> ends_labelled(ge, w.r.ends@),
            cycle_views(w.r.cycles@) == cycles0 + level2_cycles(ge, kns, q0.take(k as int)),
            ends0 == end_paths(old(w).r.ends@),
            cycles0 == cycle_views(old(w).r.cycles@),
            forall|j: int| 1 <= j <= k ==> #[trigger] unit_load(ge, kns, q0, q2_0, j) <= room,
        decreases q0.len() - k,
    {
        proof {
            if k < q0.len() {
                assert(w.q@[0] == q0[k as int]);
                lemma_width_take(ge, q0, k + 1);
                lemma_flat_take(q0, |e: (usize, N)| ge.spec_expand(e.1), k as int);
                lemma_level2_q2_bound(ge, kns, q0.take(k as int));
            }
        }
        let more = expand_one(ge, kns, w);
        if !more {
            return (false, k);
        }
        proof {
            lemma_flat_take(q0, |e: (usize, N)| succs_q2(kns, e.0, node_succs(ge, e.1)), k as int);
            lemma_flat_take(q0, |e: (usize, N)| succs_end(ge, kns, e.0, node_succs(ge, e.1)), k as int);
            lemma_flat_take(q0, |e: (usize, N)| succs_cycle(kns, e.0, node_succs(ge, e.1)), k as int);
            assert(w.q@ =~= q0.subrange(k + 1, q0.len() as int));
        }
        k = k + 1;
        let ql = w.q.len();
        let q2l = w.q2.len();
        assert(unit_load(ge, kns, q0, q2_0, k as int) == ql + q2l);
        if q2l > room || ql > room - q2l {
            return (true, k);
        }
    }
}

/// The path of a node whose parent's path is `p`: `p`, extended by the node's own key node
/// when it has one.
pub open spec fn node_path<N: DfsNode>(p: Seq<N::KN>, n: N) -> Seq<N::KN> {
    match n.spec_key_node() {
        Some(kn) => p.push(kn),
        None => p,
    }
}

/// Every entry of `q` names an entry of `kns`.
pub open spec fn queue_ok<N: DfsNode>(q: Seq<(usize, N)>, kns: &KnPile<N::KN>) -> bool
    where N::KN: Copy,
{
    forall|k: int| 0 <= k < q.len() ==> (#[trigger] q[k]).0 < kns@.len()
}

/// `kns` only grew past `kns0`: the entries of `kns0` and their paths are unchanged.
pub open spec fn pile_grew<KN: Copy>(kns0: &KnPile<KN>, kns: &KnPile<KN>) -> bool {
    &&& kns0@.len() <= kns@.len()
    &&& forall|k: int| 0 <= k < kns0@.len() ==> #[trigger] kns@[k] == kns0@[k]
    &&& forall|k: int| 0 <= k < kns0@.len() ==> #[trigger] kns.path(k) == kns0.path(k)
}

/// Every entry of `q4` from `from` on holds the node of some entry of `q3`, with that entry's
/// path extended by the node's key node.
pub open spec fn folded_from<N: DfsNode>(q4: Seq<(usize, N)>, from: int, q3: Seq<(usize, N)>, kns: &KnPile<N::KN>) -> bool
    where N::KN: Copy,
{
    forall|m: int|
        from <= m < q4.len() ==> exists|j: int|
            0 <= j < q3.len() && (#[trigger] q4[m]).1 == q3[j].1 && kns.path(q4[m].0 as int) == node_path(
                kns.path(q3[j].0 as int),
                q3[j].1,
            )
}

/// The hash node of a node's key node, if it has both.
pub open spec fn node_hash<N: DfsNode>(n: N) -> Option<<N::KN as DfsKeyNode>::HN> {
    match n.spec_key_node() {
        Some(kn) => kn.spec_hash_node(),
        None => None,
    }
}

/// A node left out of a fold: its hash node was picked by `f` on that call, and `set` holds it.
pub open spec fn dropped<N: DfsNode, F: Fn(&<N::KN as DfsKeyNode>::HN) -> bool>(
    n: N,
    f: F,
    set: Set<<N::KN as DfsKeyNode>::HN>,
) -> bool {
    node_hash(n) matches Some(h) && call_ensures(f, (&h,), true) && set.contains(h)
}

/// Each queue entry as the path it names and its node.
pub open spec fn entry_views<N: DfsNode>(q: Seq<(usize, N)>, kns: &KnPile<N::KN>) -> Seq<(Seq<N::KN>, N)>
    where N::KN: Copy,
{
    q.map_values(|e: (usize, N)| (kns.path(e.0 as int), e.1))
}

/// Each queue entry as the path its node gets once folded, and its node.
pub open spec fn folded_views<N: DfsNode>(q: Seq<(usize, N)>, kns: &KnPile<N::KN>) -> Seq<(Seq<N::KN>, N)>
    where N::KN: Copy,
{
    q.map_values(|e: (usize, N)| (node_path(kns.path(e.0 as int), e.1), e.1))
}

/// A fold of the entries `q3` onto `q4` (which held `q40`), with the dedupe set going from
/// `s0` to `s1`, where `keep` tells which entries of `q3` were kept: `q4` is `q40` followed by
/// the kept entries, in order, each naming its extended path; each entry left out was
/// `dropped`; the set only grew, and by the hash nodes of the new entries alone; and a hash
/// node that `f` never refuses is held by at most one new entry, which `s0` did not hold and
/// `s1` does.
pub open spec fn folded_with<N: DfsNode, F: Fn(&<N::KN as DfsKeyNode>::HN) -> bool>(
    q3: Seq<(usize, N)>,
    keep: Seq<bool>,
    q40: Seq<(usize, N)>,
    q4: Seq<(usize, N)>,
    kns: &KnPile<N::KN>,
    f: F,
    s0: Set<<N::KN as DfsKeyNode>::HN>,
    s1: Set<<N::KN as DfsKeyNode>::HN>,
) -> bool
    where N::KN: Copy,
{
    let fresh = q4.subrange(q40.len() as int, q4.len() as int);
    &&& q40.len() <= q4.len()
    &&& q4.subrange(0, q40.len() as int) == q40
    &&& keep.len() == q3.len()
    &&& filter_by(folded_views(q3, kns), keep) == entry_views(fresh, kns)
    &&& forall|j: int| 0 <= j < q3.len() && !(#[trigger] keep[j]) ==> dropped(q3[j].1, f, s1)
    &&& s0.subset_of(s1)
    &&& forall|h: <N::KN as DfsKeyNode>::HN| #[trigger] s1.contains(h) ==> s0.contains(h) || exists|m: int|
        0 <= m < fresh.len() && node_hash(#[trigger] fresh[m].1) == Some(h)
    &&& forall|m: int|
        0 <= m < fresh.len() ==> (#[trigger] node_hash(fresh[m].1) matches Some(h) ==> (!call_ensures(f, (&h,), false)
            ==> !s0.contains(h) && s1.contains(h)))
    &&& forall|m1: int, m2: int|
        0 <= m1 < fresh.len() && 0 <= m2 < fresh.len() && #[trigger] node_hash(fresh[m1].1) == #[trigger] node_hash(
            fresh[m2].1,
        ) && (node_hash(fresh[m1].1) matches Some(h) && !call_ensures(f, (&h,), false)) ==> m1 == m2
}

/// `folded_with` for some choice of the entries kept.
pub open spec fn folded<N: DfsNode, F: Fn(&<N::KN as DfsKeyNode>::HN) -> bool>(
    q3: Seq<(usize, N)>,
    q40: Seq<(usize, N)>,
    q4: Seq<(usize, N)>,
    kns: &KnPile<N::KN>,
    f: F,
    s0: Set<<N::KN as DfsKeyNode>::HN>,
    s1: Set<<N::KN as DfsKeyNode>::HN>,
) -> bool
    where N::KN: Copy,
{
    exists|keep: Seq<bool>| folded_with(q3, keep, q40, q4, kns, f, s0, s1)
}

/// What `fold_one` did with the entry `e`, taking `q4` from `q4a` to `q4b`, the pile from
/// `ka` to `kb` and the dedupe set from `sa` to `sb`.
pub open spec fn fold_step<N: DfsNode, F: Fn(&<N::KN as DfsKeyNode>::HN) -> bool>(
    e: (usize, N),
    q4a: Seq<(usize, N)>,
    q4b: Seq<(usize, N)>,
    ka: &KnPile<N::KN>,
    kb: &KnPile<N::KN>,
    f: F,
    sa: Set<<N::KN as DfsKeyNode>::HN>,
    sb: Set<<N::KN as DfsKeyNode>::HN>,
) -> bool
    where N::KN: Copy,
{
    let (prev, n) = e;
    match n.spec_key_node() {
        None => {
            &&& q4b == q4a.push((prev, n))
            &&& kb@ == ka@
            &&& sb == sa
        },
        Some(kn) => {
            if q4b == q4a {
                &&& kn.spec_hash_node() matches Some(h) && call_ensures(f, (&h,), true) && sa.contains(h)
                &&& kb@ == ka@
                &&& sb == sa
            } else {
                &&& q4b == q4a.push((ka@.len() as usize, n))
                &&& kb@ == ka@.push((prev, kn, 0usize))
                &&& kb.path(ka@.len() as int) == ka.path(prev as int).push(kn)
                &&& kn.spec_hash_node() is None ==> sb == sa
                &&& kn.spec_hash_node() matches Some(h) ==> ((call_ensures(f, (&h,), false) && sb == sa) || (
                call_ensures(f, (&h,), true) && !sa.contains(h) && sb == sa.insert(h)))
            }
        },
    }
}

proof fn lemma_views_stable<N: DfsNode>(q: Seq<(usize, N)>, kns_a: &KnPile<N::KN>, kns_b: &KnPile<N::KN>)
    where N::KN: Copy,
    requires
        queue_ok(q, kns_a),
        pile_grew(kns_a, kns_b),
    ensures
        entry_views(q, kns_b) == entry_views(q, kns_a),
        folded_views(q, kns_b) == folded_views(q, kns_a),
{
    assert(entry_views(q, kns_b) =~= entry_views(q, kns_a)) by {
        assert forall|i: int| 0 <= i < q.len() implies entry_views(q, kns_b)[i] == entry_views(q, kns_a)[i] by {
            assert(q[i].0 < kns_a@.len());
        }
    }
    assert(folded_views(q, kns_b) =~= folded_views(q, kns_a)) by {
        assert forall|i: int| 0 <= i < q.len() implies folded_views(q, kns_b)[i] == folded_views(q, kns_a)[i] by {
            assert(q[i].0 < kns_a@.len());
        }
    }
}

#[verifier::rlimit(60)]
proof fn lemma_folded_step<N: DfsNode, F: Fn(&<N::KN as DfsKeyNode>::HN) -> bool>(
    q3: Seq<(usize, N)>,
    k: int,
    keep: Seq<bool>,
    q40: Seq<(usize, N)>,
    q4a: Seq<(usize, N)>,
    q4b: Seq<(usize, N)>,
    ka: &KnPile<N::KN>,
    kb: &KnPile<N::KN>,
    f: F,
    s0: Set<<N::KN as DfsKeyNode>::HN>,
    sa: Set<<N::KN as DfsKeyNode>::HN>,
    sb: Set<<N::KN as DfsKeyNode>::HN>,
)
    where N::KN: Copy,
    requires
        0 <= k < q3.len(),
        folded_with(q3.subrange(0, k), keep, q40, q4a, ka, f, s0, sa),
        fold_step(q3[k], q4a, q4b, ka, kb, f, sa, sb),
        queue_ok(q3, ka),
        queue_ok(q4a, ka),
        pile_grew(ka, kb),
        ka@.len() < usize::MAX,
    ensures
        folded_with(q3.subrange(0, k + 1), keep.push(q4b != q4a), q40, q4b, kb, f, s0, sb),
{
    let (prev, n) = q3[k];
    let b = q4b != q4a;
    let sub = q3.subrange(0, k);
    let fa = q4a.subrange(q40.len() as int, q4a.len() as int);
    let fb = q4b.subrange(q40.len() as int, q4b.len() as int);
    assert(queue_ok(fa, ka)) by {
        assert forall|m: int| 0 <= m < fa.len() implies (#[trigger] fa[m]).0 < ka@.len() by {
            assert(fa[m] == q4a[q40.len() + m]);
        }
    }
    assert(queue_ok(sub, ka)) by {
        assert forall|m: int| 0 <= m < sub.len() implies (#[trigger] sub[m]).0 < ka@.len() by {
            assert(sub[m] == q3[m]);
        }
    }
    lemma_views_stable(fa, ka, kb);
    lemma_views_stable(sub, ka, kb);
    assert(prev < ka@.len());
    assert(kb.path(prev as int) == ka.path(prev as int));
    let x = (node_path(kb.path(prev as int), n), n);
    assert(q3.subrange(0, k + 1) =~= sub.push((prev, n)));
    assert(folded_views(sub.push((prev, n)), kb) =~= folded_views(sub, kb).push(x));
    crate::chunk_store::lemma_filter_by_push(folded_views(sub, kb), keep, x, b);
    assert(sa.subset_of(sb));
    if b {
        let e = q4b[q4b.len() - 1];
        assert(q4b == q4a.push(e));
        assert(fb =~= fa.push(e));
        assert(q4b.subrange(0, q40.len() as int) =~= q4a.subrange(0, q40.len() as int));
        match n.spec_key_node() {
            None => {
                assert(e == (prev, n));
                assert(kb.path(e.0 as int) == node_path(kb.path(prev as int), n));
            },
            Some(kn) => {
                assert(e == (ka@.len() as usize, n));
                assert(node_hash(n) == kn.spec_hash_node());
                assert(kb.path(e.0 as int) == ka.path(prev as int).push(kn));
                assert(kb.path(e.0 as int) == node_path(kb.path(prev as int), n));
            },
        }
        assert(kb.path(e.0 as int) == node_path(kb.path(prev as int), n));
        assert(entry_views(fb, kb) =~= entry_views(fa, kb).push(x));
        assert forall|h: <N::KN as DfsKeyNode>::HN| #[trigger] sb.contains(h) implies s0.contains(h) || exists|m: int|
            0 <= m < fb.len() && node_hash(#[trigger] fb[m].1) == Some(h) by {
            if sa.contains(h) {
                if !s0.contains(h) {
                    let m = choose|m: int| 0 <= m < fa.len() && node_hash(#[trigger] fa[m].1) == Some(h);
                    assert(fb[m] == fa[m]);
                }
            } else {
                assert(fb[fa.len() as int] == e);
                assert(node_hash(fb[fa.len() as int].1) == Some(h));
            }
        }
        assert forall|m: int| 0 <= m < fb.len() implies (#[trigger] node_hash(fb[m].1) matches Some(h) ==> (
        !call_ensures(f, (&h,), false) ==> !s0.contains(h) && sb.contains(h))) by {
            if m < fa.len() {
                assert(fb[m] == fa[m]);
            }
        }
        assert forall|m1: int, m2: int|
            0 <= m1 < fb.len() && 0 <= m2 < fb.len() && #[trigger] node_hash(fb[m1].1) == #[trigger] node_hash(
                fb[m2].1,
            ) && (node_hash(fb[m1].1) matches Some(h) && !call_ensures(f, (&h,), false)) implies m1 == m2 by {
            if m1 < fa.len() {
                assert(fb[m1] == fa[m1]);
            }
            if m2 < fa.len() {
                assert(fb[m2] == fa[m2]);
            }
        }
    } else {
        assert(fb =~= fa);
        assert forall|j: int| 0 <= j < k + 1 && !(#[trigger] keep.push(b)[j]) implies dropped(
            q3.subrange(0, k + 1)[j].1,
            f,
            sb,
        ) by {
            if j < k {
                assert(keep.push(b)[j] == keep[j]);
                assert(sub[j] == q3.subrange(0, k + 1)[j]);
            }
        }
    }
    assert forall|j: int| 0 <= j < k + 1 && !(#[trigger] keep.push(b)[j]) implies dropped(
        q3.subrange(0, k + 1)[j].1,
        f,
        sb,
    ) by {
        if j < k {
            assert(keep.push(b)[j] == keep[j]);
            assert(sub[j] == q3.subrange(0, k + 1)[j]);
        }
    }
}

/// Moves every node of `q3` to `q4` in turn (see `fold_one`), leaving `q3` empty.
pub fn fold_all<N, CF, D>(
    q3: &mut ChunkQueue<(usize, N), CF>,
    q4: &mut ChunkQueue<(usize, N), CF>,
    kns: &mut KnPile<N::KN>,
    dedupe: &mut D,
    should_dedupe: &impl Fn(&<N::KN as DfsKeyNode>::HN) -> bool,
)
    where
        N: DfsNode + Copy,
        N::KN: Copy,
        CF: ChunkFactory<(usize, N)> + Copy,
        D: Bfs2Dedupe<<N::KN as DfsKeyNode>::HN>,
    requires
        old(kns).wf(),
        old(q3).wf(),
        old(q4).wf(),
        old(dedupe).wf(),
        queue_ok(old(q3)@, old(kns)),
        queue_ok(old(q4)@, old(kns)),
        old(q4)@.len() + old(q3)@.len() < usize::MAX,
        old(kns)@.len() + old(q3)@.len() < usize::MAX,
        forall|h: <N::KN as DfsKeyNode>::HN| #[trigger] call_requires(*should_dedupe, (&h,)),
    ensures
        final(kns).wf(),
        final(q3).wf(),
        final(q4).wf(),
        final(dedupe).wf(),
        final(q3).spec_cf() == old(q3).spec_cf(),
        final(q4).spec_cf() == old(q4).spec_cf(),
        final(q3)@.len() == 0,
        pile_grew(old(kns), final(kns)),
        queue_ok(final(q4)@, final(kns)),
        final(q4)@.len() <= old(q4)@.len() + old(q3)@.len(),
        final(q4)@.subrange(0, old(q4)@.len() as int) == old(q4)@,
        folded_from(final(q4)@, old(q4)@.len() as int, old(q3)@, final(kns)),
        folded(
            old(q3)@,
            old(q4)@,
            final(q4)@,
            final(kns),
            *should_dedupe,
            old(dedupe).spec_set(),
            final(dedupe).spec_set(),
        ),
{
    let ghost q30 = q3@;
    let ghost q40 = q4@;
    let ghost kns0 = *kns;
    let ghost set0 = dedupe.spec_set();
    let ghost mut keep: Seq<bool> = Seq::empty();
    let ghost k: int = 0;
    proof {
        assert(q30.subrange(0, 0) =~= Seq::<(usize, N)>::empty());
        assert(q4@.subrange(q40.len() as int, q4@.len() as int) =~= Seq::<(usize, N)>::empty());
        assert(filter_by(folded_views(q30.subrange(0, 0), kns), keep) =~= entry_views(
            q4@.subrange(q40.len() as int, q4@.len() as int),
            kns,
        ));
        assert(q30.subrange(0, q30.len() as int) =~= q30);
        assert(q4@.subrange(0, q40.len() as int) =~= q40);
        crate::kn_pile::lemma_path_prefix_stable(kns0@, kns@);
    }
    while q3.len() > 0
        invariant
            kns.wf(),
            q3.wf(),
            q4.wf(),
            dedupe.wf(),
            q3.spec_cf() == old(q3).spec_cf(),
            q4.spec_cf() == old(q4).spec_cf(),
            q30 == old(q3)@,
            q40 == old(q4)@,
            kns0 == *old(kns),
            queue_ok(q30, &kns0),
            0 <= k <= q30.len(),
            q3@ == q30.subrange(k, q30.len() as int),
            q40.len() + q30.len() < usize::MAX,
            kns0@.len() + q30.len() < usize::MAX,
            q4@.len() <= q40.len() + k,
            q40.len() <= q4@.len(),
            kns@.len() <= kns0@.len() + k,
            pile_grew(&kns0, kns),
            queue_ok(q4@, kns),
            q4@.subrange(0, q40.len() as int) == q40,
            folded_from(q4@, q40.len() as int, q30, kns),
            set0 == old(dedupe).spec_set(),
            folded_with(q30.subrange(0, k), keep, q40, q4@, kns, *should_dedupe, set0, dedupe.spec_set()),
            forall|h: <N::KN as DfsKeyNode>::HN| #[trigger] call_requires(*should_dedupe, (&h,)),
        decreases q30.len() - k,
    {
        let ghost kns_b = *kns;
        let ghost q4_b = q4@;
        let ghost set_b = dedupe.spec_set();
        proof {
            if k < q30.len() {
                assert(q3@[0] == q30[k]);
            }
        }
        let _ = fold_one(q3, q4, kns, dedupe, should_dedupe);
        proof {
            let (prev, n) = q30[k];
            assert(q3@ =~= q30.subrange(k + 1, q30.len() as int));
            assert(kns_b@.len() <= kns@.len());
            assert forall|i: int| 0 <= i < kns_b@.len() implies #[trigger] kns@[i] == kns_b@[i] by {
                if kns@ != kns_b@ {
                    assert(kns@ == kns_b@.push(kns@[kns_b@.len() as int]));
                }
            }
            crate::kn_pile::lemma_path_prefix_stable(kns_b@, kns@);
            assert forall|i: int| 0 <= i < kns0@.len() implies #[trigger] kns@[i] == kns0@[i] by {
                assert(kns_b@[i] == kns0@[i]);
            }
            assert forall|i: int| 0 <= i < kns0@.len() implies #[trigger] kns.path(i) == kns0.path(i) by {
                assert(kns_b.path(i) == kns0.path(i));
            }
            assert forall|m: int| 0 <= m < q4@.len() implies (#[trigger] q4@[m]).0 < kns@.len() by {
                if m < q4_b.len() {
                    assert(q4@[m] == q4_b[m]);
                }
            }
            assert(q4@.subrange(0, q40.len() as int) =~= q40) by {
                assert forall|i: int| 0 <= i < q40.len() implies q4@[i] == q40[i] by {
                    assert(q4@[i] == q4_b[i]);
                    assert(q4_b.subrange(0, q40.len() as int)[i] == q40[i]);
                }
            }
            assert forall|m: int| q40.len() <= m < q4@.len() implies exists|j: int|
                0 <= j < q30.len() && (#[trigger] q4@[m]).1 == q30[j].1 && kns.path(q4@[m].0 as int) == node_path(
                    kns.path(q30[j].0 as int),
                    q30[j].1,
                ) by {
                if m < q4_b.len() {
                    assert(q4@[m] == q4_b[m]);
                    let j = choose|j: int|
                        0 <= j < q30.len() && (#[trigger] q4_b[m]).1 == q30[j].1 && kns_b.path(q4_b[m].0 as int) == node_path(
                            kns_b.path(q30[j].0 as int),
                            q30[j].1,
                        );
                    assert(kns.path(q4_b[m].0 as int) == kns_b.path(q4_b[m].0 as int));
                    assert(q30[j].0 < kns0@.len());
                    assert(kns.path(q30[j].0 as int) == kns_b.path(q30[j].0 as int));
                } else {
                    assert(q30[k].0 < kns0@.len());
                    assert(kns.path(prev as int) == kns_b.path(prev as int));
                }
            }
            assert(queue_ok(q30, &kns_b)) by {
                assert forall|j: int| 0 <= j < q30.len() implies (#[trigger] q30[j]).0 < kns_b@.len() by {
                    assert(q30[j].0 < kns0@.len());
                }
            }
            lemma_folded_step(q30, k, keep, q40, q4_b, q4@, &kns_b, kns, *should_dedupe, set0, set_b, dedupe.spec_set());
            keep = keep.push(q4@ != q4_b);
            k = k + 1;
        }
    }
    proof {
        assert(q30.subrange(0, k) =~= q30);
    }
}

/// Over a run of search steps, a hash node that `f` never refuses is queued at most once: when
/// one step queues a node with hash node `h` and a later step, whose dedupe set holds all that
/// the earlier one ended with, queues another, `f` may refuse `h`.
pub proof fn lemma_dedupe_across_steps<N: DfsNode, F: Fn(&<N::KN as DfsKeyNode>::HN) -> bool>(
    q3a: Seq<(usize, N)>,
    q4a: Seq<(usize, N)>,
    ka: &KnPile<N::KN>,
    sa0: Set<<N::KN as DfsKeyNode>::HN>,
    sa1: Set<<N::KN as DfsKeyNode>::HN>,
    q3b: Seq<(usize, N)>,
    q4b: Seq<(usize, N)>,
    kb: &KnPile<N::KN>,
    sb0: Set<<N::KN as DfsKeyNode>::HN>,
    sb1: Set<<N::KN as DfsKeyNode>::HN>,
    f: F,
    h: <N::KN as DfsKeyNode>::HN,
    m1: int,
    m2: int,
)
    where N::KN: Copy,
    requires
        folded(q3a, Seq::empty(), q4a, ka, f, sa0, sa1),
        folded(q3b, Seq::empty(), q4b, kb, f, sb0, sb1),
        sa1.subset_of(sb0),
        0 <= m1 < q4a.len(),
        0 <= m2 < q4b.len(),
        node_hash(q4a[m1].1) == Some(h),
        node_hash(q4b[m2].1) == Some(h),
    ensures
        call_ensures(f, (&h,), false),
{
    assert(q4a.subrange(0, q4a.len() as int) =~= q4a);
    assert(q4b.subrange(0, q4b.len() as int) =~= q4b);
    let fa = q4a.subrange(0, q4a.len() as int);
    let fb = q4b.subrange(0, q4b.len() as int);
    assert(node_hash(fa[m1].1) == Some(h));
    assert(node_hash(fb[m2].1) == Some(h));
}

/// Looks one level further ahead while a level is being expanded: the foresight goes up by one,
/// the nodes still to expand keep, in order, those that can go that many levels on, and the
/// successors found so far those that can go one level fewer (see `deepen_queue`).
pub fn bfs2_deepen_unit<N, CF, GE>(ge: &GE, w: &mut WorkUnit<N, CF>, foresight: &mut usize)
    where
        N: DfsNode + Copy,
        CF: ChunkFactory<(usize, N)>,
        GE: DfsGraph<N>,
    requires
        ge.spec_wf(),
        old(w).q.wf(),
        old(w).q2.wf(),
        *old(foresight) < usize::MAX,
    ensures
        *final(foresight) == *old(foresight) + 1,
        final(w).q.wf(),
        final(w).q2.wf(),
        final(w).q.spec_cf() == old(w).q.spec_cf(),
        final(w).q2.spec_cf() == old(w).q2.spec_cf(),
        final(w).q@ == filter_by(
            old(w).q@,
            old(w).q@.map_values(|e: (usize, N)| reaches_within(ge, e.1, *final(foresight) as nat)),
        ),
        final(w).q2@ == filter_by(
            old(w).q2@,
            old(w).q2@.map_values(|e: (usize, N)| reaches_within(ge, e.1, *old(foresight) as nat)),
        ),
        final(w).r == old(w).r,
{
    *foresight = *foresight + 1;
    deepen_queue(ge, &mut w.q, *foresight);
    deepen_queue(ge, &mut w.q2, *foresight - 1);
}

/// Ends a step of a breadth-first search whose level was expanded into `w`: folds the
/// successors into the key-node pile (see `fold_all`), making them the new queue, and returns
/// what the expansion found; the depth goes up by one and the foresight down by one (not below
/// zero).
pub fn bfs2_finish_step<N, CF, D>(
    state: &mut Bfs2State<N, CF, D>,
    w: WorkUnit<N, CF>,
    should_dedupe: &impl Fn(&<N::KN as DfsKeyNode>::HN) -> bool,
) -> (r: DfsRes<N::KN>)
    where
        N: DfsNode + Copy,
        N::KN: Copy,
        CF: ChunkFactory<(usize, N)> + Copy,
        D: Bfs2Dedupe<<N::KN as DfsKeyNode>::HN>,
    requires
        old(state).kns.wf(),
        old(state).dedupe.wf(),
        w.q2.wf(),
        queue_ok(w.q2@, &old(state).kns),
        old(state).kns@.len() + w.q2@.len() < usize::MAX,
        old(state).depth < usize::MAX,
        forall|h: <N::KN as DfsKeyNode>::HN| #[trigger] call_requires(*should_dedupe, (&h,)),
    ensures
        r == w.r,
        final(state).kns.wf(),
        final(state).q.wf(),
        final(state).dedupe.wf(),
        final(state).q.spec_cf() == w.q2.spec_cf(),
        queue_ok(final(state).q@, &final(state).kns),
        pile_grew(&old(state).kns, &final(state).kns),
        folded_from(final(state).q@, 0, w.q2@, &final(state).kns),
        folded(
            w.q2@,
            Seq::empty(),
            final(state).q@,
            &final(state).kns,
            *should_dedupe,
            old(state).dedupe.spec_set(),
            final(state).dedupe.spec_set(),
        ),
        final(state).depth == old(state).depth + 1,
        final(state).foresight == (if old(state).foresight == 0 { 0 } else { old(state).foresight - 1 }),
{
    let cf = w.q2.factory();
    let mut q3 = w.q2;
    let mut q4: ChunkQueue<(usize, N), CF> = ChunkQueue::new(cf);
    fold_all(&mut q3, &mut q4, &mut state.kns, &mut state.dedupe, should_dedupe);
    state.q = q4;
    state.foresight = if state.foresight == 0 {
        0
    } else {
        state.foresight - 1
    };
    state.depth = state.depth + 1;
    w.r
}

/// One step of a breadth-first search: expands every queued node (see `expand_unit`), then
/// folds the successors into the key-node pile (see `fold_all`), making them the new queue.
/// Returns what the expansion found; the depth goes up by one and the foresight down by one
/// (not below zero).
pub fn bfs2_dedupe_step<N, CF, D, GE>(
    state: &mut Bfs2State<N, CF, D>,
    ge: &GE,
    should_dedupe: &impl Fn(&<N::KN as DfsKeyNode>::HN) -> bool,
) -> (r: DfsRes<N::KN>)
    where
        N: DfsNode + Copy,
        N::KN: Copy,
        CF: ChunkFactory<(usize, N)> + Copy,
        D: Bfs2Dedupe<<N::KN as DfsKeyNode>::HN>,
        GE: DfsGraph<N>,
    requires
        ge.spec_wf(),
        old(state).kns.wf(),
        old(state).q.wf(),
        old(state).dedupe.wf(),
        queue_ok(old(state).q@, &old(state).kns),
        old(state).kns@.len() + level_width(ge, old(state).q@) < usize::MAX,
        old(state).depth < usize::MAX,
        forall|h: <N::KN as DfsKeyNode>::HN| #[trigger] call_requires(*should_dedupe, (&h,)),
    ensures
        final(state).kns.wf(),
        final(state).q.wf(),
        final(state).dedupe.wf(),
        final(state).q.spec_cf() == old(state).q.spec_cf(),
        queue_ok(final(state).q@, &final(state).kns),
        pile_grew(&old(state).kns, &final(state).kns),
        end_paths(r.ends@) == level2_ends(ge, &old(state).kns, old(state).q@),
        cycle_views(r.cycles@) == level2_cycles(ge, &old(state).kns, old(state).q@),
        ends_labelled(ge, r.ends@),
        final(state).q@.len() <= level2_q2(ge, &old(state).kns, old(state).q@).len(),
        folded_from(final(state).q@, 0, level2_q2(ge, &old(state).kns, old(state).q@), &final(state).kns),
        folded(
            level2_q2(ge, &old(state).kns, old(state).q@),
            Seq::empty(),
            final(state).q@,
            &final(state).kns,
            *should_dedupe,
            old(state).dedupe.spec_set(),
            final(state).dedupe.spec_set(),
        ),
        final(state).depth == old(state).depth + 1,
        final(state).foresight == (if old(state).foresight == 0 { 0 } else { old(state).foresight - 1 }),
{
    let ghost kns0 = state.kns;
    let ghost ql = state.q@;
    let cf = state.q.factory();
    let mut q = ChunkQueue::new(cf);
    std::mem::swap(&mut q, &mut state.q);
    let mut w = WorkUnit::new(q);
    proof {
        lemma_level2_q2_bound(ge, &kns0, ql);
    }
    expand_unit(ge, &state.kns, &mut w);
    assert(w.q2@ =~= level2_q2(ge, &kns0, ql));
    let mut q3 = w.q2;
    let mut r = w.r;
    assert(end_paths(r.ends@) =~= level2_ends(ge, &kns0, ql));
    assert(cycle_views(r.cycles@) =~= level2_cycles(ge, &kns0, ql));
    proof {
        assert forall|k: int| 0 <= k < q3@.len() implies (#[trigger] q3@[k]).0 < kns0@.len() by {
            let j = choose|j: int| 0 <= j < ql.len() && q3@[k].0 == ql[j].0;
        }
    }
    let mut q4 = ChunkQueue::new(cf);
    fold_all(&mut q3, &mut q4, &mut state.kns, &mut state.dedupe, should_dedupe);
    state.q = q4;
    state.foresight = if state.foresight == 0 {
        0
    } else {
        state.foresight - 1
    };
    state.depth = state.depth + 1;
    r
}

} // verus!
