use vstd::prelude::*;

verus! {

/// The nodes on the way from the root to entry `idx` of a pile of `(parent, node)` entries, root
/// first; entry 0 is the root itself and holds no node of the path.
pub open spec fn pile_path<N>(e: Seq<(usize, N, usize)>, idx: int) -> Seq<N>
    decreases idx,
{
    if idx <= 0 || idx >= e.len() || e[idx].0 >= idx {
        Seq::empty()
    } else {
        pile_path(e, e[idx].0 as int).push(e[idx].1)
    }
}

/// The entries visited when walking from `idx` towards the root, `idx` first, the root excluded.
pub open spec fn pile_chain<N>(e: Seq<(usize, N, usize)>, idx: int) -> Seq<usize>
    decreases idx,
{
    if idx <= 0 || idx >= e.len() || e[idx].0 >= idx {
        Seq::empty()
    } else {
        seq![idx as usize] + pile_chain(e, e[idx].0 as int)
    }
}

/// Every entry but the root points to an earlier entry.
pub open spec fn pile_wf<N>(e: Seq<(usize, N, usize)>) -> bool {
    &&& e.len() >= 1
    &&& forall|idx: int| 1 <= idx < e.len() ==> (#[trigger] e[idx]).0 < idx
}

/// A forest of key nodes kept as parent pointers: each entry is `(parent, node, scratch)`.  A
/// path of key nodes from the root is named by the index of its last entry; 0 names the empty
/// path.
pub struct KnPile<N> {
    inner: Vec<(usize, N, usize)>,
}

impl<N> View for KnPile<N> {
    type V = Seq<(usize, N, usize)>;

    closed spec fn view(&self) -> Seq<(usize, N, usize)> {
        self.inner@
    }
}

impl<N: Copy> KnPile<N> {
    pub open spec fn wf(&self) -> bool {
        &&& pile_wf(self@)
        &&& forall|idx: int| 1 <= idx < self@.len() ==> (#[trigger] self@[idx]).2 == 0
    }

    /// The path named by entry `idx`.
    pub open spec fn path(&self, idx: int) -> Seq<N> {
        pile_path(self@, idx)
    }

    pub fn new() -> (r: KnPile<N>)
        where N: Default,
        ensures
            r.wf(),
            r@.len() == 1,
    {
        let mut inner: Vec<(usize, N, usize)> = Vec::new();
        inner.push((0, N::default(), 0));
        KnPile { inner: inner }
    }

    /// Adds the path named by `idx` extended by `n`, and names it.
    pub fn push(&mut self, idx: usize, n: N) -> (r: usize)
        requires
            old(self).wf(),
            idx < old(self)@.len(),
        ensures
            final(self).wf(),
            r == old(self)@.len(),
            final(self)@ == old(self)@.push((idx, n, 0usize)),
            final(self).path(r as int) == old(self).path(idx as int).push(n),
            forall|k: int| 0 <= k < old(self)@.len() ==> #[trigger] final(self).path(k) == old(self).path(k),
    {
        let r = self.inner.len();
        self.inner.push((idx, n, 0));
        proof {
            lemma_path_prefix_stable(old(self)@, self@);
            assert(self@[r as int] == (idx, n, 0usize));
            assert(pile_path(self@, r as int) == pile_path(self@, idx as int).push(n));
        }
        r
    }

    pub fn len(&self) -> (r: usize)
        ensures
            r == self@.len(),
    {
        self.inner.len()
    }

    /// Bytes taken by one entry.
    pub fn esize(&self) -> (r: usize)
        ensures
            r == vstd::layout::size_of::<(usize, N, usize)>(),
    {
        core::mem::size_of::<(usize, N, usize)>()
    }

    /// The path named by `idx`, root first, each node passed through `f`.
    pub fn materialize<T>(&self, idx: usize, f: &impl Fn(&N) -> T) -> (r: Vec<T>)
        requires
            self.wf(),
            idx < self@.len(),
            forall|x: N| #[trigger] call_requires(*f, (&x,)),
        ensures
            r@.len() == self.path(idx as int).len(),
            forall|k: int|
                0 <= k < r@.len() ==> call_ensures(*f, (&self.path(idx as int)[k],), #[trigger] r@[k]),
    {
        let ghost full = self.path(idx as int);
        let mut acc: Vec<T> = Vec::new();
        let mut i = idx;
        while i != 0
            invariant
                self.wf(),
                i < self@.len(),
                full == self.path(idx as int),
                forall|x: N| #[trigger] call_requires(*f, (&x,)),
                self.path(i as int).len() <= full.len(),
                full.subrange(0, self.path(i as int).len() as int) == self.path(i as int),
                acc@.len() + self.path(i as int).len() == full.len(),
                forall|k: int|
                    0 <= k < acc@.len() ==> call_ensures(
                        *f,
                        (&full[full.len() - 1 - k],),
                        #[trigger] acc@[k],
                    ),
            decreases i,
        {
            let (prev_idx, n, _) = self.inner[i];
            let ghost pi = self.path(i as int);
            proof {
                assert(self@[i as int].0 < i);
                assert(pi == self.path(prev_idx as int).push(n));
                assert(full.subrange(0, pi.len() as int)[pi.len() - 1] == full[pi.len() - 1]);
                assert(full[pi.len() - 1] == n);
                assert(full.subrange(0, self.path(prev_idx as int).len() as int) =~= self.path(
                    prev_idx as int,
                ));
            }
            let x = f(&n);
            acc.push(x);
            i = prev_idx;
        }
        proof {
            assert(self.path(0) == Seq::<N>::empty());
        }
        let mut r: Vec<T> = Vec::new();
        let ghost len = acc@.len();
        while acc.len() > 0
            invariant
                acc@.len() + r@.len() == len,
                len == full.len(),
                forall|k: int|
                    0 <= k < acc@.len() ==> call_ensures(
                        *f,
                        (&full[full.len() - 1 - k],),
                        #[trigger] acc@[k],
                    ),
                forall|k: int| 0 <= k < r@.len() ==> call_ensures(*f, (&full[k],), #[trigger] r@[k]),
            decreases acc@.len(),
        {
            let x = acc.pop().unwrap();
            proof {
                assert(call_ensures(*f, (&full[full.len() - 1 - acc@.len()],), x));
            }
            r.push(x);
        }
        r
    }

    /// The path named by `idx`, root first.
    pub fn materialize_cloned(&self, idx: usize) -> (r: Vec<N>)
        requires
            self.wf(),
            idx < self@.len(),
        ensures
            r@ == self.path(idx as int),
    {
        let ghost full = self.path(idx as int);
        let mut acc: Vec<N> = Vec::new();
        let mut i = idx;
        while i != 0
            invariant
                self.wf(),
                i < self@.len(),
                full == self.path(idx as int),
                self.path(i as int) + acc@.reverse() == full,
            decreases i,
        {
            let (prev_idx, n, _) = self.inner[i];
            proof {
                assert(self@[i as int].0 < i);
                assert(self.path(i as int) == self.path(prev_idx as int).push(n));
                assert(acc@.push(n).reverse() =~= seq![n] + acc@.reverse());
                assert(self.path(prev_idx as int) + acc@.push(n).reverse() =~= self.path(i as int)
                    + acc@.reverse());
            }
            acc.push(n);
            i = prev_idx;
        }
        proof {
            assert(self.path(0) == Seq::<N>::empty());
            assert(Seq::<N>::empty() + acc@.reverse() =~= acc@.reverse());
        }
        let mut r: Vec<N> = Vec::new();
        while acc.len() > 0
            invariant
                r@ + acc@.reverse() == full,
            decreases acc@.len(),
        {
            let ghost a0 = acc@;
            let x = acc.pop().unwrap();
            proof {
                assert(a0 =~= acc@.push(x));
                assert(a0.reverse() =~= seq![x] + acc@.reverse());
                assert(r@.push(x) + acc@.reverse() =~= r@ + a0.reverse());
            }
            r.push(x);
        }
        assert(r@ + Seq::<N>::empty() =~= r@);
        r
    }

    /// Walks from entry `idx` towards the root, asking `f` at each entry (with its index, its
    /// parent and its node) and returning the first answer that is not `None`.
    pub fn find<T>(&self, idx: usize, f: &impl Fn(usize, usize, &N) -> Option<T>) -> (r: Option<T>)
        requires
            self.wf(),
            idx < self@.len(),
            forall|a: usize, b: usize, x: N| #[trigger] call_requires(*f, (a, b, &x)),
        ensures
            ({
                let ch = pile_chain(self@, idx as int);
                match r {
                    None => forall|k: int|
                        0 <= k < ch.len() ==> call_ensures(
                            *f,
                            (ch[k], self@[ch[k] as int].0, &self@[ch[k] as int].1),
                            None::<T>,
                        ),
                    Some(t) => exists|k: int|
                        0 <= k < ch.len() && call_ensures(
                            *f,
                            (ch[k], self@[ch[k] as int].0, &self@[ch[k] as int].1),
                            Some(t),
                        ) && forall|m: int|
                            0 <= m < k ==> call_ensures(
                                *f,
                                (#[trigger] ch[m], self@[ch[m] as int].0, &self@[ch[m] as int].1),
                                None::<T>,
                            ),
                }
            }),
    {
        let ghost ch = pile_chain(self@, idx as int);
        let ghost mut steps: int = 0;
        let mut i = idx;
        while i != 0
            invariant
                self.wf(),
                i < self@.len(),
                ch == pile_chain(self@, idx as int),
                0 <= steps <= ch.len(),
                ch.subrange(steps, ch.len() as int) == pile_chain(self@, i as int),
                forall|a: usize, b: usize, x: N| #[trigger] call_requires(*f, (a, b, &x)),
                forall|m: int|
                    0 <= m < steps ==> call_ensures(
                        *f,
                        (#[trigger] ch[m], self@[ch[m] as int].0, &self@[ch[m] as int].1),
                        None::<T>,
                    ),
            decreases i,
        {
            let (prev_idx, n, _) = self.inner[i];
            proof {
                assert(self@[i as int].0 < i);
                assert(pile_chain(self@, i as int) == seq![i] + pile_chain(self@, prev_idx as int));
                assert(pile_chain(self@, i as int).len() >= 1);
                assert(ch.subrange(steps, ch.len() as int)[0] == ch[steps]);
                assert(ch[steps] == pile_chain(self@, i as int)[0]);
            }
            let t = f(i, prev_idx, &n);
            if let Some(t) = t {
                return Some(t);
            }
            proof {
                assert(ch.subrange(steps + 1, ch.len() as int) =~= pile_chain(self@, i as int).subrange(
                    1,
                    pile_chain(self@, i as int).len() as int,
                ));
                assert(pile_chain(self@, i as int).subrange(1, pile_chain(self@, i as int).len() as int)
                    =~= pile_chain(self@, prev_idx as int));
                steps = steps + 1;
            }
            i = prev_idx;
        }
        proof {
            assert(pile_chain(self@, 0) == Seq::<usize>::empty());
        }
        None
    }

    /// Drops every entry that no pinned path runs through, packs the rest to the front in
    /// their order, and renames the pins; each pin keeps naming the same path.  Returns the new
    /// number of entries and how many of them hang off the root.
    pub fn rebuild(&mut self, pins: &mut Vec<usize>) -> (r: (usize, usize))
        requires
            old(self).wf(),
            forall|k: int| 0 <= k < old(pins)@.len() ==> #[trigger] old(pins)@[k] < old(self)@.len(),
        ensures
            final(self).wf(),
            final(pins)@.len() == old(pins)@.len(),
            forall|k: int| 0 <= k < final(pins)@.len() ==> #[trigger] final(pins)@[k] < final(self)@.len(),
            forall|k: int|
                0 <= k < final(pins)@.len() ==> #[trigger] final(self).path(final(pins)@[k] as int)
                    == old(self).path(old(pins)@[k] as int),
            final(self)@.len() <= old(self)@.len(),
            final(self)@.len() == 1 + count_marked(pin_marks(old(self)@, old(pins)@), old(self)@.len() as int),
            forall|k: int|
                0 <= k < final(pins)@.len() ==> #[trigger] final(pins)@[k] == (if old(pins)@[k] == 0 {
                    0
                } else {
                    packed_index(pin_marks(old(self)@, old(pins)@), old(pins)@[k] as int) as usize
                }),
            packed_into(old(self)@, pin_marks(old(self)@, old(pins)@), final(self)@),
            r.0 == final(self)@.len(),
            r.1 == count_roots(final(self)@, final(self)@.len() as int),
    {
        let ghost e0 = self@;
        let ghost p0 = pins@;
        let len = self.inner.len();
        // mark the pinned entries
        let mut k: usize = 0;
        while k < pins.len()
            invariant
                same_links(self@, e0),
                pile_wf(e0),
                len == e0.len(),
                pins@ == p0,
                forall|k: int| 0 <= k < p0.len() ==> #[trigger] p0[k] < e0.len(),
                k <= pins@.len(),
                forall|x: int| 1 <= x < len ==> #[trigger] self@[x].2 <= 1,
                forall|q: int| 0 <= q < k ==> #[trigger] self@[p0[q] as int].2 == 1,
                forall|x: int| 1 <= x < len && #[trigger] self@[x].2 != 0 ==> pinned(e0, p0, x),
            decreases pins@.len() - k,
        {
            let idx = pins[k];
            let (a, b, _) = self.inner[idx];
            proof {
                if idx >= 1 {
                    lemma_chain_head(e0, idx as int);
                    assert(pile_chain(e0, p0[k as int] as int).contains(idx));
                    assert(pinned(e0, p0, idx as int));
                }
            }
            let ghost before = self@;
            self.inner.set(idx, (a, b, 1));
            proof {
                assert forall|x: int| 1 <= x < len && #[trigger] self@[x].2 != 0 implies pinned(e0, p0, x) by {
                    if x != idx {
                        assert(before[x] == self@[x]);
                    }
                }
            }
            k = k + 1;
        }
        // walk right to left handing marks on to parents
        let mut idx: usize = len;
        while idx > 1
            invariant
                same_links(self@, e0),
                pile_wf(e0),
                len == e0.len(),
                1 <= idx <= len,
                forall|k: int| 0 <= k < p0.len() ==> #[trigger] p0[k] < e0.len(),
                forall|x: int| 1 <= x < len ==> #[trigger] self@[x].2 <= 1,
                forall|q: int| 0 <= q < p0.len() ==> #[trigger] self@[p0[q] as int].2 == 1,
                forall|x: int|
                    idx <= x < len && self@[x].2 != 0 && e0[x].0 != 0 ==> #[trigger] self@[e0[x].0 as int].2
                        == 1,
                forall|x: int| 1 <= x < len && #[trigger] self@[x].2 != 0 ==> pinned(e0, p0, x),
            decreases idx,
        {
            idx = idx - 1;
            let (prev_idx, _, live) = self.inner[idx];
            proof {
                assert(e0[idx as int].0 < idx);
                if live != 0 && prev_idx != 0 {
                    assert(pinned(e0, p0, idx as int));
                }
            }
            if live != 0 && prev_idx != 0 {
                let (a, b, _) = self.inner[prev_idx];
                let ghost before = self@;
                self.inner.set(prev_idx, (a, b, 1));
                proof {
                    let q = choose|q: int| 0 <= q < p0.len() && #[trigger] pile_chain(e0, p0[q] as int).contains((idx as int) as usize);
                    lemma_chain_parent(e0, p0[q] as int, idx as int);
                    assert(pile_chain(e0, p0[q] as int).contains(((prev_idx as int) as usize)));
                    assert(pinned(e0, p0, prev_idx as int));
                    assert forall|x: int| 1 <= x < len && #[trigger] self@[x].2 != 0 implies pinned(e0, p0, x) by {
                        if x != prev_idx {
                            assert(before[x] == self@[x]);
                        }
                    }
                }
            }
        }
        let ghost e2 = self@;
        let ghost m = Seq::new(len as nat, |x: int| e2[x].2);
        let ghost pm = pin_marks(e0, p0);
        proof {
            assert forall|x: int| 1 <= x < len implies (m[x] != 0) == (#[trigger] pm[x] != 0) by {
                if pinned(e0, p0, x) {
                    let q = choose|q: int| 0 <= q < p0.len() && #[trigger] pile_chain(e0, p0[q] as int).contains(x as usize);
                    assert forall|y: int| 1 <= y < len && m[y] != 0 && e0[y].0 != 0 implies #[trigger] m[e0[y].0 as int] != 0 by {
                        assert(e2[y].2 != 0);
                    }
                    lemma_chain_marked(e0, m, p0[q] as int, x);
                }
            }
            assert forall|j: int| 0 <= j <= len implies #[trigger] count_marked(m, j) == count_marked(pm, j) by {
                lemma_count_marked_congr(m, pm, j);
            }
        }
        // walk left to right numbering the marked entries
        let mut new_idx: usize = 1;
        let mut idx: usize = 1;
        while idx < len
            invariant
                same_links(self@, e0),
                pile_wf(e0),
                len == e0.len(),
                m.len() == len,
                1 <= idx <= len,
                forall|x: int| 0 <= x < len ==> #[trigger] m[x] == e2[x].2,
                forall|x: int| 1 <= x < len ==> #[trigger] m[x] <= 1,
                forall|x: int| 1 <= x < idx ==> #[trigger] self@[x].2 == packed_index(m, x),
                forall|x: int| idx <= x < len ==> #[trigger] self@[x].2 == m[x],
                new_idx == 1 + count_marked(m, idx as int),
            decreases len - idx,
        {
            proof {
                lemma_count_marked_le(m, idx as int);
            }
            let (a, b, live) = self.inner[idx];
            if live != 0 {
                self.inner.set(idx, (a, b, new_idx));
                new_idx = new_idx + 1;
            }
            idx = idx + 1;
        }
        let ghost e3 = self@;
        proof {
            assert forall|x: int|
                1 <= x < len && m[x] != 0 && e0[x].0 != 0 implies #[trigger] m[e0[x].0 as int] != 0 by {
                assert(e2[x].2 != 0);
            }
        }
        // point the marked entries at their parents' new places
        let mut idx: usize = 1;
        while idx < len
            invariant
                pile_wf(e0),
                len == e0.len(),
                m.len() == len,
                self@.len() == len,
                1 <= idx <= len,
                forall|x: int| 1 <= x < len ==> #[trigger] m[x] <= 1,
                forall|x: int|
                    1 <= x < len && m[x] != 0 && e0[x].0 != 0 ==> #[trigger] m[e0[x].0 as int] != 0,
                forall|x: int| 0 <= x < len ==> (#[trigger] self@[x]).1 == e0[x].1,
                forall|x: int| 1 <= x < len ==> (#[trigger] self@[x]).2 == packed_index(m, x),
                self@[0] == e3[0],
                forall|x: int|
                    1 <= x < idx ==> (#[trigger] self@[x]).0 == (if m[x] != 0 && e0[x].0 != 0 {
                        packed_index(m, e0[x].0 as int) as usize
                    } else {
                        e0[x].0
                    }),
                forall|x: int| idx <= x < len ==> (#[trigger] self@[x]).0 == e0[x].0,
            decreases len - idx,
        {
            let (prev_idx, n, ni) = self.inner[idx];
            proof {
                assert(e0[idx as int].0 < idx);
            }
            if ni != 0 && prev_idx != 0 {
                let (_, _, new_prev_idx) = self.inner[prev_idx];
                self.inner.set(idx, (new_prev_idx, n, ni));
            }
            idx = idx + 1;
        }
        let ghost e4 = self@;
        // rename the pins
        let mut k: usize = 0;
        while k < pins.len()
            invariant
                self@ == e4,
                len == e4.len(),
                pins@.len() == p0.len(),
                forall|k: int| 0 <= k < p0.len() ==> #[trigger] p0[k] < len,
                forall|x: int| 1 <= x < len ==> (#[trigger] e4[x]).2 == packed_index(m, x),
                k <= pins@.len(),
                forall|q: int|
                    0 <= q < k ==> #[trigger] pins@[q] == (if p0[q] == 0 {
                        0
                    } else {
                        packed_index(m, p0[q] as int) as usize
                    }),
                forall|q: int| k <= q < pins@.len() ==> #[trigger] pins@[q] == p0[q],
            decreases pins@.len() - k,
        {
            let idx = pins[k];
            if idx != 0 {
                let (_, _, ni) = self.inner[idx];
                pins.set(k, ni);
            }
            k = k + 1;
        }
        // pack the marked entries to the front
        let mut i: usize = 1;
        let mut j: usize = 1;
        let mut root_ct: usize = 0;
        while j < len
            invariant
                pile_wf(e0),
                len == e0.len(),
                m.len() == len,
                self@.len() == len,
                1 <= i <= j <= len,
                i == 1 + count_marked(m, j as int),
                forall|x: int| 1 <= x < len ==> #[trigger] m[x] <= 1,
                forall|x: int| 1 <= x < len ==> (#[trigger] e4[x]).2 == packed_index(m, x),
                forall|x: int| 0 <= x < len ==> (#[trigger] e4[x]).1 == e0[x].1,
                forall|x: int|
                    1 <= x < len ==> (#[trigger] e4[x]).0 == (if m[x] != 0 && e0[x].0 != 0 {
                        packed_index(m, e0[x].0 as int) as usize
                    } else {
                        e0[x].0
                    }),
                forall|x: int|
                    1 <= x < len && m[x] != 0 && e0[x].0 != 0 ==> #[trigger] m[e0[x].0 as int] != 0,
                e4.len() == len,
                self@[0] == e4[0],
                forall|x: int| j <= x < len ==> #[trigger] self@[x] == e4[x],
                forall|x: int| 1 <= x < i ==> (#[trigger] self@[x]).0 < x && self@[x].2 == 0,
                forall|y: int|
                    1 <= y < j && m[y] != 0 ==> #[trigger] self@[packed_index(m, y)] == (
                        e4[y].0,
                        e4[y].1,
                        0usize,
                    ),
                root_ct == count_roots(self@, i as int),
            decreases len - j,
        {
            let (prev_idx, n, new_idx) = self.inner[j];
            if new_idx == 0 {
                proof {
                    assert(m[j as int] == 0);
                }
                j = j + 1;
                continue ;
            }
            proof {
                assert(m[j as int] != 0);
                assert(packed_index(m, j as int) == i);
                lemma_count_marked_le(m, j as int);
                if m[j as int] != 0 && e0[j as int].0 != 0 {
                    assert(e0[j as int].0 < j);
                    lemma_packed_index_strict(m, e0[j as int].0 as int, j as int);
                }
            }
            let ghost before = self@;
            proof {
                lemma_count_roots_le(self@, i as int);
            }
            if prev_idx == 0 {
                root_ct = root_ct + 1;
            }
            self.inner.set(i, (prev_idx, n, 0));
            proof {
                assert forall|y: int| 1 <= y < j && m[y] != 0 implies #[trigger] self@[packed_index(
                    m,
                    y,
                )] == (e4[y].0, e4[y].1, 0usize) by {
                    lemma_packed_index_strict(m, y, j as int);
                }
                assert(count_roots(self@, i as int) == count_roots(before, i as int)) by {
                    lemma_count_roots_prefix(self@, before, i as int);
                }
            }
            i = i + 1;
            j = j + 1;
        }
        proof {
            lemma_count_marked_le(m, len as int);
        }
        let ghost e_packed = self@;
        self.inner.truncate(i);
        proof {
            let e5 = self@;
            lemma_count_roots_prefix(e5, e_packed, i as int);
            assert forall|x: int|
                1 <= x < e0.len() && m[x] != 0 implies {
                    &&& packed_index(m, x) < e5.len()
                    &&& (#[trigger] e5[packed_index(m, x)]).0 as int == (if e0[x].0 == 0 {
                        0
                    } else {
                        packed_index(m, e0[x].0 as int)
                    })
                    &&& e5[packed_index(m, x)].1 == e0[x].1
                } by {
                lemma_count_marked_mono(m, x + 1, len as int);
                assert(e_packed[packed_index(m, x)] == (e4[x].0, e4[x].1, 0usize));
                if e0[x].0 != 0 {
                    lemma_count_marked_le(m, e0[x].0 as int);
                    assert(e0[x].0 < x);
                    lemma_packed_index_strict(m, e0[x].0 as int, x);
                }
            }
            assert(packed_into(e0, m, e5)) by {
                assert forall|x: int| 1 <= x < e0.len() && m[x] != 0 implies packed_index(m, x) < e5.len() by {
                    lemma_count_marked_mono(m, x + 1, len as int);
                }
            }
            assert forall|x: int| 1 <= x < len implies #[trigger] packed_index(m, x) == packed_index(pm, x) by {
                assert(count_marked(m, x) == count_marked(pm, x));
            }
            lemma_packed_into_congr(e0, m, pm, e5);
            assert(count_marked(m, len as int) == count_marked(pm, len as int));
            assert forall|q: int| 0 <= q < pins@.len() && p0[q] != 0 implies #[trigger] pins@[q] == packed_index(pm, p0[q] as int) as usize by {
                assert(packed_index(m, p0[q] as int) == packed_index(pm, p0[q] as int));
            }
            assert forall|q: int| 0 <= q < pins@.len() implies #[trigger] pins@[q] < e5.len() && pile_path(
                e5,
                pins@[q] as int,
            ) == pile_path(e0, p0[q] as int) by {
                if p0[q] != 0 {
                    let y = p0[q] as int;
                    assert(e2[y].2 == 1);
                    assert(m[y] != 0);
                    lemma_count_marked_mono(m, y + 1, len as int);
                    lemma_packed_path(e0, m, e5, y);
                } else {
                    assert(pile_path(e5, 0) == Seq::<N>::empty());
                    assert(pile_path(e0, 0) == Seq::<N>::empty());
                }
            }
        }
        (i, root_ct)
    }

    /// The entries as `(parent, node)` pairs, root included.
    pub fn iter(&self) -> (r: Vec<(usize, N)>)
        ensures
            r@.len() == self@.len(),
            forall|k: int| 0 <= k < r@.len() ==> #[trigger] r@[k] == (self@[k].0, self@[k].1),
    {
        let mut r: Vec<(usize, N)> = Vec::new();
        let mut k: usize = 0;
        while k < self.inner.len()
            invariant
                k <= self@.len(),
                r@.len() == k,
                forall|m: int| 0 <= m < k ==> #[trigger] r@[m] == (self@[m].0, self@[m].1),
            decreases self@.len() - k,
        {
            let (a, b, _) = self.inner[k];
            r.push((a, b));
            k = k + 1;
        }
        r
    }
}

/// Number of entries among `1..j` that carry a mark.
pub open spec fn count_marked(m: Seq<usize>, j: int) -> nat
    decreases j,
{
    if j <= 1 {
        0
    } else {
        count_marked(m, j - 1) + if m[j - 1] != 0 {
            1nat
        } else {
            0nat
        }
    }
}

/// The index a marked entry `x` moves to when the marked entries are packed from index 1 on.
pub open spec fn packed_index(m: Seq<usize>, x: int) -> int {
    if x >= 1 && m[x] != 0 {
        1 + count_marked(m, x) as int
    } else {
        0
    }
}

/// Number of entries among `1..j` whose parent is the root.
pub open spec fn count_roots<N>(e: Seq<(usize, N, usize)>, j: int) -> nat
    decreases j,
{
    if j <= 1 {
        0
    } else {
        count_roots(e, j - 1) + if e[j - 1].0 == 0 {
            1nat
        } else {
            0nat
        }
    }
}

/// Entries keep their parents and nodes; only the scratch field may differ.
pub open spec fn same_links<N>(e: Seq<(usize, N, usize)>, e0: Seq<(usize, N, usize)>) -> bool {
    &&& e.len() == e0.len()
    &&& forall|x: int| 0 <= x < e.len() ==> (#[trigger] e[x]).0 == e0[x].0 && e[x].1 == e0[x].1
}

proof fn lemma_count_marked_mono(m: Seq<usize>, a: int, b: int)
    requires
        a <= b,
    ensures
        count_marked(m, a) <= count_marked(m, b),
    decreases b - a,
{
    if a < b {
        lemma_count_marked_mono(m, a, b - 1);
    }
}

proof fn lemma_count_marked_le(m: Seq<usize>, j: int)
    requires
        j >= 1,
    ensures
        count_marked(m, j) <= j - 1,
    decreases j,
{
    if j > 1 {
        lemma_count_marked_le(m, j - 1);
    }
}

proof fn lemma_packed_index_strict(m: Seq<usize>, a: int, b: int)
    requires
        1 <= a < b,
        m[a] != 0,
        m[b] != 0,
    ensures
        0 < packed_index(m, a) < packed_index(m, b),
{
    lemma_count_marked_mono(m, a + 1, b);
}

/// Where packing puts the marked entries of `e0`: each at its packed index, pointing at its
/// parent's packed index.
pub open spec fn packed_into<N>(e0: Seq<(usize, N, usize)>, m: Seq<usize>, e1: Seq<(usize, N, usize)>) -> bool {
    forall|x: int|
        1 <= x < e0.len() && m[x] != 0 ==> {
            &&& packed_index(m, x) < e1.len()
            &&& (#[trigger] e1[packed_index(m, x)]).0 as int == (if e0[x].0 == 0 {
                0
            } else {
                packed_index(m, e0[x].0 as int)
            })
            &&& e1[packed_index(m, x)].1 == e0[x].1
        }
}

/// Packing the marked entries keeps the path each of them names.
proof fn lemma_packed_path<N>(
    e0: Seq<(usize, N, usize)>,
    m: Seq<usize>,
    e1: Seq<(usize, N, usize)>,
    y: int,
)
    requires
        pile_wf(e0),
        m.len() == e0.len(),
        1 <= y < e0.len(),
        m[y] != 0,
        forall|x: int| 1 <= x < e0.len() && m[x] != 0 && e0[x].0 != 0 ==> #[trigger] m[e0[x].0 as int] != 0,
        packed_into(e0, m, e1),
    ensures
        pile_path(e1, packed_index(m, y)) == pile_path(e0, y),
    decreases y,
{
    let p = e0[y].0 as int;
    assert(e0[y].0 < y);
    let ny = packed_index(m, y);
    assert(ny >= 1);
    assert(e1[ny].1 == e0[y].1);
    assert(pile_path(e0, y) == pile_path(e0, p).push(e0[y].1));
    if p == 0 {
        assert(e1[ny].0 == 0);
        assert(pile_path(e1, ny) == pile_path(e1, 0).push(e1[ny].1));
        assert(pile_path(e0, 0) == Seq::<N>::empty());
        assert(pile_path(e1, 0) == Seq::<N>::empty());
    } else {
        assert(m[p] != 0);
        lemma_packed_index_strict(m, p, y);
        assert(e1[ny].0 as int == packed_index(m, p));
        assert(pile_path(e1, ny) == pile_path(e1, packed_index(m, p)).push(e1[ny].1));
        lemma_packed_path(e0, m, e1, p);
    }
}

proof fn lemma_count_roots_le<N>(e: Seq<(usize, N, usize)>, j: int)
    requires
        j >= 1,
    ensures
        count_roots(e, j) <= j - 1,
    decreases j,
{
    if j > 1 {
        lemma_count_roots_le(e, j - 1);
    }
}

proof fn lemma_count_roots_prefix<N>(e: Seq<(usize, N, usize)>, f: Seq<(usize, N, usize)>, j: int)
    requires
        j <= e.len(),
        j <= f.len(),
        forall|x: int| 1 <= x < j ==> (#[trigger] e[x]).0 == f[x].0,
    ensures
        count_roots(e, j) == count_roots(f, j),
    decreases j,
{
    if j > 1 {
        lemma_count_roots_prefix(e, f, j - 1);
    }
}

/// Entries that are already there keep naming the same paths when more are added behind them.
/// Whether entry `x` lies on the path named by one of `pins`: it is a pin or an ancestor of one,
/// the root excluded.
pub open spec fn pinned<N>(e: Seq<(usize, N, usize)>, pins: Seq<usize>, x: int) -> bool {
    exists|q: int| 0 <= q < pins.len() && #[trigger] pile_chain(e, pins[q] as int).contains(x as usize)
}

/// One mark for each entry that `rebuild` keeps (see `pinned`), none for the others.
pub open spec fn pin_marks<N>(e: Seq<(usize, N, usize)>, pins: Seq<usize>) -> Seq<usize> {
    Seq::new(e.len(), |x: int| if x >= 1 && pinned(e, pins, x) { 1usize } else { 0usize })
}

proof fn lemma_chain_head<N>(e: Seq<(usize, N, usize)>, x: int)
    requires
        pile_wf(e),
        1 <= x < e.len(),
    ensures
        pile_chain(e, x).contains(x as usize),
{
    assert(pile_chain(e, x)[0] == x as usize);
}

proof fn lemma_chain_parent<N>(e: Seq<(usize, N, usize)>, p: int, c: int)
    requires
        pile_wf(e),
        e.len() <= usize::MAX,
        pile_chain(e, p).contains(c as usize),
        0 <= c < e.len(),
        e[c].0 != 0,
    ensures
        pile_chain(e, p).contains(e[c].0),
    decreases p,
{
    if !(p <= 0 || p >= e.len() || e[p].0 >= p) {
        let rest = pile_chain(e, e[p].0 as int);
        assert(pile_chain(e, p) == seq![p as usize] + rest);
        assert(pile_chain(e, p)[0] == p as usize);
        if c == p {
            lemma_chain_head(e, e[p].0 as int);
            let i = choose|i: int| 0 <= i < rest.len() && rest[i] == e[p].0;
            assert(pile_chain(e, p)[i + 1] == e[p].0);
        } else {
            let i = choose|i: int| 0 <= i < pile_chain(e, p).len() && pile_chain(e, p)[i] == c as usize;
            assert(i > 0);
            assert(rest[i - 1] == c as usize);
            lemma_chain_parent(e, e[p].0 as int, c);
            let j = choose|j: int| 0 <= j < rest.len() && rest[j] == e[c].0;
            assert(pile_chain(e, p)[j + 1] == e[c].0);
        }
    }
}

proof fn lemma_chain_marked<N>(e: Seq<(usize, N, usize)>, m: Seq<usize>, p: int, c: int)
    requires
        pile_wf(e),
        e.len() <= usize::MAX,
        0 <= c < e.len(),
        m.len() == e.len(),
        0 <= p < e.len(),
        p >= 1 ==> m[p] != 0,
        forall|x: int| 1 <= x < e.len() && m[x] != 0 && e[x].0 != 0 ==> #[trigger] m[e[x].0 as int] != 0,
        pile_chain(e, p).contains(c as usize),
    ensures
        m[c] != 0,
    decreases p,
{
    if !(p <= 0 || p >= e.len() || e[p].0 >= p) {
        let q = e[p].0 as int;
        let rest = pile_chain(e, q);
        assert(pile_chain(e, p) == seq![p as usize] + rest);
        assert(pile_chain(e, p)[0] == p as usize);
        if c != p {
            let i = choose|i: int| 0 <= i < pile_chain(e, p).len() && pile_chain(e, p)[i] == c as usize;
            assert(i > 0);
            assert(rest[i - 1] == c as usize);
            lemma_chain_marked(e, m, q, c);
        }
    }
}

proof fn lemma_packed_into_congr<N>(e0: Seq<(usize, N, usize)>, m: Seq<usize>, pm: Seq<usize>, e1: Seq<(usize, N, usize)>)
    requires
        pile_wf(e0),
        m.len() == e0.len(),
        pm.len() == e0.len(),
        forall|x: int| 1 <= x < e0.len() ==> (m[x] != 0) == (#[trigger] pm[x] != 0),
        packed_into(e0, m, e1),
    ensures
        packed_into(e0, pm, e1),
{
    assert forall|x: int| 1 <= x < e0.len() implies #[trigger] packed_index(m, x) == packed_index(pm, x) by {
        lemma_count_marked_congr(m, pm, x);
    }
    assert forall|x: int|
        1 <= x < e0.len() && pm[x] != 0 implies {
            &&& packed_index(pm, x) < e1.len()
            &&& (#[trigger] e1[packed_index(pm, x)]).0 as int == (if e0[x].0 == 0 {
                0
            } else {
                packed_index(pm, e0[x].0 as int)
            })
            &&& e1[packed_index(pm, x)].1 == e0[x].1
        } by {
        assert(packed_index(m, x) == packed_index(pm, x));
        assert(m[x] != 0);
        assert(e1[packed_index(m, x)].1 == e0[x].1);
        if e0[x].0 != 0 {
            assert(e0[x].0 < x);
            assert(packed_index(m, e0[x].0 as int) == packed_index(pm, e0[x].0 as int));
        }
    }
    assert forall|x: int| 1 <= x < e0.len() && pm[x] != 0 implies packed_index(pm, x) < e1.len() by {
        assert(packed_index(m, x) == packed_index(pm, x));
        assert(m[x] != 0);
        assert(e1[packed_index(m, x)].1 == e0[x].1);
    }
}

proof fn lemma_count_marked_congr(m1: Seq<usize>, m2: Seq<usize>, j: int)
    requires
        forall|x: int| 1 <= x < j ==> (m1[x] != 0) == (m2[x] != 0),
    ensures
        count_marked(m1, j) == count_marked(m2, j),
    decreases j,
{
    if j > 1 {
        lemma_count_marked_congr(m1, m2, j - 1);
    }
}

/// The entries on the way from `idx` to the root are entries of the pile.
pub proof fn lemma_chain_in_range<N>(e: Seq<(usize, N, usize)>, idx: int)
    requires
        e.len() <= usize::MAX,
    ensures
        forall|k: int|
            0 <= k < pile_chain(e, idx).len() ==> 1 <= #[trigger] pile_chain(e, idx)[k] < e.len(),
    decreases idx,
{
    if !(idx <= 0 || idx >= e.len() || e[idx].0 >= idx) {
        lemma_chain_in_range(e, e[idx].0 as int);
        let rest = pile_chain(e, e[idx].0 as int);
        assert forall|k: int| 0 <= k < pile_chain(e, idx).len() implies 1 <= #[trigger] pile_chain(e, idx)[k] < e.len() by {
            assert(pile_chain(e, idx) == seq![idx as usize] + rest);
            if k > 0 {
                assert(pile_chain(e, idx)[k] == rest[k - 1]);
            } else {
                assert(pile_chain(e, idx)[0] == idx as usize);
            }
        }
    }
}

pub proof fn lemma_path_prefix_stable<N>(e1: Seq<(usize, N, usize)>, e2: Seq<(usize, N, usize)>)
    requires
        e1.len() <= e2.len(),
        forall|k: int| 0 <= k < e1.len() ==> #[trigger] e2[k] == e1[k],
    ensures
        forall|k: int| 0 <= k < e1.len() ==> #[trigger] pile_path(e2, k) == pile_path(e1, k),
{
    assert forall|k: int| 0 <= k < e1.len() implies #[trigger] pile_path(e2, k) == pile_path(e1, k) by {
        lemma_path_prefix_stable_at(e1, e2, k);
    }
}

proof fn lemma_path_prefix_stable_at<N>(e1: Seq<(usize, N, usize)>, e2: Seq<(usize, N, usize)>, k: int)
    requires
        e1.len() <= e2.len(),
        forall|k: int| 0 <= k < e1.len() ==> #[trigger] e2[k] == e1[k],
        0 <= k < e1.len(),
    ensures
        pile_path(e2, k) == pile_path(e1, k),
    decreases k,
{
    if k > 0 && e1[k].0 < k {
        lemma_path_prefix_stable_at(e1, e2, e1[k].0 as int);
    }
}

} // verus!
