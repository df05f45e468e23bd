use std::collections::VecDeque;
use vstd::prelude::*;

use crate::chunk_store::ChunkFactory;
use crate::chunk_store::ChunkVecDeque;
use crate::chunk_store::filter_by;
use crate::chunk_store::lemma_filter_by_len;
use crate::chunk_store::lemma_filter_by_push;

verus! {

/// The elements of a run of chunks, chunk after chunk.
pub open spec fn concat_chunks<N>(qs: Seq<ChunkVecDeque<N>>) -> Seq<N>
    decreases qs.len(),
{
    if qs.len() == 0 {
        Seq::empty()
    } else {
        concat_chunks(qs.drop_last()) + qs.last()@
    }
}

pub open spec fn all_chunks_wf<N>(qs: Seq<ChunkVecDeque<N>>) -> bool {
    forall|k: int| 0 <= k < qs.len() ==> (#[trigger] qs[k]).wf()
}

/// The elements held by a run of queues, queue after queue.
pub open spec fn concat_queues<N, CF>(qs: Seq<ChunkQueue<N, CF>>) -> Seq<N>
    decreases qs.len(),
{
    if qs.len() == 0 {
        Seq::empty()
    } else {
        concat_queues(qs.drop_last()) + qs.last()@
    }
}

/// Slots per chunk: as many elements as fit in a megabyte, and at least one.
pub open spec fn chunk_cap<N>() -> nat {
    let d = vstd::layout::size_of::<N>();
    if d == 0 {
        0x10_0000
    } else if d > 0x10_0000 {
        1
    } else {
        0x10_0000nat / d
    }
}

pub proof fn lemma_concat_chunks_append<N>(a: Seq<ChunkVecDeque<N>>, b: Seq<ChunkVecDeque<N>>)
    ensures
        concat_chunks(a + b) == concat_chunks(a) + concat_chunks(b),
    decreases b.len(),
{
    if b.len() == 0 {
        assert(a + b =~= a);
        assert(concat_chunks(a) + concat_chunks(b) =~= concat_chunks(a));
    } else {
        lemma_concat_chunks_append(a, b.drop_last());
        assert((a + b).drop_last() =~= a + b.drop_last());
        assert(concat_chunks(a + b) =~= concat_chunks(a) + concat_chunks(b));
    }
}

pub proof fn lemma_concat_chunks_single<N>(c: ChunkVecDeque<N>)
    ensures
        concat_chunks(seq![c]) == c@,
{
    assert(seq![c].drop_last() =~= Seq::<ChunkVecDeque<N>>::empty());
    assert(Seq::<N>::empty() + c@ =~= c@);
    assert(concat_chunks(Seq::<ChunkVecDeque<N>>::empty()) == Seq::<N>::empty());
    assert(seq![c].last() == c);
    assert(concat_chunks(seq![c]) == concat_chunks(seq![c].drop_last()) + seq![c].last()@);
}

pub proof fn lemma_concat_chunks_front<N>(qs: Seq<ChunkVecDeque<N>>)
    requires
        qs.len() > 0,
    ensures
        concat_chunks(qs) == qs[0]@ + concat_chunks(qs.subrange(1, qs.len() as int)),
{
    lemma_concat_chunks_append(seq![qs[0]], qs.subrange(1, qs.len() as int));
    assert(seq![qs[0]] + qs.subrange(1, qs.len() as int) =~= qs);
    lemma_concat_chunks_single(qs[0]);
}

pub proof fn lemma_concat_queues_push<N, CF>(qs: Seq<ChunkQueue<N, CF>>, q: ChunkQueue<N, CF>)
    ensures
        concat_queues(qs.push(q)) == concat_queues(qs) + q@,
{
    assert(qs.push(q).drop_last() =~= qs);
}

/// Filtering a concatenation filters each part.
pub proof fn lemma_filter_by_append<T>(a: Seq<T>, ka: Seq<bool>, b: Seq<T>, kb: Seq<bool>)
    requires
        a.len() == ka.len(),
        b.len() == kb.len(),
    ensures
        filter_by(a + b, ka + kb) == filter_by(a, ka) + filter_by(b, kb),
    decreases b.len(),
{
    if b.len() == 0 {
        assert(a + b =~= a);
        assert(ka + kb =~= ka);
        assert(filter_by(b, kb) =~= Seq::<T>::empty());
        assert(filter_by(a, ka) + filter_by(b, kb) =~= filter_by(a, ka));
    } else {
        let b1 = b.drop_last();
        let kb1 = kb.subrange(0, kb.len() - 1);
        lemma_filter_by_append(a, ka, b1, kb1);
        lemma_filter_by_push(a + b1, ka + kb1, b.last(), kb.last());
        lemma_filter_by_push(b1, kb1, b.last(), kb.last());
        assert((a + b1).push(b.last()) =~= a + b);
        assert((ka + kb1).push(kb.last()) =~= ka + kb);
        assert(b1.push(b.last()) =~= b);
        assert(kb1.push(kb.last()) =~= kb);
    }
}

/// Chunks whose views are all empty add nothing to a concatenation.
pub proof fn lemma_concat_chunks_empties<N>(qs: Seq<ChunkVecDeque<N>>)
    requires
        forall|k: int| 0 <= k < qs.len() ==> (#[trigger] qs[k])@.len() == 0,
    ensures
        concat_chunks(qs) == Seq::<N>::empty(),
    decreases qs.len(),
{
    if qs.len() > 0 {
        lemma_concat_chunks_empties(qs.drop_last());
        assert(qs.last()@.len() == 0);
        assert(concat_chunks(qs) =~= Seq::<N>::empty());
    }
}

/// The concatenation of a run in which the chunks strictly between `i` and `j` are empty.
pub proof fn lemma_concat_chunks_pair<N>(qs: Seq<ChunkVecDeque<N>>, i: int, j: int)
    requires
        0 <= i < j < qs.len(),
        forall|k: int| i < k < j ==> (#[trigger] qs[k])@.len() == 0,
    ensures
        concat_chunks(qs) == concat_chunks(qs.subrange(0, i)) + qs[i]@ + qs[j]@ + concat_chunks(
            qs.subrange(j + 1, qs.len() as int),
        ),
{
    let a = qs.subrange(0, i);
    let m = qs.subrange(i + 1, j);
    let b = qs.subrange(j + 1, qs.len() as int);
    assert(qs =~= a + seq![qs[i]] + m + seq![qs[j]] + b);
    lemma_concat_chunks_append(a + seq![qs[i]] + m + seq![qs[j]], b);
    lemma_concat_chunks_append(a + seq![qs[i]] + m, seq![qs[j]]);
    lemma_concat_chunks_append(a + seq![qs[i]], m);
    lemma_concat_chunks_append(a, seq![qs[i]]);
    lemma_concat_chunks_single(qs[i]);
    lemma_concat_chunks_single(qs[j]);
    assert forall|k: int| 0 <= k < m.len() implies (#[trigger] m[k])@.len() == 0 by {
        assert(m[k] == qs[i + 1 + k]);
    }
    lemma_concat_chunks_empties(m);
    assert(concat_chunks(a) + qs[i]@ + Seq::<N>::empty() =~= concat_chunks(a) + qs[i]@);
}

/// Length of the concatenation of a prefix of a run is at most that of the whole run.
pub proof fn lemma_concat_chunks_prefix_len<N>(qs: Seq<ChunkVecDeque<N>>, i: int)
    requires
        0 <= i <= qs.len(),
    ensures
        concat_chunks(qs.subrange(0, i)).len() + concat_chunks(qs.subrange(i, qs.len() as int)).len()
            == concat_chunks(qs).len(),
{
    lemma_concat_chunks_append(qs.subrange(0, i), qs.subrange(i, qs.len() as int));
    assert(qs.subrange(0, i) + qs.subrange(i, qs.len() as int) =~= qs);
}

/// First chunk of shard `i` when `len` chunks go to `shards` shards.
pub open spec fn share(i: int, len: int, shards: int) -> int {
    i * len / shards
}

/// The parts that `share` cuts differ by at most one: each holds `len / shards` or one more.
pub proof fn lemma_share_step(i: int, len: int, shards: int)
    requires
        0 <= i,
        0 <= len,
        0 < shards,
    ensures
        len / shards <= share(i + 1, len, shards) - share(i, len, shards) <= len / shards + 1,
{
    let a = i * len;
    let q = a / shards;
    let r = a % shards;
    let lq = len / shards;
    let lr = len % shards;
    vstd::arithmetic::div_mod::lemma_fundamental_div_mod(a, shards);
    vstd::arithmetic::div_mod::lemma_fundamental_div_mod(len, shards);
    assert((i + 1) * len == a + len) by (nonlinear_arith)
        requires
            a == i * len,
    ;
    let b = a + len;
    assert(b == shards * (q + lq) + (r + lr)) by (nonlinear_arith)
        requires
            a == shards * q + r,
            len == shards * lq + lr,
            b == a + len,
    ;
    assert(0 <= r + lr < 2 * shards);
    if r + lr < shards {
        assert(b == (q + lq) * shards + (r + lr)) by (nonlinear_arith)
            requires
                b == shards * (q + lq) + (r + lr),
        ;
        vstd::arithmetic::div_mod::lemma_fundamental_div_mod_converse_div(b, shards, q + lq, r + lr);
    } else {
        assert(b == (q + lq + 1) * shards + (r + lr - shards)) by (nonlinear_arith)
            requires
                b == shards * (q + lq) + (r + lr),
        ;
        vstd::arithmetic::div_mod::lemma_fundamental_div_mod_converse_div(b, shards, q + lq + 1, r + lr - shards);
    }
}

/// `i * len / shards` grows with `i` and reaches `len` at `i == shards`.
proof fn lemma_share_bounds(i: int, len: int, shards: int)
    requires
        0 <= i < shards,
        0 <= len,
    ensures
        i * len / shards <= (i + 1) * len / shards,
        (i + 1) * len / shards <= len,
        shards * len / shards == len,
        0 <= i * len / shards,
{
    vstd::arithmetic::mul::lemma_mul_inequality(i, i + 1, len);
    vstd::arithmetic::mul::lemma_mul_inequality(i + 1, shards, len);
    vstd::arithmetic::mul::lemma_mul_nonnegative(i, len);
    vstd::arithmetic::div_mod::lemma_div_is_ordered(i * len, (i + 1) * len, shards);
    vstd::arithmetic::div_mod::lemma_div_is_ordered((i + 1) * len, shards * len, shards);
    vstd::arithmetic::div_mod::lemma_div_multiples_vanish(len, shards);
    vstd::arithmetic::div_mod::lemma_div_pos_is_pos(i * len, shards);
}

/// A FIFO queue spread over a run of fixed-size chunks.
pub struct ChunkQueue<N, CF> {
    pub cf: CF,
    len: usize,
    q: VecDeque<ChunkVecDeque<N>>,
}

impl<N, CF> View for ChunkQueue<N, CF> {
    type V = Seq<N>;

    closed spec fn view(&self) -> Seq<N> {
        concat_chunks(self.q@)
    }
}

impl<N, CF: ChunkFactory<N>> ChunkQueue<N, CF> {
    pub closed spec fn wf(&self) -> bool {
        &&& all_chunks_wf(self.q@)
        &&& self.len == self@.len()
    }

    /// The factory that new chunks come from.
    pub closed spec fn spec_cf(&self) -> CF {
        self.cf
    }

    /// Number of chunks the queue is spread over.
    pub closed spec fn spec_chunks(&self) -> nat {
        self.q@.len()
    }

    /// The queue is packed: every chunk is full (holds as many elements as it has slots), but
    /// for the last one, which holds at least one element if it is not full.
    pub closed spec fn packed(&self) -> bool {
        forall|k: int|
            0 <= k < self.q@.len() ==> (#[trigger] self.q@[k])@.len() == self.q@[k].spec_cap() || (k == self.q@.len()
                - 1 && self.q@[k]@.len() > 0)
    }

    /// Slots per chunk (see `chunk_cap`).
    fn chunk_size(&self) -> (r: usize)
        ensures
            r == chunk_cap::<N>(),
            r >= 1,
    {
        let d = core::mem::size_of::<N>();
        if d == 0 {
            0x10_0000
        } else if d > 0x10_0000 {
            1
        } else {
            assert(0x10_0000int / (d as int) >= 1) by (nonlinear_arith)
                requires
                    0 < d <= 0x10_0000,
            ;
            0x10_0000usize / d
        }
    }

    pub fn new(cf: CF) -> (r: ChunkQueue<N, CF>)
        ensures
            r.wf(),
            r@ == Seq::<N>::empty(),
            r.spec_cf() == cf,
            r.spec_chunks() == 0,
    {
        ChunkQueue { cf: cf, len: 0, q: VecDeque::new() }
    }

    pub fn push_back(&mut self, n: N)
        where N: Copy,
        requires
            old(self).wf(),
            old(self)@.len() < usize::MAX,
        ensures
            final(self).wf(),
            final(self)@ == old(self)@.push(n),
            final(self).spec_cf() == old(self).spec_cf(),
    {
        self.len = self.len + 1;
        let ghost qs0 = self.q@;
        if let Some(mut last) = self.q.pop_back() {
            let ghost front = self.q@;
            proof {
                assert(qs0 =~= front.push(qs0.last()));
                assert(qs0.drop_last() =~= front);
            }
            if last.offer(n) {
                self.q.push_back(last);
                proof {
                    assert(self.q@.drop_last() =~= front);
                    assert(concat_chunks(self.q@) =~= concat_chunks(qs0).push(n));
                }
                return ;
            }
            self.q.push_back(last);
            proof {
                assert(self.q@.drop_last() =~= front);
                assert(concat_chunks(self.q@) =~= concat_chunks(qs0));
                assert forall|k: int| 0 <= k < self.q@.len() implies (#[trigger] self.q@[k]).wf() by {
                    if k < front.len() {
                        assert(self.q@[k] == qs0[k]);
                    }
                }
            }
        }
        let mut c = self.cf.new_chunk_vec_deque(self.chunk_size());
        let ok = c.offer(n);
        assert(ok);
        let ghost qs1 = self.q@;
        self.q.push_back(c);
        proof {
            assert(self.q@.drop_last() =~= qs1);
            assert(concat_chunks(self.q@) =~= concat_chunks(qs1).push(n));
        }
    }

    /// The chunk factory the queue allocates with.
    pub fn factory(&self) -> (r: CF)
        where CF: Copy,
        ensures
            r == self.spec_cf(),
    {
        self.cf
    }

    pub fn len(&self) -> (r: usize)
        requires
            self.wf(),
        ensures
            r == self@.len(),
    {
        self.len
    }

    pub fn pop_front(&mut self) -> (r: Option<N>)
        where N: Copy,
        requires
            old(self).wf(),
        ensures
            final(self).wf(),
            final(self).spec_cf() == old(self).spec_cf(),
            old(self)@.len() == 0 ==> r is None && final(self)@ == old(self)@,
            old(self)@.len() > 0 ==> r == Some(old(self)@[0]) && final(self)@ == old(self)@.drop_first(),
    {
        let ghost v0 = self@;
        loop
            invariant
                all_chunks_wf(self.q@),
                self@ == v0,
                self.len == v0.len(),
                self.cf == old(self).cf,
                v0 == old(self)@,
            decreases self.q@.len(),
        {
            let ghost qs0 = self.q@;
            match self.q.pop_front() {
                Some(mut c) => {
                    proof {
                        lemma_concat_chunks_front(qs0);
                        assert(self.q@ =~= qs0.subrange(1, qs0.len() as int));
                        assert(qs0[0] == c);
                    }
                    match c.pop_front() {
                        Some(n) => {
                            let ghost rest = self.q@;
                            self.q.push_front(c);
                            proof {
                                assert(self.q@ =~= seq![c] + rest);
                                lemma_concat_chunks_append(seq![c], rest);
                                lemma_concat_chunks_single(c);
                                assert(self@ =~= v0.drop_first());
                                assert(self.q@[0] == c);
                                assert forall|k: int| 0 <= k < self.q@.len() implies (
                                #[trigger] self.q@[k]).wf() by {
                                    if k > 0 {
                                        assert(self.q@[k] == qs0[k]);
                                    }
                                }
                            }
                            self.len = self.len - 1;
                            return Some(n);
                        },
                        None => {
                            proof {
                                assert forall|k: int| 0 <= k < self.q@.len() implies (
                                #[trigger] self.q@[k]).wf() by {
                                    assert(self.q@[k] == qs0[k + 1]);
                                }
                            }
                            continue ;
                        },
                    }
                },
                None => {
                    return None;
                },
            }
        }
    }

    pub fn front(&self) -> (r: Option<&N>)
        requires
            self.wf(),
        ensures
            self@.len() == 0 ==> r is None,
            self@.len() > 0 ==> r == Some(&self@[0]),
    {
        let nq = self.q.len();
        let mut i: usize = 0;
        while i < nq
            invariant
                self.wf(),
                nq == self.q@.len(),
                i <= nq,
                concat_chunks(self.q@.subrange(0, i as int)).len() == 0,
            decreases nq - i,
        {
            let c = &self.q[i];
            proof {
                lemma_concat_chunks_append(
                    self.q@.subrange(0, i as int),
                    self.q@.subrange(i as int, nq as int),
                );
                assert(self.q@.subrange(0, i as int) + self.q@.subrange(i as int, nq as int)
                    =~= self.q@);
                lemma_concat_chunks_front(self.q@.subrange(i as int, nq as int));
                assert(self.q@.subrange(i as int, nq as int)[0] == self.q@[i as int]);
                assert(self.q@[i as int].wf());
            }
            if let Some(n) = c.front() {
                return Some(n);
            }
            proof {
                lemma_concat_chunks_append(self.q@.subrange(0, i as int), seq![self.q@[i as int]]);
                lemma_concat_chunks_single(self.q@[i as int]);
                assert(self.q@.subrange(0, i as int) + seq![self.q@[i as int]] =~= self.q@.subrange(
                    0,
                    i + 1,
                ));
            }
            i = i + 1;
        }
        assert(self.q@.subrange(0, nq as int) =~= self.q@);
        None
    }

    /// The elements, front to back.
    pub fn iter(&self) -> (r: Vec<N>)
        where N: Copy,
        requires
            self.wf(),
        ensures
            r@ == self@,
    {
        let nq = self.q.len();
        let mut acc: Vec<N> = Vec::new();
        let mut i: usize = 0;
        while i < nq
            invariant
                self.wf(),
                nq == self.q@.len(),
                i <= nq,
                acc@ == concat_chunks(self.q@.subrange(0, i as int)),
            decreases nq - i,
        {
            assert(self.q@[i as int].wf());
            let mut part = self.q[i].iter();
            let ghost before = acc@;
            acc.append(&mut part);
            proof {
                lemma_concat_chunks_append(self.q@.subrange(0, i as int), seq![self.q@[i as int]]);
                lemma_concat_chunks_single(self.q@[i as int]);
                assert(self.q@.subrange(0, i as int) + seq![self.q@[i as int]] =~= self.q@.subrange(
                    0,
                    i + 1,
                ));
            }
            i = i + 1;
        }
        assert(self.q@.subrange(0, nq as int) =~= self.q@);
        acc
    }

    /// Moves all of `other` to the back of `self`.
    pub fn append(&mut self, other: &mut ChunkQueue<N, CF>)
        requires
            old(self).wf(),
            old(other).wf(),
            old(self)@.len() + old(other)@.len() <= usize::MAX,
        ensures
            final(self).wf(),
            final(other).wf(),
            final(self)@ == old(self)@ + old(other)@,
            final(other)@ == Seq::<N>::empty(),
            final(self).spec_cf() == old(self).spec_cf(),
            final(other).spec_cf() == old(other).spec_cf(),
    {
        let ghost a = self.q@;
        let ghost b = other.q@;
        self.q.append(&mut other.q);
        self.len = self.len + other.len;
        other.len = 0;
        proof {
            lemma_concat_chunks_append(a, b);
            assert forall|k: int| 0 <= k < self.q@.len() implies (#[trigger] self.q@[k]).wf() by {
                if k < a.len() {
                    assert(self.q@[k] == a[k]);
                } else {
                    assert(self.q@[k] == b[k - a.len()]);
                }
            }
            assert(other.q@ =~= Seq::<ChunkVecDeque<N>>::empty());
        }
    }

    /// Keeps the elements for which `f` answers true, in order.
    pub fn retain(&mut self, f: &impl Fn(&N) -> bool)
        where N: Copy,
        requires
            old(self).wf(),
            forall|x: N| #[trigger] call_requires(*f, (&x,)),
        ensures
            final(self).wf(),
            final(self).spec_cf() == old(self).spec_cf(),
            exists|keep: Seq<bool>|
                {
                    &&& keep.len() == old(self)@.len()
                    &&& forall|k: int|
                        0 <= k < keep.len() ==> call_ensures(*f, (&old(self)@[k],), #[trigger] keep[k])
                    &&& final(self)@ == filter_by(old(self)@, keep)
                },
    {
        let ghost qs0 = self.q@;
        let ghost v0 = self@;
        let ghost mut done: Seq<ChunkVecDeque<N>> = Seq::empty();
        let ghost mut keep: Seq<bool> = Seq::empty();
        let nq = self.q.len();
        let mut len: usize = 0;
        let mut k: usize = 0;
        while k < nq
            invariant
                k <= nq,
                nq == qs0.len(),
                qs0 == old(self).q@,
                v0 == old(self)@,
                v0 == concat_chunks(qs0),
                v0.len() <= usize::MAX,
                all_chunks_wf(qs0),
                self.q@ == qs0.subrange(k as int, nq as int) + done,
                all_chunks_wf(done),
                keep.len() == concat_chunks(qs0.subrange(0, k as int)).len(),
                forall|x: N| #[trigger] call_requires(*f, (&x,)),
                forall|m: int|
                    0 <= m < keep.len() ==> call_ensures(
                        *f,
                        (&concat_chunks(qs0.subrange(0, k as int))[m],),
                        #[trigger] keep[m],
                    ),
                concat_chunks(done) == filter_by(concat_chunks(qs0.subrange(0, k as int)), keep),
                len == concat_chunks(done).len(),
                self.cf == old(self).cf,
            decreases nq - k,
        {
            let ghost qs1 = self.q@;
            let mut c = self.q.pop_front().unwrap();
            proof {
                assert(c == qs0[k as int]);
                assert(c.wf());
            }
            let ghost c0 = c@;
            c.retain(f);
            let ghost kc = choose|kc: Seq<bool>|
                {
                    &&& kc.len() == c0.len()
                    &&& forall|m: int| 0 <= m < kc.len() ==> call_ensures(*f, (&c0[m],), #[trigger] kc[m])
                    &&& c@ == filter_by(c0, kc)
                };
            proof {
                let pre = concat_chunks(qs0.subrange(0, k as int));
                lemma_concat_chunks_append(qs0.subrange(0, k as int), seq![qs0[k as int]]);
                lemma_concat_chunks_single(qs0[k as int]);
                assert(qs0.subrange(0, k as int) + seq![qs0[k as int]] =~= qs0.subrange(0, k + 1));
                lemma_filter_by_append(pre, keep, c0, kc);
                lemma_filter_by_len(c0, kc);
                lemma_filter_by_len(pre, keep);
                lemma_concat_chunks_prefix_len(qs0, k + 1);
                assert forall|m: int| 0 <= m < keep.len() + kc.len() implies call_ensures(
                    *f,
                    (&concat_chunks(qs0.subrange(0, k + 1))[m],),
                    #[trigger] (keep + kc)[m],
                ) by {
                    if m < keep.len() {
                        assert((pre + c0)[m] == pre[m]);
                    } else {
                        assert((pre + c0)[m] == c0[m - keep.len()]);
                    }
                }
                lemma_concat_chunks_append(done, seq![c]);
                lemma_concat_chunks_single(c);
                assert(done + seq![c] =~= done.push(c));
                assert(concat_chunks(qs0.subrange(0, k + 1)) == pre + c0);
                keep = keep + kc;
                done = done.push(c);
                assert forall|m: int| 0 <= m < done.len() implies (#[trigger] done[m]).wf() by {
                    if m < done.len() - 1 {
                        assert(done[m] == done.drop_last()[m]);
                    }
                }
            }
            len = len + c.len();
            self.q.push_back(c);
            proof {
                assert(self.q@ =~= qs0.subrange(k + 1, nq as int) + done);
            }
            k = k + 1;
        }
        proof {
            assert(qs0.subrange(0, nq as int) =~= qs0);
            assert(qs0.subrange(nq as int, nq as int) + done =~= done);
            assert forall|m: int| 0 <= m < self.q@.len() implies (#[trigger] self.q@[m]).wf() by {
                assert(self.q@[m] == done[m]);
            }
        }
        self.len = len;
    }

    /// Splits the chunks into `shards` queues of nearly equal chunk counts, in order, leaving
    /// `self` empty.
    pub fn drain_partition(&mut self, shards: usize) -> (r: Vec<ChunkQueue<N, CF>>)
        requires
            old(self).wf(),
            shards > 0 || old(self).spec_chunks() == 0,
            shards * old(self).spec_chunks() <= usize::MAX,
        ensures
            final(self).wf(),
            final(self)@ == Seq::<N>::empty(),
            final(self).spec_cf() == old(self).spec_cf(),
            r@.len() == shards,
            forall|i: int| 0 <= i < r@.len() ==> (#[trigger] r@[i]).wf(),
            forall|i: int| 0 <= i < r@.len() ==> (#[trigger] r@[i]).spec_cf() == old(self).spec_cf(),
            forall|i: int|
                0 <= i < r@.len() ==> (#[trigger] r@[i]).spec_chunks() == share(
                    i + 1,
                    old(self).spec_chunks() as int,
                    shards as int,
                ) - share(i, old(self).spec_chunks() as int, shards as int),
            concat_queues(r@) == old(self)@,
    {
        let ghost qs0 = self.q@;
        let len = self.q.len();
        let mut ret: Vec<ChunkQueue<N, CF>> = Vec::new();
        let mut i: usize = 0;
        if shards == 0 {
            assert(concat_chunks(qs0) =~= Seq::<N>::empty());
            return ret;
        }
        proof {
            assert(shards * len == len * shards) by (nonlinear_arith);
            vstd::arithmetic::div_mod::lemma_div_multiples_vanish(len as int, shards as int);
            assert(0 * len == 0);
            assert(qs0.subrange(0, 0) =~= Seq::<ChunkVecDeque<N>>::empty());
        }
        while i < shards
            invariant
                0 < shards,
                i <= shards,
                len == qs0.len(),
                qs0 == old(self).q@,
                all_chunks_wf(qs0),
                concat_chunks(qs0).len() <= usize::MAX,
                shards * len <= usize::MAX,
                self.q@ == qs0.subrange(share(i as int, len as int, shards as int), len as int),
                0 <= share(i as int, len as int, shards as int) <= len,
                ret@.len() == i,
                forall|m: int| 0 <= m < ret@.len() ==> (#[trigger] ret@[m]).wf(),
                forall|m: int| 0 <= m < ret@.len() ==> (#[trigger] ret@[m]).cf == old(self).cf,
                forall|m: int|
                    0 <= m < ret@.len() ==> (#[trigger] ret@[m]).q@.len() == share(m + 1, len as int, shards as int)
                        - share(m, len as int, shards as int),
                concat_queues(ret@) == concat_chunks(qs0.subrange(0, share(i as int, len as int, shards as int))),
                self.cf == old(self).cf,
            decreases shards - i,
        {
            let ghost lo = share(i as int, len as int, shards as int);
            proof {
                lemma_share_bounds(i as int, len as int, shards as int);
                vstd::arithmetic::mul::lemma_mul_inequality(i + 1, shards as int, len as int);
                vstd::arithmetic::mul::lemma_mul_inequality(i as int, shards as int, len as int);
                assert((i + 1) * len <= shards * len);
                assert(i * len <= shards * len);
            }
            let ct = (i + 1) * len / shards - i * len / shards;
            let ghost hi = share(i + 1, len as int, shards as int);
            let mut q: VecDeque<ChunkVecDeque<N>> = VecDeque::new();
            let mut qlen: usize = 0;
            let mut m: usize = 0;
            while m < ct
                invariant
                    m <= ct,
                    ct == hi - lo,
                    0 <= lo <= hi <= len,
                    len == qs0.len(),
                    all_chunks_wf(qs0),
                    concat_chunks(qs0).len() <= usize::MAX,
                    self.q@ == qs0.subrange(lo + m, len as int),
                    q@ == qs0.subrange(lo, lo + m),
                    qlen == concat_chunks(q@).len(),
                    self.cf == old(self).cf,
                decreases ct - m,
            {
                let c = self.q.pop_front().unwrap();
                proof {
                    assert(c == qs0[lo + m]);
                    lemma_concat_chunks_append(q@, seq![c]);
                    lemma_concat_chunks_single(c);
                    lemma_concat_chunks_prefix_len(qs0, lo);
                    lemma_concat_chunks_prefix_len(qs0.subrange(lo, len as int), m + 1);
                    assert(qs0.subrange(lo, len as int).subrange(0, m + 1) =~= qs0.subrange(
                        lo,
                        lo + m + 1,
                    ));
                    assert(q@.push(c) =~= qs0.subrange(lo, lo + m + 1));
                    assert(q@ + seq![c] =~= q@.push(c));
                    lemma_concat_chunks_prefix_len(qs0.subrange(lo, len as int), 0);
                    assert(qs0.subrange(lo, len as int).subrange(0, len - lo) =~= qs0.subrange(
                        lo,
                        len as int,
                    ));
                }
                qlen = qlen + c.len();
                q.push_back(c);
                m = m + 1;
                proof {
                    assert(self.q@ =~= qs0.subrange(lo + m, len as int));
                }
            }
            let part = ChunkQueue { cf: self.cf, len: qlen, q: q };
            proof {
                assert forall|k: int| 0 <= k < part.q@.len() implies (#[trigger] part.q@[k]).wf() by {
                    assert(part.q@[k] == qs0[lo + k]);
                }
                lemma_concat_queues_push(ret@, part);
                lemma_concat_chunks_append(qs0.subrange(0, lo), qs0.subrange(lo, hi));
                assert(qs0.subrange(0, lo) + qs0.subrange(lo, hi) =~= qs0.subrange(0, hi));
            }
            ret.push(part);
            i = i + 1;
            proof {
                assert(ret@.drop_last() =~= ret@.subrange(0, ret@.len() - 1));
                assert forall|k: int| 0 <= k < ret@.len() implies (#[trigger] ret@[k]).wf() && ret@[k].cf
                    == old(self).cf && ret@[k].q@.len() == share(k + 1, len as int, shards as int) - share(
                    k,
                    len as int,
                    shards as int,
                ) by {
                    if k < ret@.len() - 1 {
                        assert(ret@[k] == ret@.drop_last()[k]);
                    }
                }
            }
        }
        proof {
            vstd::arithmetic::div_mod::lemma_div_multiples_vanish(len as int, shards as int);
            assert(shards * len == len * shards) by (nonlinear_arith);
            assert(qs0.subrange(0, len as int) =~= qs0);
            assert(self.q@ =~= Seq::<ChunkVecDeque<N>>::empty());
            assert(concat_chunks(self.q@) =~= Seq::<N>::empty());
        }
        self.len = 0;
        ret
    }

    /// Packs the elements into as few chunks as possible: each chunk is topped up from the ones
    /// behind it, and the chunks left empty at the back are dropped.
    #[verifier::rlimit(60)]
    pub fn defragment(&mut self)
        where N: Copy,
        requires
            old(self).wf(),
        ensures
            final(self).wf(),
            final(self)@ == old(self)@,
            final(self).spec_cf() == old(self).spec_cf(),
            final(self).packed(),
    {
        let ghost v0 = self@;
        // move the chunks into a vector, where two of them can be worked on at a time
        let mut v: Vec<ChunkVecDeque<N>> = Vec::new();
        loop
            invariant
                v@ + self.q@ == old(self).q@,
                all_chunks_wf(old(self).q@),
                self.cf == old(self).cf,
                self.len == old(self).len,
            ensures
                v@ == old(self).q@,
                self.cf == old(self).cf,
                self.len == old(self).len,
            decreases self.q@.len(),
        {
            let ghost q1 = self.q@;
            match self.q.pop_front() {
                Some(c) => {
                    v.push(c);
                    assert(v@ + self.q@ =~= old(self).q@);
                },
                None => {
                    assert(v@ =~= old(self).q@);
                    break;
                },
            }
        }
        let n = v.len();
        let mut i: usize = 0;
        let mut j: usize = 0;
        loop
            invariant_except_break
                v@.len() == n,
                all_chunks_wf(v@),
                concat_chunks(v@) == v0,
                i <= j <= n,
                i == j ==> j < n || j == 0,
                forall|k: int| i < k < j ==> (#[trigger] v@[k])@.len() == 0,
                forall|k: int| 0 <= k < i ==> (#[trigger] v@[k])@.len() == v@[k].spec_cap(),
            ensures
                v@.len() == n,
                all_chunks_wf(v@),
                concat_chunks(v@) == v0,
                i <= n,
                forall|k: int| i < k < n ==> (#[trigger] v@[k])@.len() == 0,
                forall|k: int| 0 <= k < i ==> (#[trigger] v@[k])@.len() == v@[k].spec_cap(),
            decreases 2 * n - i - j,
        {
            if i == j {
                j = j + 1;
            }
            if j >= n {
                break;
            }
            let ghost vs = v@;
            let mut p2 = ChunkVecDeque::new(Vec::new());
            std::mem::swap(&mut v[j], &mut p2);
            let mut p1 = ChunkVecDeque::new(Vec::new());
            std::mem::swap(&mut v[i], &mut p1);
            proof {
                assert(p1 == vs[i as int]);
                assert(p2 == vs[j as int]);
                assert(vs[i as int].wf());
                assert(vs[j as int].wf());
            }
            let ghost a1 = p1@;
            let ghost a2 = p2@;
            proof {
                p1.lemma_len_le_cap();
            }
            p1.shift_left(&mut p2);
            let emptied = p2.len() == 0;
            v.set(i, p1);
            v.set(j, p2);
            proof {
                let k = vstd::math::min(a2.len() as int, vs[i as int].spec_cap() - a1.len());
                assert(a1 + a2 =~= (a1 + a2.subrange(0, k)) + a2.subrange(k, a2.len() as int));
                lemma_concat_chunks_pair(vs, i as int, j as int);
                lemma_concat_chunks_pair(v@, i as int, j as int);
                assert(v@.subrange(0, i as int) =~= vs.subrange(0, i as int));
                assert(v@.subrange(j + 1, n as int) =~= vs.subrange(j + 1, n as int));
                assert forall|k: int| i < k < j implies (#[trigger] v@[k])@.len() == 0 by {
                    assert(v@[k] == vs[k]);
                }
                assert forall|k: int| 0 <= k < i implies (#[trigger] v@[k])@.len() == v@[k].spec_cap() by {
                    assert(v@[k] == vs[k]);
                }
                if v@[j as int]@.len() > 0 {
                    assert(v@[i as int]@.len() == v@[i as int].spec_cap());
                }
                assert forall|k: int| 0 <= k < v@.len() implies (#[trigger] v@[k]).wf() by {
                    if k != i && k != j {
                        assert(v@[k] == vs[k]);
                    }
                }
            }
            if emptied {
                j = j + 1;
            } else {
                i = i + 1;
            }
        }
        let mut keep = i;
        if i < n && v[i].len() > 0 {
            keep = i + 1;
        }
        proof {
            assert forall|k: int| keep <= k < n implies (#[trigger] v@[k])@.len() == 0 by {
                if k == i {
                    assert(v@[k]@.len() == 0);
                }
            }
            lemma_concat_chunks_prefix_len(v@, keep as int);
            lemma_concat_chunks_append(v@.subrange(0, keep as int), v@.subrange(keep as int, n as int));
            assert(v@.subrange(0, keep as int) + v@.subrange(keep as int, n as int) =~= v@);
            assert forall|k: int| 0 <= k < v@.subrange(keep as int, n as int).len() implies (
            #[trigger] v@.subrange(keep as int, n as int)[k])@.len() == 0 by {
                assert(v@.subrange(keep as int, n as int)[k] == v@[keep + k]);
            }
            lemma_concat_chunks_empties(v@.subrange(keep as int, n as int));
            assert(concat_chunks(v@.subrange(0, keep as int)) + Seq::<N>::empty() =~= concat_chunks(
                v@.subrange(0, keep as int),
            ));
        }
        let ghost full = v@;
        v.truncate(keep);
        let ghost kept = v@;
        proof {
            assert forall|k: int| 0 <= k < kept.len() implies (#[trigger] kept[k]).wf() by {
                assert(kept[k] == v@[k]);
            }
            assert forall|k: int|
                0 <= k < kept.len() implies (#[trigger] kept[k])@.len() == kept[k].spec_cap() || (k == kept.len() - 1
                    && kept[k]@.len() > 0) by {
                assert(kept[k] == full[k]);
            }
        }
        // and back into the queue, in order
        while v.len() > 0
            invariant
                v@ + self.q@ == kept,
                all_chunks_wf(kept),
                concat_chunks(kept) == v0,
                v0 == old(self)@,
                self.cf == old(self).cf,
                self.len == old(self).len,
                old(self).wf(),
            decreases v@.len(),
        {
            let c = v.pop().unwrap();
            self.q.push_front(c);
            assert(v@ + self.q@ =~= kept);
        }
        assert(self.q@ =~= kept);
    }
}

} // verus!
