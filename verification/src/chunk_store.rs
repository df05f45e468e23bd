use vstd::prelude::*;

verus! {

/// Position in a ring of `cap` slots of the element `i` places after the head at `off`.
pub open spec fn ring_pos(off: int, i: int, cap: int) -> int {
    (off + i) % cap
}

/// `(off + i) % cap`, computed without an intermediate that could overflow.
pub fn ring_index(off: usize, i: usize, cap: usize) -> (r: usize)
    requires
        off < cap,
        i < cap,
    ensures
        r == ring_pos(off as int, i as int, cap as int),
        r < cap,
{
    if i < cap - off {
        assert((off + i) % (cap as int) == off + i) by (nonlinear_arith)
            requires
                off + i < cap,
        ;
        off + i
    } else {
        assert((off + i) % (cap as int) == off + i - cap) by (nonlinear_arith)
            requires
                cap <= off + i < 2 * cap,
        ;
        i - (cap - off)
    }
}

/// Number of slots the allocation behind `v` has room for.  Trusted: `Vec::capacity`, which std
/// documents as never less than the length; the exact figure is the allocator's choice and is
/// left unsaid.
#[verifier::external_body]
fn vec_capacity<T>(v: &Vec<T>) -> (r: usize)
    ensures
        r >= v@.len(),
{
    v.capacity()
}

/// Makes the raw storage that chunked containers live in.
pub trait ChunkFactory<T>: Copy {
    /// A fresh chunk with at least `min_size` slots.
    fn new_chunk(&self, min_size: usize) -> (r: Vec<T>)
        ensures
            r@.len() >= min_size,
    ;

    fn new_chunk_vec(&self, cap: usize) -> (r: ChunkVec<T>)
        ensures
            r.wf(),
            r@ == Seq::<T>::empty(),
            r.spec_cap() >= cap,
    {
        ChunkVec::new(self.new_chunk(cap))
    }

    fn new_chunk_vec_deque(&self, cap: usize) -> (r: ChunkVecDeque<T>)
        ensures
            r.wf(),
            r@ == Seq::<T>::empty(),
            r.spec_cap() >= cap,
    {
        ChunkVecDeque::new(self.new_chunk(cap))
    }
}

/// Chunks on the heap, as vectors filled with default values up to their capacity.
#[derive(Clone, Copy)]
pub struct VecChunkFactory();

impl<T: Default> ChunkFactory<T> for VecChunkFactory {
    fn new_chunk(&self, min_size: usize) -> (r: Vec<T>) {
        let mut v: Vec<T> = Vec::with_capacity(min_size);
        let cap = vec_capacity(&v);
        // std promises a capacity of at least `min_size`; the guard keeps the length promise
        // without leaning on that
        let target = if cap < min_size {
            min_size
        } else {
            cap
        };
        while v.len() < target
            invariant
                v@.len() <= target,
            decreases target - v@.len(),
        {
            v.push(T::default());
        }
        v
    }
}

/// A growable vector living in a fixed chunk of storage: the first `len` slots are in use.
pub struct ChunkVec<T> {
    c: Vec<T>,
    len: usize,
}

impl<T> View for ChunkVec<T> {
    type V = Seq<T>;

    closed spec fn view(&self) -> Seq<T> {
        self.c@.subrange(0, self.len as int)
    }
}

impl<T> ChunkVec<T> {
    pub closed spec fn wf(&self) -> bool {
        self.len <= self.c@.len()
    }

    /// Number of slots of the chunk.
    pub closed spec fn spec_cap(&self) -> nat {
        self.c@.len()
    }

    pub fn new(c: Vec<T>) -> (r: ChunkVec<T>)
        ensures
            r.wf(),
            r@ == Seq::<T>::empty(),
            r.spec_cap() == c@.len(),
    {
        ChunkVec { c: c, len: 0 }
    }

    pub fn len(&self) -> (r: usize)
        requires
            self.wf(),
        ensures
            r == self@.len(),
    {
        self.len
    }

    pub fn cap(&self) -> (r: usize)
        ensures
            r == self.spec_cap(),
    {
        self.c.len()
    }

    /// Takes one more slot into use and hands it out, or refuses when the chunk is full.
    #[must_use]
    pub fn grow_one(&mut self) -> (r: Option<&mut T>)
        requires
            old(self).wf(),
        ensures
            final(self).wf(),
            final(self).spec_cap() == old(self).spec_cap(),
            r is None <==> old(self)@.len() >= old(self).spec_cap(),
            r is None ==> final(self)@ == old(self)@,
            r is Some ==> final(self)@.len() == old(self)@.len() + 1,
            r is Some ==> final(self)@.subrange(0, old(self)@.len() as int) == old(self)@,
            r matches Some(e) ==> final(self)@ == old(self)@.push(*final(e)),
    {
        if self.len >= self.c.len() {
            return None;
        }
        let i = self.len;
        self.len = i + 1;
        let r = &mut self.c[i];
        Some(r)
    }

    /// Appends `t` if the chunk has room; says whether it did.
    #[must_use]
    pub fn offer(&mut self, t: T) -> (r: bool)
        requires
            old(self).wf(),
        ensures
            final(self).wf(),
            final(self).spec_cap() == old(self).spec_cap(),
            r == (old(self)@.len() < old(self).spec_cap()),
            r ==> final(self)@ == old(self)@.push(t),
            !r ==> final(self)@ == old(self)@,
    {
        if self.len >= self.c.len() {
            return false;
        }
        let i = self.len;
        self.c[i] = t;
        self.len = i + 1;
        assert(self@ =~= old(self)@.push(t));
        true
    }

    pub fn truncate(&mut self, len: usize)
        requires
            old(self).wf(),
        ensures
            final(self).wf(),
            final(self).spec_cap() == old(self).spec_cap(),
            final(self)@ == old(self)@.subrange(0, vstd::math::min(len as int, old(self)@.len() as int)),
    {
        if len < self.len {
            self.len = len;
        }
    }

    /// The slots in use, in order.
    pub fn as_slice(&self) -> (r: &[T])
        requires
            self.wf(),
        ensures
            r@ == self@,
    {
        &self.c.as_slice()[0..self.len]
    }
}


/// The subsequence of `s` made of the elements whose `keep` flag is set, in order.
pub open spec fn filter_by<T>(s: Seq<T>, keep: Seq<bool>) -> Seq<T>
    decreases s.len(),
{
    if s.len() == 0 {
        Seq::empty()
    } else {
        let rest = filter_by(s.drop_last(), keep.subrange(0, keep.len() - 1));
        if keep[keep.len() - 1] {
            rest.push(s.last())
        } else {
            rest
        }
    }
}

/// A double-ended queue living in a fixed ring of slots: `len` elements starting at slot `off`,
/// wrapping around the end of the chunk.
pub struct ChunkVecDeque<T> {
    c: Vec<T>,
    off: usize,
    len: usize,
}

impl<T> View for ChunkVecDeque<T> {
    type V = Seq<T>;

    closed spec fn view(&self) -> Seq<T> {
        Seq::new(
            self.len as nat,
            |i: int| self.c@[ring_pos(self.off as int, i, self.c@.len() as int)],
        )
    }
}

impl<T> ChunkVecDeque<T> {
    pub closed spec fn wf(&self) -> bool {
        &&& self.len <= self.c@.len()
        &&& (self.c@.len() == 0 ==> self.off == 0)
        &&& (self.c@.len() > 0 ==> self.off < self.c@.len())
    }

    /// Number of slots of the ring.
    pub closed spec fn spec_cap(&self) -> nat {
        self.c@.len()
    }

    /// The slot of the ring that holds the front element.
    pub closed spec fn spec_head(&self) -> nat {
        self.off as nat
    }

    /// A well-formed queue holds at most as many elements as the ring has slots.
    pub proof fn lemma_len_le_cap(&self)
        requires
            self.wf(),
        ensures
            self@.len() <= self.spec_cap(),
    {
    }

    pub fn new(c: Vec<T>) -> (r: ChunkVecDeque<T>)
        ensures
            r.wf(),
            r@ == Seq::<T>::empty(),
            r.spec_cap() == c@.len(),
            r.spec_head() == 0,
    {
        let r = ChunkVecDeque { c: c, off: 0, len: 0 };
        assert(r@ =~= Seq::<T>::empty());
        r
    }

    pub fn len(&self) -> (r: usize)
        requires
            self.wf(),
        ensures
            r == self@.len(),
    {
        self.len
    }

    pub fn cap(&self) -> (r: usize)
        ensures
            r == self.spec_cap(),
    {
        self.c.len()
    }

    /// Takes one more slot at the back into use and hands it out, or refuses when full.
    #[must_use]
    pub fn grow_one(&mut self) -> (r: Option<&mut T>)
        requires
            old(self).wf(),
        ensures
            final(self).wf(),
            final(self).spec_cap() == old(self).spec_cap(),
            final(self).spec_head() == old(self).spec_head(),
            r is None <==> old(self)@.len() >= old(self).spec_cap(),
            r is None ==> final(self)@ == old(self)@,
            r matches Some(e) ==> final(self)@ == old(self)@.push(*final(e)),
    {
        if self.len >= self.c.len() {
            return None;
        }
        let i = self.len;
        let p = ring_index(self.off, i, self.c.len());
        proof {
            let cap = self.c@.len() as int;
            assert forall|k: int| 0 <= k < i implies ring_pos(self.off as int, k, cap) != p by {
                lemma_ring_pos_injective(self.off as int, k, i as int, cap);
            }
        }
        self.len = i + 1;
        let r = &mut self.c[p];
        Some(r)
    }

    /// Appends `t` at the back if there is room; says whether it did.
    #[must_use]
    pub fn offer(&mut self, t: T) -> (r: bool)
        requires
            old(self).wf(),
        ensures
            final(self).wf(),
            final(self).spec_cap() == old(self).spec_cap(),
            final(self).spec_head() == old(self).spec_head(),
            r == (old(self)@.len() < old(self).spec_cap()),
            r ==> final(self)@ == old(self)@.push(t),
            !r ==> final(self)@ == old(self)@,
    {
        match self.grow_one() {
            Some(p) => {
                *p = t;
                true
            },
            None => false,
        }
    }

    /// Element `i` of the queue.
    pub fn index(&self, i: usize) -> (r: &T)
        requires
            self.wf(),
            i < self@.len(),
        ensures
            *r == self@[i as int],
    {
        let p = ring_index(self.off, i, self.c.len());
        &self.c[p]
    }

    /// Replaces element `i` of the queue.
    pub fn set(&mut self, i: usize, t: T)
        requires
            old(self).wf(),
            i < old(self)@.len(),
        ensures
            final(self).wf(),
            final(self).spec_cap() == old(self).spec_cap(),
            final(self).spec_head() == old(self).spec_head(),
            final(self)@ == old(self)@.update(i as int, t),
    {
        let p = ring_index(self.off, i, self.c.len());
        self.c.set(p, t);
        proof {
            let cap = self.c@.len() as int;
            assert forall|k: int| 0 <= k < self.len && k != i implies ring_pos(
                self.off as int,
                k,
                cap,
            ) != p by {
                lemma_ring_pos_injective(self.off as int, k, i as int, cap);
            }
        }
        assert(self@ =~= old(self)@.update(i as int, t));
    }

    fn as_slices_lens(&self) -> (r: (usize, usize))
        requires
            self.wf(),
        ensures
            r.0 + r.1 == self.len,
            self.off + r.0 <= self.c@.len(),
            r.1 <= self.off,
            r.1 > 0 ==> self.off + r.0 == self.c@.len(),
    {
        let cap = self.c.len();
        if self.len <= cap - self.off {
            return (self.len, 0);
        }
        (cap - self.off, self.len - (cap - self.off))
    }

    /// The queue as two runs of the chunk: from the head towards the end of the ring, then the
    /// part that wraps round to its start, empty unless the queue runs past the end.
    pub fn as_slices(&self) -> (r: (&[T], &[T]))
        requires
            self.wf(),
        ensures
            r.0@ + r.1@ == self@,
            r.0@.len() == (if self.spec_head() + self@.len() <= self.spec_cap() {
                self@.len()
            } else {
                (self.spec_cap() - self.spec_head()) as nat
            }),
    {
        let (l1, l2) = self.as_slices_lens();
        let p = self.c.as_slice();
        let (s2, s1) = p.split_at(self.off);
        let a = &s1[0..l1];
        let b = &s2[0..l2];
        proof {
            let cap = self.c@.len() as int;
            assert forall|k: int| 0 <= k < self.len implies (a@ + b@)[k] == self@[k] by {
                if k < l1 {
                    assert(ring_pos(self.off as int, k, cap) == self.off + k) by (nonlinear_arith)
                        requires
                            0 <= self.off + k < cap,
                    ;
                } else {
                    assert(ring_pos(self.off as int, k, cap) == self.off + k - cap) by (nonlinear_arith)
                        requires
                            cap <= self.off + k < 2 * cap,
                    ;
                }
            }
        }
        assert(a@ + b@ =~= self@);
        (a, b)
    }

    /// The elements, front to back.
    pub fn iter(&self) -> (r: Vec<T>)
        where T: Copy,
        requires
            self.wf(),
        ensures
            r@ == self@,
    {
        let mut r: Vec<T> = Vec::new();
        let mut i: usize = 0;
        while i < self.len
            invariant
                self.wf(),
                i <= self.len,
                r@ == self@.subrange(0, i as int),
            decreases self.len - i,
        {
            r.push(*self.index(i));
            i = i + 1;
            assert(r@ =~= self@.subrange(0, i as int));
        }
        assert(self@.subrange(0, self.len as int) =~= self@);
        r
    }

    pub fn pop_front(&mut self) -> (r: Option<T>)
        where T: Copy,
        requires
            old(self).wf(),
        ensures
            final(self).wf(),
            final(self).spec_cap() == old(self).spec_cap(),
            old(self)@.len() == 0 ==> r is None && final(self)@ == old(self)@,
            old(self)@.len() > 0 ==> r == Some(old(self)@[0]) && final(self)@ == old(self)@.drop_first(),
            old(self)@.len() == 0 ==> final(self).spec_head() == old(self).spec_head(),
            old(self)@.len() > 0 ==> final(self).spec_head() == (old(self).spec_head() + 1) % old(self).spec_cap(),
    {
        if self.len == 0 {
            return None;
        }
        let r = self.c[self.off];
        let cap = self.c.len();
        proof {
            assert(ring_pos(self.off as int, 0, cap as int) == self.off) by (nonlinear_arith)
                requires
                    self.off < cap,
            ;
        }
        if cap - self.off == 1 {
            assert((self.off + 1) % (cap as int) == 0) by (nonlinear_arith)
                requires
                    self.off + 1 == cap,
            ;
            self.off = 0;
        } else {
            assert((self.off + 1) % (cap as int) == self.off + 1) by (nonlinear_arith)
                requires
                    self.off + 1 < cap,
            ;
            self.off = self.off + 1;
        }
        self.len = self.len - 1;
        proof {
            assert forall|k: int| 0 <= k < self.len implies ring_pos(self.off as int, k, cap as int)
                == ring_pos(old(self).off as int, k + 1, cap as int) by {
                lemma_ring_pos_step(old(self).off as int, k, cap as int);
            }
        }
        assert(self@ =~= old(self)@.drop_first());
        Some(r)
    }

    /// Keeps the elements for which `f` answers true, in order.
    pub fn retain(&mut self, f: &impl Fn(&T) -> bool)
        where T: Copy,
        requires
            old(self).wf(),
            forall|x: T| #[trigger] call_requires(*f, (&x,)),
        ensures
            final(self).wf(),
            final(self).spec_cap() == old(self).spec_cap(),
            exists|keep: Seq<bool>|
                {
                    &&& keep.len() == old(self)@.len()
                    &&& forall|k: int|
                        0 <= k < keep.len() ==> call_ensures(*f, (&old(self)@[k],), #[trigger] keep[k])
                    &&& final(self)@ == filter_by(old(self)@, keep)
                },
    {
        let ghost s0 = self@;
        let ghost mut keep: Seq<bool> = Seq::empty();
        let mut i: usize = 0;
        let mut j: usize = 0;
        let n = self.len;
        while j < n
            invariant
                self.wf(),
                self.spec_cap() == old(self).spec_cap(),
                s0 == old(self)@,
                n == s0.len(),
                self@.len() == n,
                i <= j <= n,
                keep.len() == j,
                forall|x: T| #[trigger] call_requires(*f, (&x,)),
                forall|k: int| 0 <= k < j ==> call_ensures(*f, (&s0[k],), #[trigger] keep[k]),
                filter_by(s0.subrange(0, j as int), keep) == self@.subrange(0, i as int),
                forall|k: int| j <= k < n ==> #[trigger] self@[k] == s0[k],
            decreases n - j,
        {
            let x = *self.index(j);
            let b = f(&x);
            proof {
                lemma_filter_by_push(s0.subrange(0, j as int), keep, x, b);
                assert(s0.subrange(0, j as int).push(x) =~= s0.subrange(0, j + 1));
                keep = keep.push(b);
            }
            if b {
                let ghost before = self@;
                self.set(i, x);
                assert(self@.subrange(0, i + 1) =~= before.subrange(0, i as int).push(x));
                i = i + 1;
            }
            j = j + 1;
        }
        proof {
            lemma_filter_by_len(s0, keep);
            assert(s0.subrange(0, n as int) =~= s0);
        }
        self.len = i;
        assert(self@ =~= filter_by(s0, keep));
    }

    /// Moves elements from the front of `other` to the back of `self` until `other` is empty or
    /// `self` is full.
    pub fn shift_left(&mut self, other: &mut ChunkVecDeque<T>)
        where T: Copy,
        requires
            old(self).wf(),
            old(other).wf(),
        ensures
            final(self).wf(),
            final(other).wf(),
            final(self).spec_cap() == old(self).spec_cap(),
            final(other).spec_cap() == old(other).spec_cap(),
            ({
                let k = vstd::math::min(
                    old(other)@.len() as int,
                    old(self).spec_cap() - old(self)@.len(),
                );
                &&& final(self)@ == old(self)@ + old(other)@.subrange(0, k)
                &&& final(other)@ == old(other)@.subrange(k, old(other)@.len() as int)
            }),
    {
        let ghost a0 = self@;
        let ghost b0 = other@;
        let ghost mut moved: int = 0;
        loop
            invariant_except_break
                self.wf(),
                other.wf(),
                self.spec_cap() == old(self).spec_cap(),
                other.spec_cap() == old(other).spec_cap(),
                a0 == old(self)@,
                b0 == old(other)@,
                0 <= moved <= b0.len(),
                moved <= self.spec_cap() - a0.len(),
                self@ == a0 + b0.subrange(0, moved),
                other@ == b0.subrange(moved, b0.len() as int),
            ensures
                self.wf(),
                other.wf(),
                self.spec_cap() == old(self).spec_cap(),
                other.spec_cap() == old(other).spec_cap(),
                moved == vstd::math::min(b0.len() as int, self.spec_cap() - a0.len()),
                self@ == a0 + b0.subrange(0, moved),
                other@ == b0.subrange(moved, b0.len() as int),
            decreases other@.len(),
        {
            if other.len == 0 {
                break;
            }
            if self.len == self.c.len() {
                assert(self@.len() == a0.len() + moved);
                assert(moved == self.spec_cap() - a0.len());
                break;
            }
            let x = match other.pop_front() {
                Some(x) => x,
                None => {
                    break;
                },
            };
            let ok = self.offer(x);
            proof {
                assert(ok);
                assert(b0.subrange(0, moved + 1) =~= b0.subrange(0, moved).push(x));
                assert(other@ =~= b0.subrange(moved + 1, b0.len() as int));
                moved = moved + 1;
            }
        }
    }

    pub fn front(&self) -> (r: Option<&T>)
        requires
            self.wf(),
        ensures
            self@.len() == 0 ==> r is None,
            self@.len() > 0 ==> r == Some(&self@[0]),
    {
        if self.len == 0 {
            return None;
        }
        Some(self.index(0))
    }
}

/// Extends a filtering by one more element.
pub proof fn lemma_filter_by_push<T>(s: Seq<T>, keep: Seq<bool>, x: T, b: bool)
    requires
        s.len() == keep.len(),
    ensures
        filter_by(s.push(x), keep.push(b)) == (if b {
            filter_by(s, keep).push(x)
        } else {
            filter_by(s, keep)
        }),
{
    assert(s.push(x).drop_last() =~= s);
    assert(keep.push(b).subrange(0, keep.len() as int) =~= keep);
}

/// Filtering never lengthens a sequence.
pub proof fn lemma_filter_by_len<T>(s: Seq<T>, keep: Seq<bool>)
    ensures
        filter_by(s, keep).len() <= s.len(),
    decreases s.len(),
{
    if s.len() > 0 {
        lemma_filter_by_len(s.drop_last(), keep.subrange(0, keep.len() - 1));
    }
}

proof fn lemma_ring_pos_injective(off: int, a: int, b: int, cap: int)
    requires
        0 <= off < cap,
        0 <= a < cap,
        0 <= b < cap,
        a != b,
    ensures
        ring_pos(off, a, cap) != ring_pos(off, b, cap),
{
    assert(ring_pos(off, a, cap) != ring_pos(off, b, cap)) by (nonlinear_arith)
        requires
            0 <= off < cap,
            0 <= a < cap,
            0 <= b < cap,
            a != b,
    {
        assert(0 <= off + a < 2 * cap);
        assert(0 <= off + b < 2 * cap);
        if off + a < cap {
            assert((off + a) % cap == off + a);
        } else {
            assert((off + a) % cap == off + a - cap);
        }
        if off + b < cap {
            assert((off + b) % cap == off + b);
        } else {
            assert((off + b) % cap == off + b - cap);
        }
    }
}

proof fn lemma_ring_pos_step(off: int, k: int, cap: int)
    requires
        0 <= off < cap,
        0 <= k,
        k + 1 < cap,
    ensures
        ring_pos(if off + 1 == cap { 0 } else { off + 1 }, k, cap) == ring_pos(off, k + 1, cap),
{
    let off2 = if off + 1 == cap { 0 } else { off + 1 };
    assert((off2 + k) % cap == (off + k + 1) % cap) by (nonlinear_arith)
        requires
            0 <= off < cap,
            0 <= k,
            k + 1 < cap,
            off2 == if off + 1 == cap { 0 } else { off + 1 },
    {
        if off + 1 == cap {
            assert((off + k + 1) % cap == k);
            assert(k % cap == k);
        } else {
            if off + 1 + k < cap {
                assert((off + 1 + k) % cap == off + 1 + k);
            } else {
                assert((off + 1 + k) % cap == off + 1 + k - cap);
            }
        }
    }
}

} // verus!
