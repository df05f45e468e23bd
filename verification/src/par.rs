use vstd::prelude::*;

verus! {

/// The numbers of a half-open range, in order.
pub struct RangeItemIter<T>(T, T);

impl RangeItemIter<usize> {
    /// The numbers still to come: `self@.0 .. self@.1`.
    pub closed spec fn view(&self) -> (usize, usize) {
        (self.0, self.1)
    }

    pub closed spec fn wf(&self) -> bool {
        self.0 <= self.1
    }

    /// The range `start..end`.
    pub fn new(start: usize, end: usize) -> (r: RangeItemIter<usize>)
        requires
            start <= end,
        ensures
            r@ == (start, end),
            r.wf(),
    {
        RangeItemIter(start, end)
    }

    /// The next number, if any is left.
    pub fn next(&mut self) -> (r: Option<usize>)
        requires
            old(self).wf(),
        ensures
            final(self).wf(),
            old(self)@.0 == old(self)@.1 ==> r is None && final(self)@ == old(self)@,
            old(self)@.0 < old(self)@.1 ==> r == Some(old(self)@.0) && final(self)@ == (
                (old(self)@.0 + 1) as usize,
                old(self)@.1,
            ),
    {
        if self.0 == self.1 {
            return None;
        }
        let r = self.0;
        self.0 = self.0 + 1;
        Some(r)
    }
}

/// A range cut into consecutive chunks whose lengths differ by at most one, the longer ones
/// first.
pub struct RangeChunkIter<T> {
    start: T,
    end: T,
    len: T,
    extra: T,
}

impl RangeChunkIter<usize> {
    /// `(start, end, len, extra)`: the chunks still to come cover `start..end`; the next `extra`
    /// of them have `len + 1` numbers, the rest `len`.
    pub closed spec fn view(&self) -> (usize, usize, usize, usize) {
        (self.start, self.end, self.len, self.extra)
    }

    /// What is left splits into whole chunks.
    pub closed spec fn wf(&self) -> bool {
        exists|c: nat|
            #![trigger c * self.len]
            self.extra <= c && self.end - self.start == c * self.len + self.extra
    }

    /// The next chunk, if any is left.
    pub fn next(&mut self) -> (r: Option<RangeItemIter<usize>>)
        requires
            old(self).wf(),
        ensures
            final(self).wf(),
            old(self)@.0 == old(self)@.1 ==> r is None && final(self)@ == old(self)@,
            old(self)@.0 != old(self)@.1 ==> {
                let (start, end, len, extra) = old(self)@;
                let n: int = if extra > 0 {
                    len + 1
                } else {
                    len as int
                };
                &&& r matches Some(it) && it@ == (start, (start + n) as usize) && it.wf()
                &&& final(self)@ == ((start + n) as usize, end, len, (if extra > 0 {
                    extra - 1
                } else {
                    extra as int
                }) as usize)
            },
    {
        if self.start == self.end {
            return None;
        }
        let ghost c = choose|c: nat|
            #![trigger c * self.len]
            self.extra <= c && self.end - self.start == c * self.len + self.extra;
        let start = self.start;
        let mut len = self.len;
        proof {
            if c == 0 {
                assert(c * self.len == 0) by (nonlinear_arith)
                    requires
                        c == 0,
                ;
            } else {
                assert(c * self.len == (c - 1) * self.len + self.len) by (nonlinear_arith);
                assert((c - 1) * self.len >= 0) by (nonlinear_arith)
                    requires
                        c >= 1,
                ;
            }
        }
        if self.extra > 0 {
            len = len + 1;
            self.extra = self.extra - 1;
        }
        let end = start + len;
        self.start = end;
        proof {
            let c2: nat = (c - 1) as nat;
            assert(c2 * self.len == c2 * self.len);
            assert(self.extra <= c2 && self.end - self.start == c2 * self.len + self.extra);
        }
        Some(RangeItemIter(start, end))
    }
}

/// A range owned for splitting into chunks.
pub struct RangeOwn<T>(T, T);

impl RangeOwn<usize> {
    pub closed spec fn view(&self) -> (usize, usize) {
        (self.0, self.1)
    }

    pub closed spec fn wf(&self) -> bool {
        self.0 <= self.1
    }

    /// Cuts the range into `ct` chunks (fewer when it holds fewer than `ct` numbers) whose
    /// lengths differ by at most one.
    pub fn par_split(self, ct: usize) -> (r: RangeChunkIter<usize>)
        requires
            self.wf(),
            ct > 0,
        ensures
            r.wf(),
            r@ == (
                self@.0,
                self@.1,
                ((self@.1 - self@.0) / ct as int) as usize,
                ((self@.1 - self@.0) % ct as int) as usize,
            ),
    {
        let n = self.1 - self.0;
        let len = n / ct;
        proof {
            vstd::arithmetic::div_mod::lemma_fundamental_div_mod(n as int, ct as int);
            assert(len * ct <= n) by (nonlinear_arith)
                requires
                    len == n / ct,
                    ct > 0,
            ;
        }
        let extra = n - len * ct;
        let r = RangeChunkIter { start: self.0, end: self.1, len: len, extra: extra };
        proof {
            let c: nat = ct as nat;
            assert(c * len == len * ct) by (nonlinear_arith)
                requires
                    c == ct,
            ;
            assert(extra == n % ct);
            assert(r.extra <= c && r.end - r.start == c * r.len + r.extra);
        }
        r
    }

    /// A chunk is iterated as it is.
    pub fn iter_chunk(c: RangeItemIter<usize>) -> (r: RangeItemIter<usize>)
        ensures
            r == c,
    {
        c
    }
}

/// Ranges that can be split for parallel work.
pub trait RangePar {
    type Item;

    fn par(self) -> RangeOwn<Self::Item>;
}

impl RangePar for std::ops::Range<usize> {
    type Item = usize;

    /// The range, empty when it starts after it ends.
    fn par(self) -> (r: RangeOwn<usize>)
        ensures
            r.wf(),
            r@ == (if self.start > self.end {
                self.end
            } else {
                self.start
            }, self.end),
    {
        let mut start = self.start;
        if start > self.end {
            start = self.end;
        }
        RangeOwn(start, self.end)
    }
}

} // verus!
