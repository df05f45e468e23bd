use vstd::prelude::*;

use crate::gol::graph::GolGraph;
use crate::gol::graph::GolKeyNode;
use crate::gol::printbag::PrintBag;
use crate::gol::printbag::touched;
use crate::scalar::Scalar;

verus! {

/// The characters printing `row` at column `x0`, line `y0`: generation `t` of cell `x` at
/// `(x0 + x, y0, t)`, `*` alive and `.` dead.
pub open spec fn row_chars(e: &GolGraph, row: u64, x0: int, y0: int) -> Map<(isize, isize, isize), char> {
    Map::new(
        |k: (isize, isize, isize)| x0 <= k.0 < x0 + e.mx && k.1 == y0 && 0 <= k.2 < e.mt,
        |k: (isize, isize, isize)|
            if row.spec_bit((k.2 * e.mx + (k.0 - x0)) as nat) {
                '*'
            } else {
                '.'
            },
    )
}

/// The dashes marking line `y0` from column `x0` on, across every generation.
pub open spec fn dash_chars(e: &GolGraph, x0: int, y0: int) -> Map<(isize, isize, isize), char> {
    Map::new(
        |k: (isize, isize, isize)| x0 <= k.0 < x0 + e.mx && k.1 == y0 && 0 <= k.2 < e.mt,
        |k: (isize, isize, isize)| '-',
    )
}

/// The interval `r` widened to hold `lo` and then `hi`.
pub open spec fn span(r: Option<(isize, isize)>, lo: int, hi: int) -> Option<(isize, isize)> {
    touched(touched(r, lo as isize), hi as isize)
}

proof fn lemma_span_grow(r: Option<(isize, isize)>, lo: int, v: int)
    requires
        lo <= v,
        isize::MIN < lo <= v <= isize::MAX,
    ensures
        touched(span(r, lo, v - 1), v as isize) == span(r, lo, v) || v == lo,
        v == lo ==> touched(touched(r, lo as isize), v as isize) == touched(r, lo as isize),
{
}

proof fn lemma_span_within(r: Option<(isize, isize)>, lo: int, hi: int, v: int)
    requires
        lo <= v <= hi,
        isize::MIN <= lo,
        hi <= isize::MAX,
    ensures
        touched(span(r, lo, hi), v as isize) == span(r, lo, hi),
{
}

/// Cells that a row at column `x0` of a graph places fit in `isize`.
pub open spec fn x0_ok(e: &GolGraph, x0: int) -> bool {
    -0x4000_0000 <= x0 <= 0x4000_0000 && e.mx <= 64
}

impl GolGraph {
    /// Places the characters of `row` at column `x0`, line `y0` (see `row_chars`); `dash`
    /// places dashes instead.
    fn collect(&self, pr: &mut PrintBag, row: u64, dash: bool, x0: isize, y0: isize)
        requires
            old(pr).wf(),
            self.dims_ok(),
            x0_ok(self, x0 as int),
        ensures
            final(pr).wf(),
            final(pr)@ == old(pr)@.union_prefer_right(
                if dash {
                    dash_chars(self, x0 as int, y0 as int)
                } else {
                    row_chars(self, row, x0 as int, y0 as int)
                },
            ),
            final(pr).xrange() == span(old(pr).xrange(), x0 as int, x0 + self.mx - 1),
            final(pr).yrange() == touched(old(pr).yrange(), y0),
            final(pr).trange() == span(old(pr).trange(), 0, self.mt - 1),
    {
        let ghost m0 = pr@;
        let ghost want = if dash {
            dash_chars(self, x0 as int, y0 as int)
        } else {
            row_chars(self, row, x0 as int, y0 as int)
        };
        let ghost xr0 = pr.xrange();
        let ghost yr0 = pr.yrange();
        let ghost tr0 = pr.trange();
        assert(self.mt <= 64) by (nonlinear_arith)
            requires
                self.mt * self.mx <= 64,
                self.mx >= 1,
        ;
        let mut t: usize = 0;
        while t < self.mt
            invariant
                self.dims_ok(),
                x0_ok(self, x0 as int),
                self.mt <= 64,
                t <= self.mt,
                pr.wf(),
                want == (if dash {
                    dash_chars(self, x0 as int, y0 as int)
                } else {
                    row_chars(self, row, x0 as int, y0 as int)
                }),
                pr@ == m0.union_prefer_right(want.restrict(Set::new(|k: (isize, isize, isize)| k.2 < t))),
                t > 0 ==> pr.xrange() == span(xr0, x0 as int, x0 + self.mx - 1),
                t == 0 ==> pr.xrange() == xr0,
                t > 0 ==> pr.yrange() == touched(yr0, y0),
                t == 0 ==> pr.yrange() == yr0,
                t > 0 ==> pr.trange() == span(tr0, 0, t - 1),
                t == 0 ==> pr.trange() == tr0,
            decreases self.mt - t,
        {
            let mut x: usize = 0;
            let ghost xr_t = pr.xrange();
            let ghost tr_t = pr.trange();
            let ghost yr_t = pr.yrange();
            while x < self.mx
                invariant
                    self.dims_ok(),
                    x0_ok(self, x0 as int),
                    self.mt <= 64,
                    t < self.mt,
                    x <= self.mx,
                    pr.wf(),
                    want == (if dash {
                        dash_chars(self, x0 as int, y0 as int)
                    } else {
                        row_chars(self, row, x0 as int, y0 as int)
                    }),
                    pr@ == m0.union_prefer_right(want.restrict(Set::new(|k: (isize, isize, isize)| k.2 < t || (k.2 == t && k.0 < x0 + x)))),
                    x > 0 ==> pr.xrange() == (if t > 0 { span(xr0, x0 as int, x0 + self.mx - 1) } else { span(xr0, x0 as int, x0 + x - 1) }),
                    x == 0 ==> pr.xrange() == xr_t,
                    xr_t == (if t > 0 { span(xr0, x0 as int, x0 + self.mx - 1) } else { xr0 }),
                    x > 0 ==> pr.yrange() == touched(yr0, y0),
                    x == 0 ==> pr.yrange() == yr_t,
                    yr_t == (if t > 0 { touched(yr0, y0) } else { yr0 }),
                    x > 0 ==> pr.trange() == (if t > 0 { span(tr0, 0, t as int) } else { touched(tr0, 0) }),
                    x == 0 ==> pr.trange() == tr_t,
                    tr_t == (if t > 0 { span(tr0, 0, t - 1) } else { tr0 }),
                decreases self.mx - x,
            {
                assert(t * self.mx + x < self.mt * self.mx) by (nonlinear_arith)
                    requires
                        t < self.mt,
                        x < self.mx,
                ;
                let idx = t * self.mx + x;
                let c = if dash {
                    '-'
                } else if <u64 as Scalar>::get_bit(&row, idx) {
                    '*'
                } else {
                    '.'
                };
                let k = (x0 + (x as isize), y0, t as isize);
                assert(want.contains_key(k) && want[k] == c);
                let ghost before = pr@;
                pr.insert(x0 + (x as isize), y0, t as isize, c);
                assert(pr@ =~= m0.union_prefer_right(want.restrict(Set::new(|q: (isize, isize, isize)| q.2 < t || (q.2 == t && q.0 < x0 + x + 1)))));
                proof {
                    if x > 0 {
                        if t > 0 {
                            lemma_span_within(xr0, x0 as int, x0 + self.mx - 1, x0 + x);
                        } else {
                            lemma_span_grow(xr0, x0 as int, x0 + x);
                        }
                    }
                    if t > 0 {
                        if x > 0 {
                            lemma_span_within(tr0, 0, t as int, t as int);
                        } else {
                            lemma_span_grow(tr0, 0, t as int);
                        }
                    }
                }
                x = x + 1;
            }
            assert(want.restrict(Set::new(|k: (isize, isize, isize)| k.2 < t || (k.2 == t && k.0 < x0 + self.mx))) =~= want.restrict(Set::new(|k: (isize, isize, isize)| k.2 < t + 1)));
            t = t + 1;
        }
        assert(want.restrict(Set::new(|k: (isize, isize, isize)| k.2 < self.mt)) =~= want);
    }
}

/// `r` is what `PrintBag::format` gives for `pb`.
pub open spec fn prints(pb: PrintBag, r: Seq<String>) -> bool {
    &&& pb.yrange() is None ==> r.len() == 0
    &&& pb.yrange() matches Some((lo, hi)) ==> {
        &&& r.len() == hi - lo + 1
        &&& forall|i: int| 0 <= i < r.len() ==> #[trigger] r[i]@ == pb.line(lo + i)
    }
}

/// `m` with the first rows `r0` of `rows[..n]` placed, row `i` on line `y0 + i`.
pub open spec fn put_rows(
    m: Map<(isize, isize, isize), char>,
    e: &GolGraph,
    rows: Seq<GolKeyNode>,
    n: int,
    y0: int,
) -> Map<(isize, isize, isize), char>
    decreases n,
{
    if n <= 0 {
        m
    } else {
        put_rows(m, e, rows, n - 1, y0).union_prefer_right(row_chars(e, rows[n - 1].r0, rows[n - 1].dx as int, y0 + n - 1))
    }
}

/// The interval `r` widened to the columns the rows `rows[..n]` span.
pub open spec fn span_rows(r: Option<(isize, isize)>, e: &GolGraph, rows: Seq<GolKeyNode>, n: int) -> Option<(isize, isize)>
    decreases n,
{
    if n <= 0 {
        r
    } else {
        span(span_rows(r, e, rows, n - 1), rows[n - 1].dx as int, rows[n - 1].dx + e.mx - 1)
    }
}

/// The rows of a search path, one line each, the last key node's second row below them.
pub open spec fn rows_map(e: &GolGraph, rows: Seq<GolKeyNode>) -> Map<(isize, isize, isize), char> {
    if rows.len() == 0 {
        Map::empty()
    } else {
        put_rows(Map::empty(), e, rows, rows.len() as int, 0).union_prefer_right(
            row_chars(e, rows.last().r1, rows.last().dx as int, rows.len() as int),
        )
    }
}

/// Key nodes whose columns and count can be printed.
pub open spec fn rows_ok(e: &GolGraph, rows: Seq<GolKeyNode>) -> bool {
    &&& rows.len() < 0x1000_0000
    &&& forall|i: int| 0 <= i < rows.len() ==> x0_ok(e, (#[trigger] rows[i]).dx as int)
}

impl GolGraph {
    /// Prints the rows of a search path: each key node's first row on a line of its own, and the
    /// last one's second row below them; generations side by side.
    pub fn format_rows(&self, rows: &Vec<GolKeyNode>) -> (r: Vec<String>)
        requires
            self.dims_ok(),
            rows_ok(self, rows@),
        ensures
            exists|pb: PrintBag|
                #![trigger prints(pb, r@)]
                prints(pb, r@) && pb.wf() && pb@ == rows_map(self, rows@) && pb.xrange() == span_rows(None, self, rows@, rows@.len() as int) && pb.yrange() == (if rows@.len() == 0 {
                    None
                } else {
                    Some((0isize, rows@.len() as isize))
                }) && pb.trange() == (if rows@.len() == 0 {
                    None
                } else {
                    Some((0isize, (self.mt - 1) as isize))
                }),
    {
        let mut pr = PrintBag::new();
        let mut y: isize = 0;
        let mut n: usize = 0;
        assert(self.mt <= 64) by (nonlinear_arith)
            requires
                self.mt * self.mx <= 64,
                self.mx >= 1,
        ;
        while n < rows.len()
            invariant
                self.mt <= 64,
                self.dims_ok(),
                rows_ok(self, rows@),
                n <= rows@.len(),
                y == n,
                pr.wf(),
                n < rows@.len() ==> pr@ == put_rows(Map::empty(), self, rows@, n as int, 0),
                n == rows@.len() ==> pr@ == rows_map(self, rows@),
                pr.xrange() == span_rows(None, self, rows@, n as int),
                n == 0 ==> pr.yrange() is None && pr.trange() is None,
                0 < n < rows@.len() ==> pr.yrange() == Some((0isize, (n - 1) as isize)),
                n == rows@.len() && n > 0 ==> pr.yrange() == Some((0isize, n as isize)),
                n > 0 ==> pr.trange() == Some((0isize, (self.mt - 1) as isize)),
            decreases rows@.len() - n,
        {
            let row = rows[n];
            assert(x0_ok(self, rows@[n as int].dx as int));
            self.collect(&mut pr, row.r0, false, row.dx, y);
            if n == rows.len() - 1 {
                self.collect(&mut pr, row.r1, false, row.dx, y + 1);
                assert(rows@.last() == row);
            }
            n = n + 1;
            y = y + 1;
        }
        let r = pr.format();
        assert(prints(pr, r@));
        r
    }
}

/// The lines of a cycle found: the path into it, a line of dashes, the rows of the cycle, and a
/// closing line of dashes under the key node `last` that closes it.
pub open spec fn cycle_map(e: &GolGraph, path: Seq<GolKeyNode>, cycle: Seq<GolKeyNode>, last: GolKeyNode) -> Map<
    (isize, isize, isize),
    char,
> {
    let p = path.len() as int;
    let a = put_rows(Map::empty(), e, path, p, 0);
    let b = if cycle.len() == 0 {
        a
    } else {
        put_rows(a.union_prefer_right(dash_chars(e, cycle[0].dx as int, p)), e, cycle, cycle.len() as int, p + 1)
    };
    b.union_prefer_right(dash_chars(e, last.dx as int, cycle_end_line(path, cycle)))
}

/// The line of the closing dashes.
pub open spec fn cycle_end_line(path: Seq<GolKeyNode>, cycle: Seq<GolKeyNode>) -> int {
    path.len() as int + if cycle.len() == 0 {
        0int
    } else {
        cycle.len() + 1int
    }
}

/// The columns a printed cycle spans.
pub open spec fn cycle_xrange(e: &GolGraph, path: Seq<GolKeyNode>, cycle: Seq<GolKeyNode>, last: GolKeyNode) -> Option<
    (isize, isize),
> {
    let a = span_rows(None, e, path, path.len() as int);
    let b = if cycle.len() == 0 {
        a
    } else {
        span_rows(span(a, cycle[0].dx as int, cycle[0].dx + e.mx - 1), e, cycle, cycle.len() as int)
    };
    span(b, last.dx as int, last.dx + e.mx - 1)
}

impl GolGraph {
    /// Prints a cycle found: the first row of each key node of the path into it, a line of
    /// dashes, the first row of each key node of the cycle, and a closing line of dashes.
    pub fn format_cycle_rows(&self, path: &Vec<GolKeyNode>, cycle: &Vec<GolKeyNode>, last: &GolKeyNode) -> (r: Vec<String>)
        requires
            self.dims_ok(),
            rows_ok(self, path@),
            rows_ok(self, cycle@),
            x0_ok(self, last.dx as int),
        ensures
            exists|pb: PrintBag|
                #![trigger prints(pb, r@)]
                prints(pb, r@) && pb.wf() && pb@ == cycle_map(self, path@, cycle@, *last) && pb.xrange()
                    == cycle_xrange(self, path@, cycle@, *last) && pb.yrange() == Some(
                    (0isize, cycle_end_line(path@, cycle@) as isize),
                ) && pb.trange() == Some((0isize, (self.mt - 1) as isize)),
    {
        assert(self.mt <= 64) by (nonlinear_arith)
            requires
                self.mt * self.mx <= 64,
                self.mx >= 1,
        ;
        let mut pr = PrintBag::new();
        let mut y: isize = 0;
        let mut n: usize = 0;
        while n < path.len()
            invariant
                self.mt <= 64,
                self.dims_ok(),
                rows_ok(self, path@),
                n <= path@.len(),
                y == n,
                pr.wf(),
                pr@ == put_rows(Map::empty(), self, path@, n as int, 0),
                pr.xrange() == span_rows(None, self, path@, n as int),
                n == 0 ==> pr.yrange() is None && pr.trange() is None,
                n > 0 ==> pr.yrange() == Some((0isize, (n - 1) as isize)),
                n > 0 ==> pr.trange() == Some((0isize, (self.mt - 1) as isize)),
            decreases path@.len() - n,
        {
            let row = path[n];
            assert(x0_ok(self, path@[n as int].dx as int));
            self.collect(&mut pr, row.r0, false, row.dx, y);
            n = n + 1;
            y = y + 1;
        }
        let ghost pa = pr@;
        let ghost xa = pr.xrange();
        let ghost ya = pr.yrange();
        let ghost ta = pr.trange();
        let mut k: usize = 0;
        while k < cycle.len()
            invariant
                self.mt <= 64,
                self.dims_ok(),
                rows_ok(self, cycle@),
                k <= cycle@.len(),
                y == path@.len() + (if k == 0 { 0 } else { k + 1 }),
                path@.len() < 0x1000_0000,
                pr.wf(),
                k == 0 ==> pr@ == pa && pr.xrange() == xa && pr.yrange() == ya && pr.trange() == ta,
                k > 0 ==> pr@ == put_rows(pa.union_prefer_right(dash_chars(self, cycle@[0].dx as int, path@.len() as int)), self, cycle@, k as int, path@.len() + 1int),
                k > 0 ==> pr.xrange() == span_rows(span(xa, cycle@[0].dx as int, cycle@[0].dx + self.mx - 1), self, cycle@, k as int),
                k > 0 ==> pr.yrange() == Some((0isize, (y - 1) as isize)),
                k > 0 ==> pr.trange() == Some((0isize, (self.mt - 1) as isize)),
                ya == (if path@.len() == 0 { None } else { Some((0isize, (path@.len() - 1) as isize)) }),
                ta == (if path@.len() == 0 { None } else { Some((0isize, (self.mt - 1) as isize)) }),
            decreases cycle@.len() - k,
        {
            let row = cycle[k];
            assert(x0_ok(self, cycle@[k as int].dx as int));
            if k == 0 {
                self.collect(&mut pr, 0, true, row.dx, y);
                y = y + 1;
                let ghost base = pa.union_prefer_right(dash_chars(self, cycle@[0].dx as int, path@.len() as int));
                assert(pr@ == put_rows(base, self, cycle@, 0, path@.len() + 1int));
                assert(pr.xrange() == span_rows(span(xa, cycle@[0].dx as int, cycle@[0].dx + self.mx - 1), self, cycle@, 0));
            }
            self.collect(&mut pr, row.r0, false, row.dx, y);
            k = k + 1;
            y = y + 1;
        }
        self.collect(&mut pr, 0, true, last.dx, y);
        let r = pr.format();
        assert(prints(pr, r@));
        r
    }
}

} // verus!
