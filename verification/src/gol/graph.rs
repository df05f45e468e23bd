use vstd::prelude::*;

use crate::bfs::bfs2::DedupeKey;
use crate::dfs::graph::DfsGraph;
use crate::dfs::graph::DfsKeyNode;
use crate::dfs::graph::DfsNode;
use crate::scalar::Scalar;
use crate::scalar::count_true;

verus! {

/// Index of cell `(x, t)` in a row of `mt` generations of `mx` cells each.
pub open spec fn cell_idx(mx: int, x: int, t: int) -> int {
    t * mx + x
}

pub proof fn lemma_cell_idx_bounds(mx: int, mt: int, x: int, t: int)
    requires
        0 <= x < mx,
        0 <= t < mt,
    ensures
        0 <= cell_idx(mx, x, t) < mt * mx,
        cell_idx(mx, x, t) / mx == t,
        cell_idx(mx, x, t) % mx == x,
{
    assert(0 <= t * mx + x < mt * mx) by (nonlinear_arith)
        requires
            0 <= x < mx,
            0 <= t < mt,
    ;
    vstd::arithmetic::div_mod::lemma_fundamental_div_mod_converse(t * mx + x, mx, t, x);
}

pub proof fn lemma_cell_idx_injective(mx: int, x1: int, t1: int, x2: int, t2: int)
    requires
        0 <= x1 < mx,
        0 <= x2 < mx,
        0 <= t1,
        0 <= t2,
        (x1, t1) != (x2, t2),
    ensures
        cell_idx(mx, x1, t1) != cell_idx(mx, x2, t2),
{
    lemma_cell_idx_bounds(mx, t1 + 1, x1, t1);
    lemma_cell_idx_bounds(mx, t2 + 1, x2, t2);
}

/// Conway's rule: whether a cell is alive in the next generation, given whether it is alive
/// now and how many of its eight neighbours are.
pub open spec fn life_rule(alive: bool, n: int) -> bool {
    if alive {
        n == 2 || n == 3
    } else {
        n == 3
    }
}

/// Whether some way of filling in the `8 - known` unknown neighbours of a cell, `living` of whose
/// `known` neighbours are alive, makes the rule send `c` to `f`.
pub open spec fn completable(living: int, known: int, c: bool, f: bool) -> bool {
    exists|n: int| living <= n <= living + (8 - known) && life_rule(c, n) == f
}

/// The closed form of the neighbourhood check.
pub open spec fn compat_formula(living: int, known: int, c: bool, f: bool) -> bool {
    let dead = known - living;
    if c {
        if f {
            living <= 3 && dead <= 6
        } else {
            living <= 1 || dead <= 4
        }
    } else {
        if f {
            living <= 3 && dead <= 5
        } else {
            living <= 2 || dead <= 4
        }
    }
}

/// Whether a cell alive (`c`) now can be alive (`f`) next generation, when `living` of the `known`
/// neighbours are alive and the rest are unknown.
pub fn check_compat2(living: u32, known: u32, c: bool, f: bool) -> (r: bool)
    requires
        living <= known,
    ensures
        r == compat_formula(living as int, known as int, c, f),
        known <= 8 ==> r == completable(living as int, known as int, c, f),
{
    let dead = known - living;
    proof {
        if known <= 8 {
            lemma_compat_formula_exact(living as int, known as int, c, f);
        }
    }
    match c {
        true => match f {
            true => (living <= 3 && dead <= 6),
            false => (living <= 1 || dead <= 4),
        },
        false => match f {
            true => (living <= 3 && dead <= 5),
            false => (living <= 2 || dead <= 4),
        },
    }
}

/// The check is exact: it accepts precisely when some completion of the unknown neighbours
/// agrees with Conway's rule.
pub proof fn lemma_compat_formula_exact(living: int, known: int, c: bool, f: bool)
    requires
        0 <= living <= known <= 8,
    ensures
        compat_formula(living, known, c, f) == completable(living, known, c, f),
{
    let hi = living + (8 - known);
    if compat_formula(living, known, c, f) {
        let n = if c {
            if f {
                if living <= 2 {
                    2
                } else {
                    3
                }
            } else {
                if living <= 1 {
                    living
                } else {
                    hi
                }
            }
        } else {
            if f {
                3
            } else {
                if living <= 2 {
                    living
                } else {
                    hi
                }
            }
        };
        assert(living <= n <= hi && life_rule(c, n) == f);
    } else {
        assert forall|n: int| living <= n <= hi implies life_rule(c, n) != f by {
        }
    }
}

/// How the search space continues past one side of the row.
#[derive(Clone, Copy, PartialEq, Eq, Structural, Debug)]
pub enum GolSym {
    /// Dead cells.
    Empty,
    /// Mirrored about the edge cell.
    Odd,
    /// Mirrored about the edge.
    Even,
    /// A dead column, then mirrored.
    Gutter,
    /// The other side of the row.
    Wrap,
}

/// Whether rows are shifted sideways to keep the pattern centred, and which way a tie goes.
#[derive(Clone, Copy, PartialEq, Eq, Structural, Debug)]
pub enum GolRecenter {
    /// Rows are never shifted.
    Fixed,
    BiasLeft,
    BiasRight,
}

/// Where reading a cell leads: off the search space, not yet decided, or to a bit of the row.
#[derive(Clone, Copy, PartialEq, Eq, Structural, Debug)]
pub enum PartialRowRead {
    Off,
    Unknown,
    Read(usize),
}

/// How far `x` lies outside `0..mx`.
pub open spec fn dist_out(mx: int, x: int) -> nat {
    if x < 0 {
        (-x) as nat
    } else if x >= mx {
        (x - mx + 1) as nat
    } else {
        0
    }
}

/// The edge treatments for which folding a column back into the row always ends.
pub open spec fn syms_ok(mx: int, left: GolSym, right: GolSym) -> bool {
    mx >= 1 && (mx >= 2 || (left != GolSym::Odd && right != GolSym::Odd))
}

/// The column of the row that column `x` stands for, or `None` when it is off the search space.
pub open spec fn fold_col(left: GolSym, right: GolSym, mx: int, x: int) -> Option<int>
    decreases dist_out(mx, x),
    when syms_ok(mx, left, right)
{
    if x < 0 {
        match left {
            GolSym::Empty => None,
            GolSym::Odd => fold_col(left, right, mx, -x),
            GolSym::Even => fold_col(left, right, mx, -x - 1),
            GolSym::Gutter => if x == -1 {
                None
            } else {
                fold_col(left, right, mx, -x - 2)
            },
            GolSym::Wrap => fold_col(left, right, mx, x + mx),
        }
    } else if x >= mx {
        match right {
            GolSym::Empty => None,
            GolSym::Odd => fold_col(left, right, mx, 2 * mx - 2 - x),
            GolSym::Even => fold_col(left, right, mx, 2 * mx - 1 - x),
            GolSym::Gutter => if x == mx {
                None
            } else {
                fold_col(left, right, mx, 2 * mx - x)
            },
            GolSym::Wrap => fold_col(left, right, mx, x - mx),
        }
    } else {
        Some(x)
    }
}

/// Folding lands inside the row.
pub proof fn lemma_fold_col_in_row(left: GolSym, right: GolSym, mx: int, x: int)
    requires
        syms_ok(mx, left, right),
    ensures
        fold_col(left, right, mx, x) matches Some(c) ==> 0 <= c < mx,
    decreases dist_out(mx, x),
{
    if x < 0 {
        match left {
            GolSym::Empty => {},
            GolSym::Odd => lemma_fold_col_in_row(left, right, mx, -x),
            GolSym::Even => lemma_fold_col_in_row(left, right, mx, -x - 1),
            GolSym::Gutter => if x != -1 {
                lemma_fold_col_in_row(left, right, mx, -x - 2)
            },
            GolSym::Wrap => lemma_fold_col_in_row(left, right, mx, x + mx),
        }
    } else if x >= mx {
        match right {
            GolSym::Empty => {},
            GolSym::Odd => lemma_fold_col_in_row(left, right, mx, 2 * mx - 2 - x),
            GolSym::Even => lemma_fold_col_in_row(left, right, mx, 2 * mx - 1 - x),
            GolSym::Gutter => if x != mx {
                lemma_fold_col_in_row(left, right, mx, 2 * mx - x)
            },
            GolSym::Wrap => lemma_fold_col_in_row(left, right, mx, x - mx),
        }
    }
}

/// Rust's `/` on integers: the quotient rounded towards zero.
pub open spec fn trunc_div(a: int, b: int) -> int {
    if a >= 0 {
        a / b
    } else {
        -((-a) / b)
    }
}

proof fn lemma_trunc_div_small(a: int, b: int)
    requires
        -0x40_0000 <= a <= 0x40_0000,
        b >= 1,
    ensures
        -0x40_0000 <= trunc_div(a, b) <= 0x40_0000,
{
    if a >= 0 {
        vstd::arithmetic::div_mod::lemma_div_is_ordered_by_denominator(a, 1, b);
    } else {
        vstd::arithmetic::div_mod::lemma_div_is_ordered_by_denominator(-a, 1, b);
    }
}

/// Bound on speeds and widths that keeps the arithmetic of a search well inside `isize`.
pub open spec fn small(v: int) -> bool {
    -0x1_0000 <= v <= 0x1_0000
}

/// The parameters of a search: `mt` generations of rows `mx` cells wide, patterns at most `wx`
/// wide, moving `(ox, oy)` cells every `mt` generations.
pub struct GolPreGraph {
    pub mt: usize,
    pub mx: usize,
    pub wx: usize,
    pub left_sym: GolSym,
    pub right_sym: GolSym,
    pub ox: isize,
    pub oy: isize,
    pub recenter: GolRecenter,
}

impl GolPreGraph {
    /// Parameters a search can be built from: the row of all generations fits a `u64`, the
    /// vertical speed is at most one row per generation, the edges fold, and the horizontal
    /// speed is at most `0x8000` cells, which keeps cell positions within `isize`.
    pub open spec fn wf(&self) -> bool {
        &&& 1 <= self.mt
        &&& 1 <= self.mx
        &&& self.mt * self.mx <= 64
        &&& syms_ok(self.mx as int, self.left_sym, self.right_sym)
        &&& -(self.mt as int) <= self.oy <= self.mt
        &&& -0x8000 <= self.ox <= 0x8000
    }

    /// How far a pattern moving `o` cells per `mt` generations moves between generation `t` and
    /// `t + 1`: the step between the rounded cumulative shifts.
    pub open spec fn spec_shift(&self, t: int, o: int) -> int {
        trunc_div(o * (t + 1), self.mt as int) - trunc_div(o * t, self.mt as int)
    }

    fn compute_shift(&self, t: usize, o: isize) -> (r: isize)
        requires
            1 <= self.mt <= 64,
            t < self.mt,
            small(o as int),
        ensures
            r == self.spec_shift(t as int, o as int),
    {
        let t = t as isize;
        let mt = self.mt as isize;
        proof {
            assert(-0x1_0000 * 64 <= o * (t + 1) <= 0x1_0000 * 64) by (nonlinear_arith)
                requires
                    small(o as int),
                    0 <= t < 64,
            ;
            assert(-0x1_0000 * 64 <= o * t <= 0x1_0000 * 64) by (nonlinear_arith)
                requires
                    small(o as int),
                    0 <= t < 64,
            ;
        }
        let before = (o * t) / mt;
        let after = (o * (t + 1)) / mt;
        proof {
            assert(before == trunc_div(o * t, mt as int));
            assert(after == trunc_div(o * (t + 1), mt as int));
            lemma_trunc_div_small(o * t, mt as int);
            lemma_trunc_div_small(o * (t + 1), mt as int);
        }
        after - before
    }

    /// Where reading cell `x` of generation `t` leads, when the first `len` bits of the row being
    /// built are decided.
    pub open spec fn spec_prow_read(&self, len: int, t: int, x: int) -> PartialRowRead {
        match fold_col(self.left_sym, self.right_sym, self.mx as int, x) {
            None => PartialRowRead::Off,
            Some(c) => if t * self.mx + c >= len {
                PartialRowRead::Unknown
            } else {
                PartialRowRead::Read((t * self.mx + c) as usize)
            },
        }
    }

    fn compute_prow_read(&self, len: usize, t: usize, x: isize) -> (r: PartialRowRead)
        requires
            syms_ok(self.mx as int, self.left_sym, self.right_sym),
            self.mx <= 64,
            t <= 64,
            small(x as int),
        ensures
            r == self.spec_prow_read(len as int, t as int, x as int),
    {
        let mx = self.mx as isize;
        let mut c = x;
        let ghost x0 = x as int;
        loop
            invariant
                syms_ok(self.mx as int, self.left_sym, self.right_sym),
                mx == self.mx,
                1 <= mx <= 64,
                t <= 64,
                -0x1_0000 - 0x100 <= c <= 0x1_0000 + 0x100,
                x0 == x as int,
                fold_col(self.left_sym, self.right_sym, mx as int, c as int) == fold_col(
                    self.left_sym,
                    self.right_sym,
                    mx as int,
                    x0,
                ),
            decreases dist_out(mx as int, c as int),
        {
            if c < 0 {
                c = match self.left_sym {
                    GolSym::Empty => {
                        return PartialRowRead::Off;
                    },
                    GolSym::Odd => -c,
                    GolSym::Even => -c - 1,
                    GolSym::Gutter => {
                        if c == -1 {
                            return PartialRowRead::Off;
                        }
                        -c - 2
                    },
                    GolSym::Wrap => c + mx,
                };
                continue ;
            }
            if c >= mx {
                c = match self.right_sym {
                    GolSym::Empty => {
                        return PartialRowRead::Off;
                    },
                    GolSym::Odd => 2 * mx - 2 - c,
                    GolSym::Even => 2 * mx - 1 - c,
                    GolSym::Gutter => {
                        if c == mx {
                            return PartialRowRead::Off;
                        }
                        2 * mx - c
                    },
                    GolSym::Wrap => c - mx,
                };
                continue ;
            }
            assert(t * self.mx + c <= 64 * 64 + 64) by (nonlinear_arith)
                requires
                    t <= 64,
                    self.mx <= 64,
                    0 <= c < 64,
            ;
            let idx = t * self.mx + (c as usize);
            if idx >= len {
                return PartialRowRead::Unknown;
            }
            return PartialRowRead::Read(idx);
        }
    }
}

/// A check on one cell: the neighbour masks (row, bits) with the number of neighbours that are
/// known, and where to read the cell now and next generation.
pub type GolCheck = (Vec<(usize, u64)>, u32, (usize, u64), (usize, u64));

/// Total number of bits in a list of masks.
pub open spec fn masks_bits(ms: Seq<(usize, u64)>) -> nat
    decreases ms.len(),
{
    if ms.len() == 0 {
        0
    } else {
        masks_bits(ms.drop_last()) + ms.last().1.spec_count_ones()
    }
}

/// A check whose masks read the three rows of a node and count no more neighbours than are
/// known.
pub open spec fn check_wf(c: GolCheck) -> bool {
    &&& c.0@.len() <= 8
    &&& forall|k: int| 0 <= k < c.0@.len() ==> (#[trigger] c.0@[k]).0 < 3
    &&& masks_bits(c.0@) <= c.1 <= 8
    &&& c.2.0 < 3
    &&& c.3.0 < 3
}

/// Row `i` of a node's three rows.
pub open spec fn pick_row(rows: (u64, u64, u64), i: usize) -> u64 {
    if i == 0 {
        rows.0
    } else if i == 1 {
        rows.1
    } else {
        rows.2
    }
}

/// Live neighbours the masks see in the rows.
pub open spec fn nh_count(rows: (u64, u64, u64), ms: Seq<(usize, u64)>) -> nat
    decreases ms.len(),
{
    if ms.len() == 0 {
        0
    } else {
        nh_count(rows, ms.drop_last()) + (pick_row(rows, ms.last().0) & ms.last().1).spec_count_ones()
    }
}

/// Whether the rows satisfy one check.
pub open spec fn check_passes(rows: (u64, u64, u64), c: GolCheck) -> bool {
    compat_formula(
        nh_count(rows, c.0@) as int,
        c.1 as int,
        pick_row(rows, c.2.0) & c.2.1 != 0,
        pick_row(rows, c.3.0) & c.3.1 != 0,
    )
}

/// A set bit of `a & m` is a set bit of `m`, so `a & m` has no more bits than `m`.
pub proof fn lemma_and_count_le(a: u64, m: u64)
    ensures
        (a & m).spec_count_ones() <= m.spec_count_ones(),
{
    assert forall|i: nat| (a & m).spec_bit(i) implies m.spec_bit(i) by {
        if i < 64 {
            let j = i as u64;
            assert(((a & m) >> j) & 1 == 1 ==> (m >> j) & 1 == 1) by (bit_vector);
        }
    }
    lemma_count_true_mono(|i: nat| (a & m).spec_bit(i), |i: nat| m.spec_bit(i), 64);
}

pub proof fn lemma_count_true_mono(f: spec_fn(nat) -> bool, g: spec_fn(nat) -> bool, n: nat)
    requires
        forall|i: nat| #[trigger] f(i) ==> g(i),
    ensures
        crate::scalar::count_true(f, n) <= crate::scalar::count_true(g, n),
    decreases n,
{
    if n > 0 {
        lemma_count_true_mono(f, g, (n - 1) as nat);
    }
}

pub proof fn lemma_count_true_le(f: spec_fn(nat) -> bool, n: nat)
    ensures
        crate::scalar::count_true(f, n) <= n,
    decreases n,
{
    if n > 0 {
        lemma_count_true_le(f, (n - 1) as nat);
    }
}

/// The masks never see more live neighbours than they have bits.
pub proof fn lemma_nh_count_le(rows: (u64, u64, u64), ms: Seq<(usize, u64)>)
    ensures
        nh_count(rows, ms) <= masks_bits(ms),
    decreases ms.len(),
{
    if ms.len() > 0 {
        lemma_nh_count_le(rows, ms.drop_last());
        lemma_and_count_le(pick_row(rows, ms.last().0), ms.last().1);
    }
}

/// A search space: the checks every cell of a new row must pass, indexed by cell.
pub struct GolGraph {
    pub mt: usize,
    pub mx: usize,
    pub wx: usize,
    pub left_sym: GolSym,
    pub right_sym: GolSym,
    pub checks: Vec<Vec<GolCheck>>,
    pub recenter: GolRecenter,
}

impl GolGraph {
    /// The cells of a row over all generations fit in 64 bits.
    pub open spec fn dims_ok(&self) -> bool {
        &&& 1 <= self.mt
        &&& 1 <= self.mx
        &&& self.mt * self.mx <= 64
    }

    pub open spec fn wf(&self) -> bool {
        &&& 1 <= self.mt
        &&& 1 <= self.mx
        &&& self.mt * self.mx <= 64
        &&& self.checks@.len() == self.mt * self.mx
        &&& forall|i: int, k: int|
            0 <= i < self.checks@.len() && 0 <= k < self.checks@[i]@.len() ==> check_wf(
                #[trigger] self.checks@[i]@[k],
            )
    }

    /// Whether column `x` of row `r` has a live cell in some generation.
    pub open spec fn col_has(&self, r: u64, x: int) -> bool {
        exists|t: int| 0 <= t < self.mt && #[trigger] r.spec_bit(cell_idx(self.mx as int, x, t) as nat)
    }

    /// The leftmost column from `x` on with a live cell, or `mx - 1` when there is none.
    pub open spec fn first_col(&self, r: u64, x: int) -> int
        decreases self.mx - x,
    {
        if x >= self.mx {
            self.mx - 1
        } else if x < 0 {
            self.first_col(r, 0)
        } else if self.col_has(r, x) {
            x
        } else {
            self.first_col(r, x + 1)
        }
    }

    /// The rightmost column up to `x` with a live cell, or 0 when there is none.
    pub open spec fn last_col(&self, r: u64, x: int) -> int
        decreases x + 1,
    {
        if x < 0 {
            0
        } else if self.col_has(r, x) {
            x
        } else {
            self.last_col(r, x - 1)
        }
    }

    fn to_idx(&self, x: usize, t: usize) -> (r: usize)
        requires
            self.mt * self.mx <= 64,
            x < self.mx,
            t < self.mt,
        ensures
            r == cell_idx(self.mx as int, x as int, t as int),
            r < self.mt * self.mx,
    {
        proof {
            lemma_cell_idx_bounds(self.mx as int, self.mt as int, x as int, t as int);
        }
        t * self.mx + x
    }
}

/// The leftmost column holding a live cell of `r`, or `mx - 1` when there is none.
pub fn find_min_x(e: &GolGraph, r: u64) -> (res: usize)
    requires
        e.dims_ok(),
    ensures
        res == e.first_col(r, 0),
        res < e.mx,
{
    let mut x: usize = 0;
    while x < e.mx
        invariant
            e.dims_ok(),
            x <= e.mx,
            e.first_col(r, x as int) == e.first_col(r, 0),
        decreases e.mx - x,
    {
        let mut t: usize = 0;
        while t < e.mt
            invariant
                e.dims_ok(),
                x < e.mx,
                t <= e.mt,
                e.first_col(r, x as int) == e.first_col(r, 0),
                forall|t2: int| 0 <= t2 < t ==> !#[trigger] r.spec_bit(cell_idx(e.mx as int, x as int, t2) as nat),
            decreases e.mt - t,
        {
            let i = e.to_idx(x, t);
            if r.get_bit(i) {
                assert(r.spec_bit(cell_idx(e.mx as int, x as int, t as int) as nat));
                assert(e.col_has(r, x as int));
                return x;
            }
            t = t + 1;
        }
        assert(!e.col_has(r, x as int));
        x = x + 1;
    }
    e.mx - 1
}

/// The rightmost column holding a live cell of `r`, or 0 when there is none.
pub fn find_max_x(e: &GolGraph, r: u64) -> (res: usize)
    requires
        e.dims_ok(),
    ensures
        res == e.last_col(r, e.mx - 1),
        res < e.mx,
{
    let mut x: usize = e.mx;
    while x > 0
        invariant
            e.dims_ok(),
            x <= e.mx,
            e.last_col(r, x - 1) == e.last_col(r, e.mx - 1),
        decreases x,
    {
        let c = x - 1;
        let mut t: usize = 0;
        while t < e.mt
            invariant
                e.dims_ok(),
                c < e.mx,
                t <= e.mt,
                x == c + 1,
                e.last_col(r, x - 1) == e.last_col(r, e.mx - 1),
                forall|t2: int| 0 <= t2 < t ==> !#[trigger] r.spec_bit(cell_idx(e.mx as int, c as int, t2) as nat),
            decreases e.mt - t,
        {
            let i = e.to_idx(c, t);
            if r.get_bit(i) {
                assert(r.spec_bit(cell_idx(e.mx as int, c as int, t as int) as nat));
                assert(e.col_has(r, c as int));
                return c;
            }
            t = t + 1;
        }
        assert(!e.col_has(r, c as int));
        x = c;
    }
    0
}

/// `res` is row `r` moved left by `shift` columns: cell `(x, t)` of `res` is cell
/// `(x + shift, t)` of `r`, dead where that falls outside the row; nothing past the grid is set.
pub open spec fn shifted_row(e: &GolGraph, r: u64, shift: int, res: u64) -> bool {
    &&& forall|x: int, t: int|
        0 <= x < e.mx && 0 <= t < e.mt ==> #[trigger] res.spec_bit(cell_idx(e.mx as int, x, t) as nat) == (
        0 <= x + shift < e.mx && r.spec_bit(cell_idx(e.mx as int, x + shift, t) as nat))
    &&& forall|i: nat| i >= e.mt * e.mx ==> !#[trigger] res.spec_bit(i)
}

/// Every live column of `r` lands inside the row when moved left by `shift`.
pub open spec fn shift_fits(e: &GolGraph, r: u64, shift: int) -> bool {
    forall|x: int| 0 <= x < e.mx && #[trigger] e.col_has(r, x) ==> 0 <= x - shift < e.mx
}

/// Row `r` moved left by `shift` columns.
pub fn shift_row(e: &GolGraph, r: u64, shift: isize) -> (res: u64)
    requires
        e.dims_ok(),
        -64 <= shift <= 64,
        shift_fits(e, r, shift as int),
    ensures
        shifted_row(e, r, shift as int, res),
{
    let mx = e.mx;
    let mut res: u64 = <u64 as Scalar>::zero();
    let mut x: usize = 0;
    while x < mx
        invariant
            e.dims_ok(),
            mx == e.mx,
            x <= mx,
            -64 <= shift <= 64,
            shift_fits(e, r, shift as int),
            forall|x2: int, t2: int|
                0 <= x2 < e.mx && 0 <= t2 < e.mt ==> #[trigger] res.spec_bit(cell_idx(e.mx as int, x2, t2) as nat)
                    == (0 <= x2 + shift < x && r.spec_bit(cell_idx(e.mx as int, x2 + shift, t2) as nat)),
            forall|i: nat| i >= e.mt * e.mx ==> !#[trigger] res.spec_bit(i),
        decreases mx - x,
    {
        let mut t: usize = 0;
        while t < e.mt
            invariant
                e.dims_ok(),
                mx == e.mx,
                x < mx,
                t <= e.mt,
                -64 <= shift <= 64,
                shift_fits(e, r, shift as int),
                forall|x2: int, t2: int|
                    0 <= x2 < e.mx && 0 <= t2 < e.mt ==> #[trigger] res.spec_bit(cell_idx(e.mx as int, x2, t2) as nat)
                        == ((0 <= x2 + shift < x || (x2 + shift == x && t2 < t)) && r.spec_bit(
                        cell_idx(e.mx as int, x2 + shift, t2) as nat,
                    )),
                forall|i: nat| i >= e.mt * e.mx ==> !#[trigger] res.spec_bit(i),
            decreases e.mt - t,
        {
            let i = e.to_idx(x, t);
            if r.get_bit(i) {
                proof {
                    assert(r.spec_bit(cell_idx(e.mx as int, x as int, t as int) as nat));
                    assert(e.col_has(r, x as int));
                }
                let ix = x as isize;
                let nx = (ix - shift) as usize;
                let j = e.to_idx(nx, t);
                let ghost before = res;
                res.set_bit(j, true);
                proof {
                    assert forall|x2: int, t2: int|
                        0 <= x2 < e.mx && 0 <= t2 < e.mt implies #[trigger] res.spec_bit(
                        cell_idx(e.mx as int, x2, t2) as nat,
                    ) == ((0 <= x2 + shift < x || (x2 + shift == x && t2 < t + 1)) && r.spec_bit(
                        cell_idx(e.mx as int, x2 + shift, t2) as nat,
                    )) by {
                        if (x2, t2) != (nx as int, t as int) {
                            lemma_cell_idx_injective(e.mx as int, x2, t2, nx as int, t as int);
                            lemma_cell_idx_bounds(e.mx as int, e.mt as int, x2, t2);
                        }
                    }
                    assert forall|k: nat| k >= e.mt * e.mx implies !#[trigger] res.spec_bit(k) by {
                        assert(k != j);
                    }
                }
            } else {
                proof {
                    assert forall|x2: int, t2: int|
                        0 <= x2 < e.mx && 0 <= t2 < e.mt implies #[trigger] res.spec_bit(
                        cell_idx(e.mx as int, x2, t2) as nat,
                    ) == ((0 <= x2 + shift < x || (x2 + shift == x && t2 < t + 1)) && r.spec_bit(
                        cell_idx(e.mx as int, x2 + shift, t2) as nat,
                    )) by {
                        if x2 + shift == x && t2 == t {
                            assert(cell_idx(e.mx as int, x2 + shift, t2) == i);
                        }
                    }
                }
            }
            t = t + 1;
        }
        x = x + 1;
    }
    res
}

/// Moves both rows of a pattern sideways so that its live cells are centred in the row,
/// breaking a tie as the graph asks; returns the shift and the moved rows.
pub fn recenter(e: &GolGraph, r0: u64, r1: u64) -> (res: (isize, u64, u64))
    requires
        e.dims_ok(),
    ensures
        ({
            let r = r0 | r1;
            if e.recenter == GolRecenter::Fixed || r == 0 {
                res == (0isize, r0, r1)
            } else {
                let bias: int = if e.recenter == GolRecenter::BiasLeft {
                    0
                } else {
                    1
                };
                &&& res.0 == (e.first_col(r, 0) + e.last_col(r, e.mx - 1) - (e.mx - 1) + bias) / 2
                &&& -64 <= res.0 <= 64
                &&& shifted_row(e, r0, res.0 as int, res.1)
                &&& shifted_row(e, r1, res.0 as int, res.2)
            }
        }),
{
    let bias: isize = match e.recenter {
        GolRecenter::Fixed => {
            return (0, r0, r1);
        },
        GolRecenter::BiasLeft => 0,
        GolRecenter::BiasRight => 1,
    };
    let r = r0 | r1;
    if r == 0 {
        return (0, r0, r1);
    }
    proof {
        lemma_graph_dims(e);
    }
    let min_x = find_min_x(e, r) as isize;
    let max_x = find_max_x(e, r) as isize;
    let shift = ((min_x + max_x) - (0 + (e.mx as isize) - 1) + bias).checked_div_euclid(2).unwrap();
    proof {
        lemma_first_col_nonneg(e, r, 0);
        lemma_last_col_nonneg(e, r, e.mx - 1);
        assert forall|x: int| 0 <= x < e.mx && #[trigger] e.col_has(r0, x) implies 0 <= x - shift < e.mx by {
            lemma_col_has_or(e, r0, r1, x);
            lemma_first_col_le(e, r, 0, x);
            lemma_last_col_ge(e, r, e.mx - 1, x);
        }
        assert forall|x: int| 0 <= x < e.mx && #[trigger] e.col_has(r1, x) implies 0 <= x - shift < e.mx by {
            lemma_col_has_or(e, r1, r0, x);
            assert(r1 | r0 == r0 | r1) by (bit_vector);
            lemma_first_col_le(e, r, 0, x);
            lemma_last_col_ge(e, r, e.mx - 1, x);
        }
    }
    let r0s = shift_row(e, r0, shift);
    let r1s = shift_row(e, r1, shift);
    (shift, r0s, r1s)
}

/// A well-formed graph is at most 64 cells wide and 64 generations long.
pub proof fn lemma_graph_dims(e: &GolGraph)
    requires
        e.dims_ok(),
    ensures
        e.mx <= 64,
        e.mt <= 64,
{
    assert(e.mx <= 64 && e.mt <= 64) by (nonlinear_arith)
        requires
            1 <= e.mt,
            1 <= e.mx,
            e.mt * e.mx <= 64,
    ;
}

proof fn lemma_col_has_or(e: &GolGraph, a: u64, b: u64, x: int)
    requires
        e.col_has(a, x),
    ensures
        e.col_has(a | b, x),
{
    let t = choose|t: int| 0 <= t < e.mt && #[trigger] a.spec_bit(cell_idx(e.mx as int, x, t) as nat);
    let i = cell_idx(e.mx as int, x, t) as nat;
    if i < 64 {
        let j = i as u64;
        assert((a >> j) & 1 == 1 ==> ((a | b) >> j) & 1 == 1) by (bit_vector);
    }
    assert((a | b).spec_bit(cell_idx(e.mx as int, x, t) as nat));
}

proof fn lemma_first_col_nonneg(e: &GolGraph, r: u64, x: int)
    requires
        e.dims_ok(),
        0 <= x,
    ensures
        0 <= e.first_col(r, x) < e.mx,
    decreases e.mx - x,
{
    if x < e.mx && !e.col_has(r, x) {
        lemma_first_col_nonneg(e, r, x + 1);
    }
}

proof fn lemma_last_col_nonneg(e: &GolGraph, r: u64, x: int)
    requires
        e.dims_ok(),
        x < e.mx,
    ensures
        0 <= e.last_col(r, x) < e.mx,
    decreases x + 1,
{
    if x >= 0 && !e.col_has(r, x) {
        lemma_last_col_nonneg(e, r, x - 1);
    }
}

proof fn lemma_first_col_le(e: &GolGraph, r: u64, x0: int, x: int)
    requires
        0 <= x0 <= x < e.mx,
        e.col_has(r, x),
    ensures
        e.first_col(r, x0) <= x,
    decreases x - x0,
{
    if x0 < x && !e.col_has(r, x0) {
        lemma_first_col_le(e, r, x0 + 1, x);
    }
}

proof fn lemma_last_col_ge(e: &GolGraph, r: u64, x0: int, x: int)
    requires
        0 <= x <= x0 < e.mx,
        e.col_has(r, x),
    ensures
        e.last_col(r, x0) >= x,
    decreases x0 - x,
{
    if x < x0 && !e.col_has(r, x0) {
        lemma_last_col_ge(e, r, x0 - 1, x);
    }
}

/// A search node: two finished rows `r0`, `r1` placed `dx` cells from the origin, and the row `r2`
/// being built, whose first `r2l` cells are decided; `r2_min_x`/`r2_max_x` bound the columns
/// holding its live cells (`mx - 1`/`0` while it has none) and `r2l_x` is the column of the next
/// cell.
#[derive(Clone, Copy, PartialEq, Eq, Structural, Debug)]
pub struct GolNode {
    pub dx: isize,
    pub r0: u64,
    pub r1: u64,
    pub r2: u64,
    pub r2_min_x: usize,
    pub r2_max_x: usize,
    pub r2l: usize,
    pub r2l_x: usize,
}

/// The part of a node that names a point of the search: the finished rows and their offset.
#[derive(Clone, Copy, PartialEq, Eq, Structural, Debug)]
pub struct GolKeyNode {
    pub dx: isize,
    pub r0: u64,
    pub r1: u64,
}

/// The part of a key node that repeats along a cycle: the rows, wherever they sit.
#[derive(Clone, Copy, PartialEq, Eq, Structural, Debug)]
pub struct GolHashNode {
    pub r0: u64,
    pub r1: u64,
}

impl DfsKeyNode for GolKeyNode {
    type HN = GolHashNode;

    open spec fn spec_hash_node(&self) -> Option<GolHashNode> {
        Some(GolHashNode { r0: self.r0, r1: self.r1 })
    }

    fn hash_node(&self) -> (r: Option<GolHashNode>) {
        Some(GolHashNode { r0: self.r0, r1: self.r1 })
    }

    fn same_hash_node(&self, other: &GolKeyNode) -> (r: bool) {
        self.r0 == other.r0 && self.r1 == other.r1
    }
}

impl DfsNode for GolNode {
    type KN = GolKeyNode;

    open spec fn spec_key_node(&self) -> Option<GolKeyNode> {
        if self.r2l != 0 {
            None
        } else {
            Some(GolKeyNode { dx: self.dx, r0: self.r0, r1: self.r1 })
        }
    }

    fn key_node(&self) -> (r: Option<GolKeyNode>) {
        if self.r2l != 0 {
            return None;
        }
        Some(GolKeyNode { dx: self.dx, r0: self.r0, r1: self.r1 })
    }
}

/// Offsets a search can carry without its arithmetic overflowing.
pub open spec fn dx_ok(dx: int) -> bool {
    isize::MIN + 64 <= dx <= isize::MAX - 64
}

impl GolGraph {
    /// A node of this graph the search can extend.
    pub open spec fn node_ok(&self, n: GolNode) -> bool {
        &&& n.r2l <= self.mt * self.mx
        &&& n.r2l_x == n.r2l % self.mx
        &&& n.r2_min_x < self.mx
        &&& n.r2_max_x < self.mx
        &&& dx_ok(n.dx as int)
    }

    /// The node obtained by deciding the next cell of `n` to be `v`.
    pub open spec fn next_cell(&self, n: GolNode, v: bool) -> GolNode {
        let x = n.r2l_x;
        GolNode {
            dx: n.dx,
            r0: n.r0,
            r1: n.r1,
            r2: if v {
                n.r2 | (1u64 << n.r2l as u64)
            } else {
                n.r2 & !(1u64 << n.r2l as u64)
            },
            r2_min_x: if v {
                vstd::math::min(n.r2_min_x as int, x as int) as usize
            } else {
                n.r2_min_x
            },
            r2_max_x: if v {
                vstd::math::max(n.r2_max_x as int, x as int) as usize
            } else {
                n.r2_max_x
            },
            r2l: (n.r2l + 1) as usize,
            r2l_x: if n.r2l_x == self.mx - 1 {
                0
            } else {
                (n.r2l_x + 1) as usize
            },
        }
    }

    /// Whether deciding the next cell of `n` to be `v` keeps the pattern narrow enough and
    /// passes every check of the cell.
    pub open spec fn cell_ok(&self, n: GolNode, v: bool) -> bool {
        let c = self.next_cell(n, v);
        &&& !v || c.r2_max_x < c.r2_min_x + self.wx
        &&& forall|k: int|
            0 <= k < self.checks@[n.r2l as int]@.len() ==> check_passes(
                (c.r0, c.r1, c.r2),
                #[trigger] self.checks@[n.r2l as int]@[k],
            )
    }

    /// The successors of `n`: when its new row is complete, the node that starts the next row
    /// with the rows recentred (none when the pattern is empty and would need to move);
    /// otherwise the ways of deciding the next cell that pass.
    pub open spec fn expansion(&self, n: GolNode, shift: int, c1: u64, c2: u64) -> Seq<GolNode> {
        if n.r2l == self.mt * self.mx {
            if n.r0 == 0 && n.r1 == 0 && shift != 0 {
                Seq::empty()
            } else {
                seq![
                    GolNode {
                        dx: (n.dx + shift) as isize,
                        r0: c1,
                        r1: c2,
                        r2: 0,
                        r2_min_x: (self.mx - 1) as usize,
                        r2_max_x: 0,
                        r2l: 0,
                        r2l_x: 0,
                    },
                ]
            }
        } else {
            (if self.cell_ok(n, false) {
                seq![self.next_cell(n, false)]
            } else {
                Seq::empty()
            }) + (if self.cell_ok(n, true) {
                seq![self.next_cell(n, true)]
            } else {
                Seq::empty()
            })
        }
    }

    /// The successors of `n` as the search sees them.
    pub open spec fn spec_successors(&self, n: GolNode) -> Seq<GolNode> {
        let r = n.r1 | n.r2;
        let bias: int = if self.recenter == GolRecenter::BiasLeft {
            0
        } else {
            1
        };
        let shift = if self.recenter == GolRecenter::Fixed || r == 0 {
            0
        } else {
            (self.first_col(r, 0) + self.last_col(r, self.mx - 1) - (self.mx - 1) + bias) / 2
        };
        let c1 = choose|c1: u64| shifted_row(self, n.r1, shift, c1);
        let c2 = choose|c2: u64| shifted_row(self, n.r2, shift, c2);
        if self.recenter == GolRecenter::Fixed || r == 0 {
            self.expansion(n, 0, n.r1, n.r2)
        } else {
            self.expansion(n, shift, c1, c2)
        }
    }
}

/// A shifted row is determined by the row and the shift.
pub proof fn lemma_shifted_row_unique(e: &GolGraph, r: u64, shift: int, a: u64, b: u64)
    requires
        e.wf(),
        shifted_row(e, r, shift, a),
        shifted_row(e, r, shift, b),
    ensures
        a == b,
{
    assert forall|i: nat| i < 64 implies a.spec_bit(i) == b.spec_bit(i) by {
        if i < e.mt * e.mx {
            let x = (i as int) % (e.mx as int);
            let t = (i as int) / (e.mx as int);
            vstd::arithmetic::div_mod::lemma_fundamental_div_mod(i as int, e.mx as int);
            vstd::arithmetic::div_mod::lemma_div_pos_is_pos(i as int, e.mx as int);
            assert(t < e.mt) by {
                if t >= e.mt {
                    vstd::arithmetic::mul::lemma_mul_inequality(e.mt as int, t, e.mx as int);
                    assert(e.mx * t == t * e.mx) by (nonlinear_arith);
                }
            }
            assert(cell_idx(e.mx as int, x, t) == i) by (nonlinear_arith)
                requires
                    i == e.mx * t + x,
            ;
            assert(a.spec_bit(cell_idx(e.mx as int, x, t) as nat) == b.spec_bit(cell_idx(e.mx as int, x, t) as nat));
        }
    }
    lemma_u64_bits_eq(a, b);
}

/// Two words that agree on bits `n..64` have no difference at or above bit `n`.
proof fn lemma_u64_high_bits_eq(a: u64, b: u64, n: u64)
    requires
        n <= 64,
        forall|i: nat| n <= i < 64 ==> #[trigger] a.spec_bit(i) == b.spec_bit(i),
    ensures
        (a ^ b) >> n == 0,
    decreases 64 - n,
{
    if n == 64 {
        assert((a ^ b) >> 64u64 == 0) by (bit_vector);
    } else {
        lemma_u64_high_bits_eq(a, b, (n + 1) as u64);
        assert(a.spec_bit(n as nat) == b.spec_bit(n as nat));
        let an = (a >> n) & 1;
        let bn = (b >> n) & 1;
        assert(an == 0 || an == 1) by (bit_vector)
            requires
                an == (a >> n) & 1,
        ;
        assert(bn == 0 || bn == 1) by (bit_vector)
            requires
                bn == (b >> n) & 1,
        ;
        assert(an == bn);
        assert((a ^ b) >> n == 0) by (bit_vector)
            requires
                n < 64,
                (a ^ b) >> ((n + 1) as u64) == 0,
                (a >> n) & 1 == (b >> n) & 1,
        ;
    }
}

/// Two words with the same bits are equal.
pub proof fn lemma_u64_bits_eq(a: u64, b: u64)
    requires
        forall|i: nat| i < 64 ==> #[trigger] a.spec_bit(i) == b.spec_bit(i),
    ensures
        a == b,
{
    lemma_u64_high_bits_eq(a, b, 0);
    assert(a == b) by (bit_vector)
        requires
            (a ^ b) >> 0u64 == 0,
    ;
}

/// Setting bit `k` of `x` to `v` gives the word `x | 1 << k` or `x & !(1 << k)`.
pub proof fn lemma_set_bit_word(x: u64, y: u64, k: nat, v: bool)
    requires
        k < 64,
        y.spec_bit(k) == v,
        forall|i: nat| i != k ==> #[trigger] y.spec_bit(i) == x.spec_bit(i),
    ensures
        y == (if v {
            x | (1u64 << k as u64)
        } else {
            x & !(1u64 << k as u64)
        }),
{
    let z = if v {
        x | (1u64 << k as u64)
    } else {
        x & !(1u64 << k as u64)
    };
    lemma_set_bit_bits(x, k, v);
    assert forall|i: nat| i < 64 implies #[trigger] y.spec_bit(i) == z.spec_bit(i) by {
        if i != k {
            assert(z.spec_bit(i) == x.spec_bit(i));
        }
    }
    lemma_u64_bits_eq(y, z);
}

/// The bits of `x | 1 << k` and `x & !(1 << k)`: bit `k` set or cleared, the others those of `x`.
pub proof fn lemma_set_bit_bits(x: u64, k: nat, v: bool)
    requires
        k < 64,
    ensures
        v ==> (x | (1u64 << k as u64)).spec_bit(k),
        v ==> forall|i: nat| i != k ==> #[trigger] (x | (1u64 << k as u64)).spec_bit(i) == x.spec_bit(i),
        !v ==> !(x & !(1u64 << k as u64)).spec_bit(k),
        !v ==> forall|i: nat| i != k ==> #[trigger] (x & !(1u64 << k as u64)).spec_bit(i) == x.spec_bit(i),
{
    let kk = k as u64;
    let z = if v {
        x | (1u64 << kk)
    } else {
        x & !(1u64 << kk)
    };
    assert(((z >> kk) & 1 == 1) == v) by (bit_vector)
        requires
            kk < 64,
            z == (if v { x | (1u64 << kk) } else { x & !(1u64 << kk) }),
    ;
    assert(forall|j: u64| j < 64 && j != kk ==> #[trigger] ((z >> j) & 1) == ((x >> j) & 1)) by (bit_vector)
        requires
            kk < 64,
            z == (if v { x | (1u64 << kk) } else { x & !(1u64 << kk) }),
    ;
    assert forall|i: nat| i != k implies #[trigger] z.spec_bit(i) == x.spec_bit(i) by {
        if i < 64 {
            let j = i as u64;
            assert(((z >> j) & 1) == ((x >> j) & 1));
        }
    }
}

/// Whether `rows` pass every check of cell `idx`.
fn passes_checks(e: &GolGraph, idx: usize, rows: (u64, u64, u64)) -> (r: bool)
    requires
        e.wf(),
        idx < e.checks@.len(),
    ensures
        r == forall|k: int|
            0 <= k < e.checks@[idx as int]@.len() ==> check_passes(rows, #[trigger] e.checks@[idx as int]@[k]),
{
    let cs = &e.checks[idx];
    let mut k: usize = 0;
    while k < cs.len()
        invariant
            e.wf(),
            idx < e.checks@.len(),
            cs == &e.checks@[idx as int],
            k <= cs@.len(),
            forall|m: int| 0 <= m < k ==> check_passes(rows, #[trigger] cs@[m]),
        decreases cs@.len() - k,
    {
        let c = &cs[k];
        assert(check_wf(*c));
        let ms = &c.0;
        let mut nh: u32 = 0;
        let mut m: usize = 0;
        while m < ms.len()
            invariant
                check_wf(*c),
                ms == &c.0,
                m <= ms@.len(),
                nh == nh_count(rows, ms@.subrange(0, m as int)),
                nh <= masks_bits(ms@.subrange(0, m as int)),
            decreases ms@.len() - m,
        {
            let (ri, mask) = ms[m];
            assert(ri < 3);
            let row = if ri == 0 {
                rows.0
            } else if ri == 1 {
                rows.1
            } else {
                rows.2
            };
            let rm: u64 = row & mask;
            let cnt = <u64 as Scalar>::count_ones(&rm);
            proof {
                let pre = ms@.subrange(0, m as int);
                let nxt = ms@.subrange(0, m + 1);
                assert(nxt.drop_last() =~= pre);
                assert(nxt.last() == ms@[m as int]);
                lemma_nh_count_le(rows, nxt);
                lemma_masks_bits_prefix(ms@, m + 1);
            }
            nh = nh + cnt;
            m = m + 1;
        }
        assert(ms@.subrange(0, ms@.len() as int) =~= ms@);
        let (cri, cmask) = c.2;
        let (fri, fmask) = c.3;
        let crow = if cri == 0 {
            rows.0
        } else if cri == 1 {
            rows.1
        } else {
            rows.2
        };
        let frow = if fri == 0 {
            rows.0
        } else if fri == 1 {
            rows.1
        } else {
            rows.2
        };
        let cur_cell = crow & cmask != 0;
        let fut_cell = frow & fmask != 0;
        if !check_compat2(nh, c.1, cur_cell, fut_cell) {
            return false;
        }
        k = k + 1;
    }
    true
}

proof fn lemma_masks_bits_prefix(ms: Seq<(usize, u64)>, j: int)
    requires
        0 <= j <= ms.len(),
    ensures
        masks_bits(ms.subrange(0, j)) <= masks_bits(ms),
    decreases ms.len() - j,
{
    if j < ms.len() {
        lemma_masks_bits_prefix(ms, j + 1);
        assert(ms.subrange(0, j + 1).drop_last() =~= ms.subrange(0, j));
    } else {
        assert(ms.subrange(0, j) =~= ms);
    }
}


impl GolGraph {
    /// The node `next_cell(n, v)`.
    fn step_cell(&self, n: &GolNode, v: bool) -> (r: GolNode)
        requires
            self.wf(),
            self.node_ok(*n),
            n.r2l < self.mt * self.mx,
        ensures
            r == self.next_cell(*n, v),
    {
        let x = n.r2l_x;
        let mut r2 = n.r2;
        <u64 as Scalar>::set_bit(&mut r2, n.r2l, v);
        proof {
            lemma_set_bit_word(n.r2, r2, n.r2l as nat, v);
        }
        let (r2_min_x, r2_max_x) = if v {
            (
                if n.r2_min_x < x {
                    n.r2_min_x
                } else {
                    x
                },
                if n.r2_max_x > x {
                    n.r2_max_x
                } else {
                    x
                },
            )
        } else {
            (n.r2_min_x, n.r2_max_x)
        };
        GolNode {
            dx: n.dx,
            r0: n.r0,
            r1: n.r1,
            r2,
            r2_min_x,
            r2_max_x,
            r2l: n.r2l + 1,
            r2l_x: if n.r2l_x == self.mx - 1 {
                0
            } else {
                n.r2l_x + 1
            },
        }
    }

    /// Whether `cell_ok(n, v)`; returns the decided node too.
    fn try_cell(&self, n: &GolNode, v: bool) -> (r: (bool, GolNode))
        requires
            self.wf(),
            self.node_ok(*n),
            n.r2l < self.mt * self.mx,
        ensures
            r.0 == self.cell_ok(*n, v),
            r.1 == self.next_cell(*n, v),
    {
        let c = self.step_cell(n, v);
        proof {
            lemma_graph_dims(self);
        }
        if v && c.r2_max_x >= c.r2_min_x && c.r2_max_x - c.r2_min_x >= self.wx {
            return (false, c);
        }
        (passes_checks(self, n.r2l, (c.r0, c.r1, c.r2)), c)
    }
}

/// Appends the successors of `n1` (see `GolGraph::spec_successors`) to `n2s`.
fn expand_srch(e: &GolGraph, n1: &GolNode, n2s: &mut Vec<GolNode>)
    requires
        e.wf(),
        e.node_ok(*n1),
    ensures
        final(n2s)@ == old(n2s)@ + e.spec_successors(*n1),
{
    let idx = n1.r2l;
    if idx == e.mt * e.mx {
        let (shift, r0, r1) = recenter(e, n1.r1, n1.r2);
        proof {
            let r = n1.r1 | n1.r2;
            if !(e.recenter == GolRecenter::Fixed || r == 0) {
                let s = shift as int;
                let c1 = choose|c1: u64| shifted_row(e, n1.r1, s, c1);
                let c2 = choose|c2: u64| shifted_row(e, n1.r2, s, c2);
                assert(shifted_row(e, n1.r1, s, r0));
                assert(shifted_row(e, n1.r2, s, r1));
                lemma_shifted_row_unique(e, n1.r1, s, c1, r0);
                lemma_shifted_row_unique(e, n1.r2, s, c2, r1);
            }
            assert(-64 <= shift <= 64);
        }
        if n1.r0 == 0 && n1.r1 == 0 && shift != 0 {
            assert(e.spec_successors(*n1) =~= Seq::<GolNode>::empty());
            assert(n2s@ =~= n2s@ + Seq::<GolNode>::empty());
            return;
        }
        n2s.push(
            GolNode {
                dx: n1.dx + shift,
                r0: r0,
                r1: r1,
                r2: 0,
                r2_min_x: e.mx - 1,
                r2_max_x: 0,
                r2l: 0,
                r2l_x: 0,
            },
        );
        return;
    }
    let (ok0, c0) = e.try_cell(n1, false);
    if ok0 {
        n2s.push(c0);
    }
    let (ok1, c1) = e.try_cell(n1, true);
    if ok1 {
        n2s.push(c1);
    }
    proof {
        let a = if e.cell_ok(*n1, false) {
            seq![e.next_cell(*n1, false)]
        } else {
            Seq::empty()
        };
        let b = if e.cell_ok(*n1, true) {
            seq![e.next_cell(*n1, true)]
        } else {
            Seq::empty()
        };
        assert(e.spec_successors(*n1) == a + b);
        assert(final(n2s)@ =~= old(n2s)@ + (a + b));
    }
}

impl GolGraph {
    /// What a node knows of the live cells of its new row: every decided live cell lies in a
    /// column from `r2_min_x` to `r2_max_x`, and once there is one, these are fewer than `wx`
    /// columns apart.
    pub open spec fn spans_ok(&self, n: GolNode) -> bool {
        &&& forall|k: nat|
            k < n.r2l && #[trigger] n.r2.spec_bit(k) ==> n.r2_min_x <= (k as int) % (self.mx as int)
                <= n.r2_max_x
        &&& (exists|k: nat| k < n.r2l && #[trigger] n.r2.spec_bit(k)) ==> n.r2_max_x < n.r2_min_x + self.wx
    }

    /// Expanding keeps the pattern within the width limit: from a node whose live cells are
    /// recorded truly and span fewer than `wx` columns, every successor is such a node too, so
    /// any two decided live cells of a successor's new row are fewer than `wx` columns apart.
    pub proof fn lemma_successors_narrow(&self, n: GolNode)
        requires
            self.wf(),
            self.node_ok(n),
            self.spans_ok(n),
        ensures
            forall|i: int|
                0 <= i < self.spec_successors(n).len() ==> self.spans_ok(#[trigger] self.spec_successors(n)[i]),
            forall|i: int, k1: nat, k2: nat|
                0 <= i < self.spec_successors(n).len() && k1 < self.spec_successors(n)[i].r2l && k2
                    < self.spec_successors(n)[i].r2l && #[trigger] self.spec_successors(n)[i].r2.spec_bit(k1)
                    && #[trigger] self.spec_successors(n)[i].r2.spec_bit(k2) ==> (k1 as int) % (self.mx as int)
                    - (k2 as int) % (self.mx as int) < self.wx,
    {
        let succ = self.spec_successors(n);
        if n.r2l < self.mt * self.mx {
            lemma_graph_dims(self);
            if self.cell_ok(n, false) {
                self.lemma_next_cell_spans(n, false);
            }
            if self.cell_ok(n, true) {
                self.lemma_next_cell_spans(n, true);
            }
        }
        assert forall|i: int| 0 <= i < succ.len() implies self.spans_ok(#[trigger] succ[i]) by {}
        assert forall|i: int, k1: nat, k2: nat|
            0 <= i < succ.len() && k1 < succ[i].r2l && k2 < succ[i].r2l && #[trigger] succ[i].r2.spec_bit(k1)
                && #[trigger] succ[i].r2.spec_bit(k2) implies (k1 as int) % (self.mx as int) - (k2 as int)
            % (self.mx as int) < self.wx by {
            assert(self.spans_ok(succ[i]));
        }
    }

    /// Expanding offers every way of deciding the next cell that the rules allow, and no other:
    /// deciding it `v` is among the successors exactly when, for a live cell, the new row's live
    /// cells still span fewer than `wx` columns with it, and the rows then pass every check of
    /// the cell.
    pub proof fn lemma_successors_complete(&self, n: GolNode, v: bool)
        requires
            self.wf(),
            self.node_ok(n),
            n.r2l < self.mt * self.mx,
        ensures
            self.spec_successors(n).contains(self.next_cell(n, v)) <==> ((v ==> vstd::math::max(
                n.r2_max_x as int,
                n.r2l_x as int,
            ) - vstd::math::min(n.r2_min_x as int, n.r2l_x as int) < self.wx) && forall|k: int|
                0 <= k < self.checks@[n.r2l as int]@.len() ==> check_passes(
                    (n.r0, n.r1, self.next_cell(n, v).r2),
                    #[trigger] self.checks@[n.r2l as int]@[k],
                )),
    {
        lemma_graph_dims(self);
        let succ = self.spec_successors(n);
        let a = self.next_cell(n, v);
        let b = self.next_cell(n, !v);
        lemma_set_bit_bits(n.r2, n.r2l as nat, v);
        lemma_set_bit_bits(n.r2, n.r2l as nat, !v);
        assert(a.r2.spec_bit(n.r2l as nat) != b.r2.spec_bit(n.r2l as nat));
        assert(a != b);
        if self.cell_ok(n, v) {
            if v {
                assert(succ.last() == a);
            } else {
                assert(succ[0] == a);
            }
        }
        if succ.contains(a) {
            let i = choose|i: int| 0 <= i < succ.len() && succ[i] == a;
            assert(self.cell_ok(n, v));
        }
    }

    /// Deciding a cell that passes keeps the record of the new row's live cells true and narrow.
    proof fn lemma_next_cell_spans(&self, n: GolNode, v: bool)
        requires
            self.wf(),
            self.node_ok(n),
            self.spans_ok(n),
            n.r2l < self.mt * self.mx,
            self.mt * self.mx <= 64,
            self.cell_ok(n, v),
        ensures
            self.spans_ok(self.next_cell(n, v)),
    {
        let c = self.next_cell(n, v);
        lemma_set_bit_bits(n.r2, n.r2l as nat, v);
        assert forall|k: nat| k < c.r2l && #[trigger] c.r2.spec_bit(k) implies c.r2_min_x <= (k as int) % (
        self.mx as int) <= c.r2_max_x by {
            if k != n.r2l {
                assert(n.r2.spec_bit(k));
            }
        }
        if exists|k: nat| k < c.r2l && #[trigger] c.r2.spec_bit(k) {
            if !v {
                let k = choose|k: nat| k < c.r2l && #[trigger] c.r2.spec_bit(k);
                assert(n.r2.spec_bit(k));
            }
        }
    }
}

impl DfsGraph<GolNode> for GolGraph {
    open spec fn spec_wf(&self) -> bool {
        self.wf()
    }

    open spec fn spec_node_ok(&self, n: GolNode) -> bool {
        self.node_ok(n)
    }

    fn can_expand(&self, n: &GolNode) -> (r: bool) {
        proof {
            lemma_graph_dims(self);
            assert(self.mt * self.mx <= 64);
        }
        n.r2l <= self.mt * self.mx && n.r2l_x == n.r2l % self.mx && n.r2_min_x < self.mx && n.r2_max_x
            < self.mx && isize::MIN + 64 <= n.dx && n.dx <= isize::MAX - 64
    }

    open spec fn spec_expand(&self, n: GolNode) -> Seq<GolNode> {
        self.spec_successors(n)
    }

    /// A search ends at two empty rows.
    open spec fn spec_end(&self, kn: GolKeyNode) -> bool {
        kn.r0 == 0 && kn.r1 == 0
    }

    fn expand(&self, n1: &GolNode) -> (r: Vec<GolNode>) {
        let mut n2s = Vec::new();
        expand_srch(self, n1, &mut n2s);
        assert(n2s@ =~= self.spec_successors(*n1));
        n2s
    }

    /// Ends carry no label.
    open spec fn spec_end_label(&self, kn: GolKeyNode) -> Seq<char> {
        Seq::empty()
    }

    fn end(&self, kn: &GolKeyNode) -> (r: Option<&str>) {
        if kn.r0 == 0 && kn.r1 == 0 {
            proof {
                reveal_strlit("");
            }
            assert(""@ =~= Seq::<char>::empty());
            Some("")
        } else {
            None
        }
    }
}

/// A node as saved: what the derived fields of a `GolNode` are computed from.
#[derive(Clone, Copy, PartialEq, Eq, Structural, Debug)]
pub struct GolNodeSerdeProxy {
    pub dx: isize,
    pub r0: u64,
    pub r1: u64,
    pub r2: u64,
    pub r2l: usize,
}

impl GolNodeSerdeProxy {
    /// The node, with the columns of its new row's live cells and of its next cell recomputed.
    pub fn to_real(&self, e: &GolGraph) -> (r: GolNode)
        requires
            e.dims_ok(),
        ensures
            r == (GolNode {
                dx: self.dx,
                r0: self.r0,
                r1: self.r1,
                r2: self.r2,
                r2_min_x: e.first_col(self.r2, 0) as usize,
                r2_max_x: e.last_col(self.r2, e.mx - 1) as usize,
                r2l: self.r2l,
                r2l_x: (self.r2l % e.mx) as usize,
            }),
    {
        GolNode {
            dx: self.dx,
            r0: self.r0,
            r1: self.r1,
            r2: self.r2,
            r2_min_x: find_min_x(e, self.r2),
            r2_max_x: find_max_x(e, self.r2),
            r2l: self.r2l,
            r2l_x: self.r2l % e.mx,
        }
    }
}

impl GolNode {
    /// What is saved of the node: all but its derived fields.
    pub fn to_serde_proxy(&self, e: &GolGraph) -> (r: GolNodeSerdeProxy)
        ensures
            r == (GolNodeSerdeProxy { dx: self.dx, r0: self.r0, r1: self.r1, r2: self.r2, r2l: self.r2l }),
    {
        GolNodeSerdeProxy { dx: self.dx, r0: self.r0, r1: self.r1, r2: self.r2, r2l: self.r2l }
    }
}


/// A cell a check reads: the node row it is in, and how it is read.
pub type CellRead = (usize, PartialRowRead);

/// Whether a read cell is alive in `rows` (0 or 1; cells off the space or undecided count 0).
pub open spec fn read_live(rows: (u64, u64, u64), c: CellRead) -> nat {
    match c.1 {
        PartialRowRead::Read(i) => if pick_row(rows, c.0).spec_bit(i as nat) {
            1
        } else {
            0
        },
        _ => 0,
    }
}

/// Live cells among `s`.
pub open spec fn reads_live(rows: (u64, u64, u64), s: Seq<CellRead>) -> nat
    decreases s.len(),
{
    if s.len() == 0 {
        0
    } else {
        reads_live(rows, s.drop_last()) + read_live(rows, s.last())
    }
}

/// Cells of `s` whose state is known: off the space (dead) or decided.
pub open spec fn reads_known(s: Seq<CellRead>) -> nat
    decreases s.len(),
{
    if s.len() == 0 {
        0
    } else {
        reads_known(s.drop_last()) + if s.last().1 is Unknown {
            0nat
        } else {
            1nat
        }
    }
}

/// Cells of `s` that are decided bits of a row.
pub open spec fn reads_bits(s: Seq<CellRead>) -> nat
    decreases s.len(),
{
    if s.len() == 0 {
        0
    } else {
        reads_bits(s.drop_last()) + if s.last().1 is Read {
            1nat
        } else {
            0nat
        }
    }
}

/// The mask selecting a read cell's bit; empty for a cell off the space.
pub open spec fn read_mask(r: PartialRowRead) -> u64 {
    match r {
        PartialRowRead::Read(i) => 1u64 << i as u64,
        _ => 0,
    }
}

/// Check `c` tests the cell read by `cur` against the cell read by `fut` a generation later,
/// with the neighbours `nbrs`: it counts the known ones and, in any rows, the live ones.
pub open spec fn check_means(c: GolCheck, nbrs: Seq<CellRead>, cur: CellRead, fut: CellRead) -> bool {
    &&& check_wf(c)
    &&& c.1 == reads_known(nbrs)
    &&& masks_bits(c.0@) == reads_bits(nbrs)
    &&& forall|rows: (u64, u64, u64)| #[trigger] nh_count(rows, c.0@) == reads_live(rows, nbrs)
    &&& c.2 == (cur.0, read_mask(cur.1))
    &&& c.3 == (fut.0, read_mask(fut.1))
}

/// Live neighbours a mask entry sees.
pub open spec fn mask_count(rows: (u64, u64, u64), e: (usize, u64)) -> nat {
    (pick_row(rows, e.0) & e.1).spec_count_ones()
}

proof fn lemma_nh_count_update(rows: (u64, u64, u64), ms: Seq<(usize, u64)>, k: int, e: (usize, u64))
    requires
        0 <= k < ms.len(),
    ensures
        nh_count(rows, ms.update(k, e)) + mask_count(rows, ms[k]) == nh_count(rows, ms) + mask_count(rows, e),
        masks_bits(ms.update(k, e)) + ms[k].1.spec_count_ones() == masks_bits(ms) + e.1.spec_count_ones(),
    decreases ms.len(),
{
    let u = ms.update(k, e);
    if k == ms.len() - 1 {
        assert(u.drop_last() =~= ms.drop_last());
    } else {
        lemma_nh_count_update(rows, ms.drop_last(), k, e);
        assert(u.drop_last() =~= ms.drop_last().update(k, e));
    }
}

proof fn lemma_count_true_point(f: spec_fn(nat) -> bool, g: spec_fn(nat) -> bool, n: nat, i: nat)
    requires
        i < n,
        forall|j: nat| j != i ==> #[trigger] f(j) == g(j),
    ensures
        count_true(g, n) + (if f(i) {
            1nat
        } else {
            0nat
        }) == count_true(f, n) + (if g(i) {
            1nat
        } else {
            0nat
        }),
    decreases n,
{
    if n - 1 == i {
        lemma_count_true_eq(f, g, (n - 1) as nat);
    } else {
        lemma_count_true_point(f, g, (n - 1) as nat, i);
    }
}

proof fn lemma_count_true_eq(f: spec_fn(nat) -> bool, g: spec_fn(nat) -> bool, n: nat)
    requires
        forall|j: nat| j < n ==> #[trigger] f(j) == g(j),
    ensures
        count_true(g, n) == count_true(f, n),
    decreases n,
{
    if n > 0 {
        lemma_count_true_eq(f, g, (n - 1) as nat);
    }
}

/// Adding bit `i` to mask `m` adds one to its size, and adds bit `i` of `x` to what it sees of
/// `x`.
proof fn lemma_add_bit(x: u64, m: u64, i: u64)
    requires
        i < 64,
        !m.spec_bit(i as nat),
    ensures
        (m | (1u64 << i)).spec_count_ones() == m.spec_count_ones() + 1,
        (x & (m | (1u64 << i))).spec_count_ones() == (x & m).spec_count_ones() + if x.spec_bit(i as nat) {
            1nat
        } else {
            0nat
        },
        (m | (1u64 << i)).spec_bit(i as nat),
        forall|j: nat| j != i ==> #[trigger] (m | (1u64 << i)).spec_bit(j) == m.spec_bit(j),
{
    let m2 = m | (1u64 << i);
    assert(((m2 >> i) & 1 == 1) && ((x & m2) >> i) & 1 == (x >> i) & 1) by (bit_vector)
        requires
            i < 64,
            m2 == m | (1u64 << i),
    ;
    assert(forall|j: u64| j < 64 && j != i ==> #[trigger] ((m2 >> j) & 1) == ((m >> j) & 1)) by (bit_vector)
        requires
            i < 64,
            m2 == m | (1u64 << i),
    ;
    assert(forall|j: u64| j < 64 && j != i ==> #[trigger] (((x & m2) >> j) & 1) == (((x & m) >> j) & 1))
        by (bit_vector)
        requires
            i < 64,
            m2 == m | (1u64 << i),
    ;
    assert(((x & m) >> i) & 1 == 0) by (bit_vector)
        requires
            (m >> i) & 1 != 1,
    ;
    assert((x >> i) & 1 == 0 || (x >> i) & 1 == 1) by (bit_vector);
    assert forall|j: nat| j != i implies #[trigger] m2.spec_bit(j) == m.spec_bit(j) by {
        if j < 64 {
            assert(((m2 >> (j as u64)) & 1) == ((m >> (j as u64)) & 1));
        }
    }
    assert forall|j: nat| j != i implies #[trigger] (x & m2).spec_bit(j) == (x & m).spec_bit(j) by {
        if j < 64 {
            assert((((x & m2) >> (j as u64)) & 1) == (((x & m) >> (j as u64)) & 1));
        }
    }
    lemma_count_true_point(|j: nat| m.spec_bit(j), |j: nat| m2.spec_bit(j), 64, i as nat);
    lemma_count_true_point(|j: nat| (x & m).spec_bit(j), |j: nat| (x & m2).spec_bit(j), 64, i as nat);
}

/// The empty mask sees nothing.
proof fn lemma_zero_mask(x: u64)
    ensures
        (0u64).spec_count_ones() == 0,
        (x & 0u64) == 0u64,
        forall|j: nat| !#[trigger] (0u64).spec_bit(j),
{
    assert(x & 0u64 == 0u64) by (bit_vector);
    assert forall|j: nat| !#[trigger] (0u64).spec_bit(j) by {
        if j < 64 {
            let jj = j as u64;
            assert((0u64 >> jj) & 1 == 0) by (bit_vector);
        }
    }
    lemma_count_true_eq(|j: nat| false, |j: nat| (0u64).spec_bit(j), 64);
    lemma_count_true_zero(64);
}

proof fn lemma_count_true_zero(n: nat)
    ensures
        count_true(|j: nat| false, n) == 0,
    decreases n,
{
    if n > 0 {
        lemma_count_true_zero((n - 1) as nat);
    }
}

/// What the neighbour masks built so far stand for: the reads `pre` made so far.
pub open spec fn masks_inv(ms: Seq<(usize, u64)>, nh_ct: u32, pre: Seq<CellRead>) -> bool {
    &&& nh_ct == reads_known(pre)
    &&& masks_bits(ms) == reads_bits(pre)
    &&& ms.len() <= pre.len()
    &&& forall|k: int| 0 <= k < ms.len() ==> (#[trigger] ms[k]).0 < 3
    &&& forall|rows: (u64, u64, u64)| #[trigger] nh_count(rows, ms) == reads_live(rows, pre)
}

proof fn lemma_reads_le(s: Seq<CellRead>)
    ensures
        reads_bits(s) <= reads_known(s) <= s.len(),
    decreases s.len(),
{
    if s.len() > 0 {
        lemma_reads_le(s.drop_last());
    }
}

/// The mask of the single bit `idx`.
fn single_mask(idx: usize) -> (r: u64)
    requires
        idx < 64,
    ensures
        r == 1u64 << idx as u64,
{
    let mut b = <u64 as Scalar>::zero();
    <u64 as Scalar>::set_bit(&mut b, idx, true);
    proof {
        let z: u64 = 0;
        lemma_zero_mask(0);
        assert forall|i: nat| i != idx implies #[trigger] b.spec_bit(i) == z.spec_bit(i) by {}
        lemma_set_bit_word(z, b, idx as nat, true);
        let ii = idx as u64;
        assert(0u64 | (1u64 << ii) == (1u64 << ii)) by (bit_vector);
    }
    b
}

impl GolPreGraph {
    /// How row `r` (its index in a node, and how many of its bits are decided) reads cell `x`
    /// of generation `t`.
    pub open spec fn spec_read(&self, r: (usize, usize), t: int, x: int) -> CellRead {
        (r.0, self.spec_prow_read(r.1 as int, t, x))
    }

    /// The neighbours of cell `x` of generation `t` in row `c`, with `cp` the row before and
    /// `cn`, if any, the row after.
    pub open spec fn spec_nbrs(
        &self,
        cp: (usize, usize),
        c: (usize, usize),
        cn: Option<(usize, usize)>,
        t: int,
        x: int,
    ) -> Seq<CellRead> {
        seq![
            self.spec_read(cp, t, x - 1),
            self.spec_read(cp, t, x),
            self.spec_read(cp, t, x + 1),
            self.spec_read(c, t, x - 1),
            self.spec_read(c, t, x + 1),
        ] + match cn {
            Some(n) => seq![self.spec_read(n, t, x - 1), self.spec_read(n, t, x), self.spec_read(n, t, x + 1)],
            None => Seq::empty(),
        }
    }

    /// Counts the read of cell `x` of generation `t` of row `r` among the neighbours.
    fn add_nh(
        &self,
        masks: &mut Vec<(usize, u64)>,
        nh_ct: &mut u32,
        r: (usize, usize),
        t: usize,
        x: isize,
        Ghost(pre): Ghost<Seq<CellRead>>,
    )
        requires
            self.wf(),
            r.0 < 3,
            r.1 <= 64,
            t < self.mt,
            small(x as int),
            pre.len() < 8,
            masks_inv(old(masks)@, *old(nh_ct), pre),
        ensures
            masks_inv(final(masks)@, *final(nh_ct), pre.push(self.spec_read(r, t as int, x as int))),
    {
        let ghost rd = self.spec_read(r, t as int, x as int);
        let ghost npre = pre.push(rd);
        proof {
            assert(npre.drop_last() =~= pre);
            lemma_reads_le(pre);
            lemma_graph_dims_pre(self);
        }
        match self.compute_prow_read(r.1, t, x) {
            PartialRowRead::Off => {
                *nh_ct = *nh_ct + 1;
                assert forall|rows: (u64, u64, u64)| #[trigger] nh_count(rows, masks@) == reads_live(rows, npre) by {
                    assert(nh_count(rows, masks@) == reads_live(rows, pre));
                }
            },
            PartialRowRead::Unknown => {
                assert forall|rows: (u64, u64, u64)| #[trigger] nh_count(rows, masks@) == reads_live(rows, npre) by {
                    assert(nh_count(rows, masks@) == reads_live(rows, pre));
                }
            },
            PartialRowRead::Read(idx) => {
                *nh_ct = *nh_ct + 1;
                proof {
                    lemma_fold_col_in_row(self.left_sym, self.right_sym, self.mx as int, x as int);
                    assert(t * self.mx >= 0) by (nonlinear_arith)
                        requires
                            t >= 0,
                            self.mx >= 0,
                    ;
                }
                assert(idx < 64);
                let ghost ms0 = masks@;
                match find_free_mask(masks, r.0, idx) {
                    Some(k) => {
                        let (row, m) = masks[k];
                        let mut m2 = m;
                        <u64 as Scalar>::set_bit(&mut m2, idx, true);
                        proof {
                            lemma_set_bit_word(m, m2, idx as nat, true);
                        }
                        masks.set(k, (row, m2));
                        proof {
                            let ii = idx as u64;
                            assert(masks@ == ms0.update(k as int, (row, m2)));
                            assert forall|rows: (u64, u64, u64)| #[trigger] nh_count(rows, masks@) == reads_live(rows, npre) by {
                                lemma_nh_count_update(rows, ms0, k as int, (row, m2));
                                lemma_add_bit(pick_row(rows, row), m, ii);
                                assert(nh_count(rows, ms0) == reads_live(rows, pre));
                            }
                            lemma_nh_count_update((0, 0, 0), ms0, k as int, (row, m2));
                            lemma_add_bit(0, m, ii);
                            assert forall|q: int| 0 <= q < masks@.len() implies (#[trigger] masks@[q]).0 < 3 by {
                                assert(ms0[q].0 < 3);
                            }
                        }
                        return;
                    },
                    None => {},
                }
                let sm = single_mask(idx);
                masks.push((r.0, sm));
                proof {
                    let ii = idx as u64;
                    assert(masks@.drop_last() =~= ms0);
                    assert(0u64 | (1u64 << ii) == (1u64 << ii)) by (bit_vector);
                    lemma_zero_mask(0);
                    lemma_add_bit(0, 0, ii);
                    assert forall|rows: (u64, u64, u64)| #[trigger] nh_count(rows, masks@) == reads_live(rows, npre) by {
                        lemma_zero_mask(pick_row(rows, r.0));
                        lemma_add_bit(pick_row(rows, r.0), 0, ii);
                        assert(nh_count(rows, ms0) == reads_live(rows, pre));
                    }
                    assert forall|q: int| 0 <= q < masks@.len() implies (#[trigger] masks@[q]).0 < 3 by {
                        if q < ms0.len() {
                            assert(ms0[q].0 < 3);
                        }
                    }
                }
            },
        }
    }
}

/// The index of a mask of row `row` that lacks bit `idx`, if there is one.
fn find_free_mask(masks: &Vec<(usize, u64)>, row: usize, idx: usize) -> (r: Option<usize>)
    requires
        idx < 64,
    ensures
        r matches Some(k) ==> k < masks@.len() && masks@[k as int].0 == row && !masks@[k as int].1.spec_bit(
            idx as nat,
        ) && forall|j: int| 0 <= j < k ==> !((#[trigger] masks@[j]).0 == row && !masks@[j].1.spec_bit(idx as nat)),
        r is None ==> forall|j: int|
            0 <= j < masks@.len() ==> !((#[trigger] masks@[j]).0 == row && !masks@[j].1.spec_bit(idx as nat)),
{
    let mut k: usize = 0;
    while k < masks.len()
        invariant
            k <= masks@.len(),
            idx < 64,
            forall|j: int| 0 <= j < k ==> !((#[trigger] masks@[j]).0 == row && !masks@[j].1.spec_bit(idx as nat)),
        decreases masks@.len() - k,
    {
        let (rk, m) = masks[k];
        if rk == row && !<u64 as Scalar>::get_bit(&m, idx) {
            return Some(k);
        }
        k = k + 1;
    }
    None
}

/// A well-formed search's rows fit in a word.
proof fn lemma_graph_dims_pre(p: &GolPreGraph)
    requires
        p.wf(),
    ensures
        p.mx <= 64,
        p.mt <= 64,
{
    assert(p.mx <= 64 && p.mt <= 64) by (nonlinear_arith)
        requires
            1 <= p.mt,
            1 <= p.mx,
            p.mt * p.mx <= 64,
    ;
}


impl GolPreGraph {
    /// The mask a read cell is tested with, built from its read.
    fn read_mask_of(r: PartialRowRead) -> (m: u64)
        requires
            r matches PartialRowRead::Read(i) ==> i < 64,
        ensures
            m == read_mask(r),
    {
        match r {
            PartialRowRead::Off => {
                let z = <u64 as Scalar>::zero();
                proof {
                    lemma_zero_mask(0);
                    lemma_u64_bits_eq(z, 0);
                }
                z
            },
            PartialRowRead::Unknown => 0,
            PartialRowRead::Read(idx) => single_mask(idx),
        }
    }

    /// Adds to `acc` the check of cell `cx` of generation `ct` in row `c` against cell `fx` of
    /// generation `ft` in row `f`, with the neighbours in rows `cp`, `c` and `cn`; adds nothing
    /// when either cell is not yet decided.
    fn compute_checks2(
        &self,
        acc: &mut Vec<GolCheck>,
        cp: (usize, usize),
        c: (usize, usize),
        cn: Option<(usize, usize)>,
        ct: usize,
        cx: isize,
        f: (usize, usize),
        ft: usize,
        fx: isize,
    )
        requires
            self.wf(),
            cp.0 < 3 && cp.1 <= 64,
            c.0 < 3 && c.1 <= 64,
            cn matches Some(n) ==> n.0 < 3 && n.1 <= 64,
            f.0 < 3 && f.1 <= 64,
            ct < self.mt,
            ft < self.mt,
            small(cx - 1) && small(cx + 1),
            small(fx as int),
        ensures
            ({
                let cur = self.spec_read(c, ct as int, cx as int);
                let fut = self.spec_read(f, ft as int, fx as int);
                if cur.1 is Unknown || fut.1 is Unknown {
                    final(acc)@ == old(acc)@
                } else {
                    &&& final(acc)@.len() == old(acc)@.len() + 1
                    &&& final(acc)@.drop_last() == old(acc)@
                    &&& check_means(final(acc)@.last(), self.spec_nbrs(cp, c, cn, ct as int, cx as int), cur, fut)
                }
            }),
    {
        let mut nh_masks: Vec<(usize, u64)> = Vec::new();
        let mut nh_ct: u32 = 0;
        let ghost t = ct as int;
        let ghost x = cx as int;
        proof {
            assert(masks_inv(nh_masks@, nh_ct, Seq::empty()));
        }
        self.add_nh(&mut nh_masks, &mut nh_ct, cp, ct, cx - 1, Ghost(Seq::empty()));
        let ghost p1 = Seq::<CellRead>::empty().push(self.spec_read(cp, t, x - 1));
        self.add_nh(&mut nh_masks, &mut nh_ct, cp, ct, cx, Ghost(p1));
        let ghost p2 = p1.push(self.spec_read(cp, t, x));
        self.add_nh(&mut nh_masks, &mut nh_ct, cp, ct, cx + 1, Ghost(p2));
        let ghost p3 = p2.push(self.spec_read(cp, t, x + 1));
        self.add_nh(&mut nh_masks, &mut nh_ct, c, ct, cx - 1, Ghost(p3));
        let ghost p4 = p3.push(self.spec_read(c, t, x - 1));
        self.add_nh(&mut nh_masks, &mut nh_ct, c, ct, cx + 1, Ghost(p4));
        let ghost p5 = p4.push(self.spec_read(c, t, x + 1));
        let ghost mut pre = p5;
        if let Some(n) = cn {
            self.add_nh(&mut nh_masks, &mut nh_ct, n, ct, cx - 1, Ghost(p5));
            let ghost p6 = p5.push(self.spec_read(n, t, x - 1));
            self.add_nh(&mut nh_masks, &mut nh_ct, n, ct, cx, Ghost(p6));
            let ghost p7 = p6.push(self.spec_read(n, t, x));
            self.add_nh(&mut nh_masks, &mut nh_ct, n, ct, cx + 1, Ghost(p7));
            proof {
                pre = p7.push(self.spec_read(n, t, x + 1));
            }
        }
        assert(pre =~= self.spec_nbrs(cp, c, cn, t, x));
        proof {
            lemma_graph_dims_pre(self);
        }
        let cur_read = self.compute_prow_read(c.1, ct, cx);
        if let PartialRowRead::Unknown = cur_read {
            return;
        }
        let fut_read = self.compute_prow_read(f.1, ft, fx);
        if let PartialRowRead::Unknown = fut_read {
            return;
        }
        proof {
            lemma_fold_col_in_row(self.left_sym, self.right_sym, self.mx as int, cx as int);
            lemma_fold_col_in_row(self.left_sym, self.right_sym, self.mx as int, fx as int);
            assert(ct * self.mx >= 0 && ft * self.mx >= 0) by (nonlinear_arith)
                requires
                    ct >= 0,
                    ft >= 0,
                    self.mx >= 0,
            ;
            lemma_reads_le(pre);
        }
        let cur_mask = GolPreGraph::read_mask_of(cur_read);
        let fut_mask = GolPreGraph::read_mask_of(fut_read);
        acc.push((nh_masks, nh_ct, (c.0, cur_mask), (f.0, fut_mask)));
        proof {
            assert(final(acc)@.drop_last() =~= old(acc)@);
        }
    }
}


/// Stepping a floor quotient by `o` moves it by at most `o / m + 1`, and by at most one when
/// `o <= m`.
proof fn lemma_div_step(a: int, o: int, m: int)
    requires
        m >= 1,
        a >= 0,
        o >= 0,
    ensures
        0 <= (a + o) / m - a / m <= o + 1,
        o <= m ==> (a + o) / m - a / m <= 1,
{
    vstd::arithmetic::div_mod::lemma_fundamental_div_mod(a, m);
    vstd::arithmetic::div_mod::lemma_fundamental_div_mod(a + o, m);
    let q1 = a / m;
    let q2 = (a + o) / m;
    let r1 = a % m;
    let r2 = (a + o) % m;
    assert(0 <= q2 - q1 <= o + 1 && (o <= m ==> q2 - q1 <= 1)) by (nonlinear_arith)
        requires
            m >= 1,
            o >= 0,
            a == m * q1 + r1,
            a + o == m * q2 + r2,
            0 <= r1 < m,
            0 <= r2 < m,
    ;
}

impl GolPreGraph {
    /// A step of a cumulative shift is at most one more than the speed, and is -1, 0 or 1 when
    /// the speed is at most one cell per generation.
    proof fn lemma_shift_bounds(&self, t: int, o: int)
        requires
            1 <= self.mt <= 64,
            0 <= t < self.mt,
        ensures
            o >= 0 ==> 0 <= self.spec_shift(t, o) <= o + 1,
            o < 0 ==> -(-o + 1) <= self.spec_shift(t, o) <= 0,
            -(self.mt as int) <= o <= self.mt ==> -1 <= self.spec_shift(t, o) <= 1,
    {
        let m = self.mt as int;
        if o >= 0 {
            assert(o * t >= 0 && o * (t + 1) == o * t + o) by (nonlinear_arith)
                requires
                    o >= 0,
                    t >= 0,
            ;
            lemma_div_step(o * t, o, m);
        } else {
            let p = -o;
            assert(p * t >= 0 && p * (t + 1) == p * t + p && o * t == -(p * t) && o * (t + 1) == -(p * (t + 1)))
                by (nonlinear_arith)
                requires
                    p == -o,
                    p > 0,
                    t >= 0,
            ;
            lemma_div_step(p * t, p, m);
            if o * t == 0 {
                assert(p * t == 0);
            }
        }
    }
}

/// The rows and cells one check is built from: the rows before, at and after the cell (each
/// with how many of its bits are decided), the generation and column of the cell, and the row,
/// generation and column it becomes.
pub type CheckArgs = ((usize, usize), (usize, usize), Option<(usize, usize)>, int, int, (usize, usize), int, int);

impl GolPreGraph {
    /// Whether a check is built for `a`: both its cells are decided or off the space.
    pub open spec fn args_kept(&self, a: CheckArgs) -> bool {
        !(self.spec_read(a.1, a.3, a.4).1 is Unknown) && !(self.spec_read(a.5, a.6, a.7).1 is Unknown)
    }

    /// The checks built for `s`, in order.
    pub open spec fn kept_args(&self, s: Seq<CheckArgs>) -> Seq<CheckArgs>
        decreases s.len(),
    {
        if s.len() == 0 {
            Seq::empty()
        } else if self.args_kept(s.last()) {
            self.kept_args(s.drop_last()).push(s.last())
        } else {
            self.kept_args(s.drop_last())
        }
    }

    /// Check `c` is the one built for `a`.
    pub open spec fn check_matches(&self, c: GolCheck, a: CheckArgs) -> bool {
        check_means(c, self.spec_nbrs(a.0, a.1, a.2, a.3, a.4), self.spec_read(a.1, a.3, a.4), self.spec_read(a.5, a.6, a.7))
    }

    /// The checks `acc` are those built for `ks`.
    pub open spec fn acc_matches(&self, acc: Seq<GolCheck>, ks: Seq<CheckArgs>) -> bool {
        &&& acc.len() == ks.len()
        &&& forall|k: int| 0 <= k < acc.len() ==> #[trigger] self.check_matches(acc[k], ks[k])
    }

    /// The checks of cell `idx` (column `idx % mx` of generation `idx / mx`) of the row being
    /// built: the cell of the previous generation that becomes it, when that cell lies in the
    /// rows of a node, and the cells around it that it helps become.
    pub open spec fn spec_check_args(&self, idx: int) -> Seq<CheckArgs> {
        let mx = self.mx as int;
        let mt = self.mt as int;
        let x = idx % mx;
        let t = idx / mx;
        let pt = if t == 0 {
            mt - 1
        } else {
            t - 1
        };
        let ft = if t == mt - 1 {
            0
        } else {
            t + 1
        };
        let syp = self.spec_shift(pt, self.oy as int);
        let px = x - self.spec_shift(pt, self.ox as int);
        let sy = self.spec_shift(t, self.oy as int);
        let fx = x + self.spec_shift(t, self.ox as int);
        let full = (mx * mt) as usize;
        let r0 = (0usize, full);
        let r1 = (1usize, full);
        let r2 = (2usize, (idx + 1) as usize);
        let first: Seq<CheckArgs> = if syp == 1 {
            seq![(r0, r1, Some(r2), pt, px, r2, t, x)]
        } else if syp == 0 {
            seq![(r1, r2, None, pt, px, r2, t, x)]
        } else {
            Seq::empty()
        };
        first + self.dx_args(r0, r1, r2, sy, t, ft, x - 1, fx - 1) + self.dx_args(r0, r1, r2, sy, t, ft, x, fx)
            + self.dx_args(r0, r1, r2, sy, t, ft, x + 1, fx + 1)
    }

    /// The checks of the cell at column `x` (becoming column `fx`) around the cell being built.
    pub open spec fn dx_args(
        &self,
        r0: (usize, usize),
        r1: (usize, usize),
        r2: (usize, usize),
        sy: int,
        t: int,
        ft: int,
        x: int,
        fx: int,
    ) -> Seq<CheckArgs> {
        let f = if sy == -1 {
            r0
        } else if sy == 0 {
            r1
        } else {
            r2
        };
        seq![(r0, r1, Some(r2), t, x, f, ft, fx)] + if sy == -1 {
            seq![(r1, r2, None, t, x, r1, ft, fx)]
        } else if sy == 0 {
            seq![(r1, r2, None, t, x, r2, ft, fx)]
        } else {
            Seq::<CheckArgs>::empty()
        }
    }

    /// `compute_checks2` for the arguments `a`, keeping `acc` the checks built for `done`
    /// followed by `a`.
    fn push_check(
        &self,
        acc: &mut Vec<GolCheck>,
        cp: (usize, usize),
        c: (usize, usize),
        cn: Option<(usize, usize)>,
        ct: usize,
        cx: isize,
        f: (usize, usize),
        ft: usize,
        fx: isize,
        Ghost(done): Ghost<Seq<CheckArgs>>,
    )
        requires
            self.wf(),
            cp.0 < 3 && cp.1 <= 64,
            c.0 < 3 && c.1 <= 64,
            cn matches Some(n) ==> n.0 < 3 && n.1 <= 64,
            f.0 < 3 && f.1 <= 64,
            ct < self.mt,
            ft < self.mt,
            small(cx - 1) && small(cx + 1),
            small(fx as int),
            self.acc_matches(old(acc)@, self.kept_args(done)),
        ensures
            self.acc_matches(
                final(acc)@,
                self.kept_args(done.push((cp, c, cn, ct as int, cx as int, f, ft as int, fx as int))),
            ),
    {
        let ghost a: CheckArgs = (cp, c, cn, ct as int, cx as int, f, ft as int, fx as int);
        self.compute_checks2(acc, cp, c, cn, ct, cx, f, ft, fx);
        proof {
            assert(done.push(a).drop_last() =~= done);
            let ks = self.kept_args(done.push(a));
            if self.args_kept(a) {
                assert forall|k: int| 0 <= k < acc@.len() implies #[trigger] self.check_matches(acc@[k], ks[k]) by {
                    if k < acc@.len() - 1 {
                        assert(acc@[k] == old(acc)@[k]);
                    }
                }
            }
        }
    }
}


impl GolPreGraph {
    /// `push_check` for the checks `dx_args` lists for column `ix`.
    fn push_dx_checks(
        &self,
        acc: &mut Vec<GolCheck>,
        r0: (usize, usize),
        r1: (usize, usize),
        r2: (usize, usize),
        sy: isize,
        t: usize,
        ft: usize,
        ix: isize,
        fx: isize,
        Ghost(done): Ghost<Seq<CheckArgs>>,
    )
        requires
            self.wf(),
            r0.0 == 0 && r0.1 <= 64,
            r1.0 == 1 && r1.1 <= 64,
            r2.0 == 2 && r2.1 <= 64,
            -1 <= sy <= 1,
            t < self.mt,
            ft < self.mt,
            small(ix - 1) && small(ix + 1),
            small(fx as int),
            self.acc_matches(old(acc)@, self.kept_args(done)),
        ensures
            self.acc_matches(
                final(acc)@,
                self.kept_args(done + self.dx_args(r0, r1, r2, sy as int, t as int, ft as int, ix as int, fx as int)),
            ),
    {
        let f = if sy == -1 {
            r0
        } else if sy == 0 {
            r1
        } else {
            r2
        };
        self.push_check(acc, r0, r1, Some(r2), t, ix, f, ft, fx, Ghost(done));
        let ghost d1 = done.push((r0, r1, Some(r2), t as int, ix as int, f, ft as int, fx as int));
        if sy == -1 {
            self.push_check(acc, r1, r2, None, t, ix, r1, ft, fx, Ghost(d1));
            assert(d1.push((r1, r2, None, t as int, ix as int, r1, ft as int, fx as int)) =~= done + self.dx_args(
                r0,
                r1,
                r2,
                sy as int,
                t as int,
                ft as int,
                ix as int,
                fx as int,
            ));
        } else if sy == 0 {
            self.push_check(acc, r1, r2, None, t, ix, r2, ft, fx, Ghost(d1));
            assert(d1.push((r1, r2, None, t as int, ix as int, r2, ft as int, fx as int)) =~= done + self.dx_args(
                r0,
                r1,
                r2,
                sy as int,
                t as int,
                ft as int,
                ix as int,
                fx as int,
            ));
        } else {
            assert(d1 =~= done + self.dx_args(r0, r1, r2, sy as int, t as int, ft as int, ix as int, fx as int));
        }
    }

    /// The checks of cell `idx` of the row being built (see `spec_check_args`).
    fn compute_checks(&self, idx: usize) -> (r: Vec<GolCheck>)
        requires
            self.wf(),
            idx < self.mt * self.mx,
        ensures
            self.acc_matches(r@, self.kept_args(self.spec_check_args(idx as int))),
    {
        proof {
            lemma_graph_dims_pre(self);
            vstd::arithmetic::div_mod::lemma_fundamental_div_mod(idx as int, self.mx as int);
            assert(idx / self.mx < self.mt) by (nonlinear_arith)
                requires
                    idx < self.mt * self.mx,
                    self.mx >= 1,
                    idx == self.mx * (idx / self.mx) + idx % self.mx,
                    0 <= idx % self.mx,
            ;
        }
        let x = idx % self.mx;
        let t = idx / self.mx;
        let ix = x as isize;
        let pt = if t == 0 {
            self.mt - 1
        } else {
            t - 1
        };
        proof {
            self.lemma_shift_bounds(pt as int, self.ox as int);
            self.lemma_shift_bounds(pt as int, self.oy as int);
            self.lemma_shift_bounds(t as int, self.ox as int);
            self.lemma_shift_bounds(t as int, self.oy as int);
        }
        let sxp = self.compute_shift(pt, self.ox);
        let syp = self.compute_shift(pt, self.oy);
        let px = ix - sxp;
        let ft = if t == self.mt - 1 {
            0
        } else {
            t + 1
        };
        let sx = self.compute_shift(t, self.ox);
        let sy = self.compute_shift(t, self.oy);
        let fx = ix + sx;
        let mut acc: Vec<GolCheck> = Vec::new();
        proof {
            assert(self.mx * self.mt == self.mt * self.mx) by (nonlinear_arith);
        }
        let full = self.mx * self.mt;
        let r0 = (0usize, full);
        let r1 = (1usize, full);
        let r2 = (2usize, idx + 1);
        let ghost mut done: Seq<CheckArgs> = Seq::empty();
        assert(self.acc_matches(acc@, self.kept_args(done)));
        if syp == 1 {
            self.push_check(&mut acc, r0, r1, Some(r2), pt, px, r2, t, ix, Ghost(done));
            proof {
                done = done.push((r0, r1, Some(r2), pt as int, px as int, r2, t as int, ix as int));
            }
        } else if syp == 0 {
            self.push_check(&mut acc, r1, r2, None, pt, px, r2, t, ix, Ghost(done));
            proof {
                done = done.push((r1, r2, None, pt as int, px as int, r2, t as int, ix as int));
            }
        }
        self.push_dx_checks(&mut acc, r0, r1, r2, sy, t, ft, ix - 1, fx - 1, Ghost(done));
        let ghost d1 = done + self.dx_args(r0, r1, r2, sy as int, t as int, ft as int, ix - 1, fx - 1);
        self.push_dx_checks(&mut acc, r0, r1, r2, sy, t, ft, ix, fx, Ghost(d1));
        let ghost d2 = d1 + self.dx_args(r0, r1, r2, sy as int, t as int, ft as int, ix as int, fx as int);
        self.push_dx_checks(&mut acc, r0, r1, r2, sy, t, ft, ix + 1, fx + 1, Ghost(d2));
        let ghost d3 = d2 + self.dx_args(r0, r1, r2, sy as int, t as int, ft as int, ix + 1, fx + 1);
        assert(d3 =~= self.spec_check_args(idx as int));
        acc
    }

    /// The search these parameters describe: the checks of every cell of a new row.
    pub fn derived(self) -> (r: GolGraph)
        requires
            self.wf(),
        ensures
            r.wf(),
            r.mt == self.mt,
            r.mx == self.mx,
            r.wx == self.wx,
            r.left_sym == self.left_sym,
            r.right_sym == self.right_sym,
            r.recenter == self.recenter,
            forall|idx: int|
                0 <= idx < r.checks@.len() ==> self.acc_matches(
                    #[trigger] r.checks@[idx]@,
                    self.kept_args(self.spec_check_args(idx)),
                ),
    {
        proof {
            assert(self.mx * self.mt == self.mt * self.mx) by (nonlinear_arith);
        }
        let n = self.mx * self.mt;
        let mut checks: Vec<Vec<GolCheck>> = Vec::new();
        let mut idx: usize = 0;
        while idx < n
            invariant
                self.wf(),
                n == self.mt * self.mx,
                idx <= n,
                checks@.len() == idx,
                forall|i: int|
                    0 <= i < idx ==> self.acc_matches(#[trigger] checks@[i]@, self.kept_args(self.spec_check_args(i))),
            decreases n - idx,
        {
            let cs = self.compute_checks(idx);
            checks.push(cs);
            idx = idx + 1;
        }
        let r = GolGraph {
            mt: self.mt,
            mx: self.mx,
            wx: self.wx,
            left_sym: self.left_sym,
            right_sym: self.right_sym,
            checks: checks,
            recenter: self.recenter,
        };
        assert forall|i: int, k: int|
            0 <= i < r.checks@.len() && 0 <= k < r.checks@[i]@.len() implies check_wf(#[trigger] r.checks@[i]@[k]) by {
            assert(self.check_matches(r.checks@[i]@[k], self.kept_args(self.spec_check_args(i))[k]));
        }
        r
    }
}


/// Whether a read cell is alive in `rows`; cells off the space are dead.
pub open spec fn read_alive(rows: (u64, u64, u64), c: CellRead) -> bool {
    match c.1 {
        PartialRowRead::Read(i) => pick_row(rows, c.0).spec_bit(i as nat),
        _ => false,
    }
}

/// A check built for a cell passes exactly when the cell's known neighbours, alive and dead,
/// leave room for the cell and its next generation to follow Conway's rule.
pub proof fn lemma_check_passes_means(
    rows: (u64, u64, u64),
    c: GolCheck,
    nbrs: Seq<CellRead>,
    cur: CellRead,
    fut: CellRead,
)
    requires
        check_means(c, nbrs, cur, fut),
        cur.1 matches PartialRowRead::Read(i) ==> i < 64,
        fut.1 matches PartialRowRead::Read(i) ==> i < 64,
    ensures
        check_passes(rows, c) == compat_formula(
            reads_live(rows, nbrs) as int,
            reads_known(nbrs) as int,
            read_alive(rows, cur),
            read_alive(rows, fut),
        ),
{
    assert(nh_count(rows, c.0@) == reads_live(rows, nbrs));
    lemma_read_mask_alive(rows, cur);
    lemma_read_mask_alive(rows, fut);
}

proof fn lemma_read_mask_alive(rows: (u64, u64, u64), c: CellRead)
    requires
        c.1 matches PartialRowRead::Read(i) ==> i < 64,
    ensures
        (pick_row(rows, c.0) & read_mask(c.1) != 0) == read_alive(rows, c),
{
    let w = pick_row(rows, c.0);
    match c.1 {
        PartialRowRead::Read(i) => {
            let ii = i as u64;
            assert((w & (1u64 << ii) != 0) == ((w >> ii) & 1 == 1)) by (bit_vector)
                requires
                    ii < 64,
            ;
        },
        _ => {
            assert(w & 0u64 == 0u64) by (bit_vector);
        },
    }
}

/// Cells whose state is known, all of them.
proof fn lemma_reads_known_all(s: Seq<CellRead>)
    requires
        forall|i: int| 0 <= i < s.len() ==> !((#[trigger] s[i]).1 is Unknown),
    ensures
        reads_known(s) == s.len(),
    decreases s.len(),
{
    if s.len() > 0 {
        lemma_reads_known_all(s.drop_last());
    }
}

/// A check that reads all eight neighbours of its cell passes exactly when the cell and its next
/// generation follow Conway's rule.
pub proof fn lemma_full_check_life(
    rows: (u64, u64, u64),
    c: GolCheck,
    nbrs: Seq<CellRead>,
    cur: CellRead,
    fut: CellRead,
)
    requires
        check_means(c, nbrs, cur, fut),
        reads_known(nbrs) == 8,
        cur.1 matches PartialRowRead::Read(i) ==> i < 64,
        fut.1 matches PartialRowRead::Read(i) ==> i < 64,
    ensures
        check_passes(rows, c) == (life_rule(read_alive(rows, cur), reads_live(rows, nbrs) as int) == read_alive(
            rows,
            fut,
        )),
{
    lemma_check_passes_means(rows, c, nbrs, cur, fut);
    lemma_nh_count_le(rows, c.0@);
    assert(nh_count(rows, c.0@) == reads_live(rows, nbrs));
    lemma_reads_le(nbrs);
    let living = reads_live(rows, nbrs) as int;
    let a = read_alive(rows, cur);
    let f = read_alive(rows, fut);
    lemma_compat_formula_exact(living, 8, a, f);
    if life_rule(a, living) == f {
        assert(living <= living <= living + (8 - 8) && life_rule(a, living) == f);
    }
}

impl GolPreGraph {
    /// Where the check of cell `idx` of the new row reads the middle-row cell at column `xc` of
    /// the same generation `t` one generation later: the pattern moves `spec_shift(t, oy)` rows
    /// (to the row before, the middle row or the new row) and `spec_shift(t, ox)` columns.
    pub open spec fn spec_future(&self, idx: int, xc: int) -> CellRead {
        let mx = self.mx as int;
        let mt = self.mt as int;
        let t = idx / mx;
        let ft = if t == mt - 1 {
            0
        } else {
            t + 1
        };
        let sy = self.spec_shift(t, self.oy as int);
        let full = (mx * mt) as usize;
        let f = if sy == -1 {
            (0usize, full)
        } else if sy == 0 {
            (1usize, full)
        } else {
            (2usize, (idx + 1) as usize)
        };
        self.spec_read(f, ft, xc + self.spec_shift(t, self.ox as int))
    }

    /// A check is built for what it is meant to check when that is known.
    proof fn lemma_kept_args_has(&self, s: Seq<CheckArgs>, j: int)
        requires
            0 <= j < s.len(),
            self.args_kept(s[j]),
        ensures
            exists|k: int| 0 <= k < self.kept_args(s).len() && #[trigger] self.kept_args(s)[k] == s[j],
        decreases s.len(),
    {
        let d = s.drop_last();
        if j == s.len() - 1 {
            assert(self.kept_args(s) == self.kept_args(d).push(s[j]));
            let k = self.kept_args(d).len() as int;
            assert(self.kept_args(s)[k] == s[j]);
        } else {
            self.lemma_kept_args_has(d, j);
            assert(d[j] == s[j]);
            let k = choose|k: int| 0 <= k < self.kept_args(d).len() && #[trigger] self.kept_args(d)[k] == d[j];
            assert(self.kept_args(s)[k] == s[j]);
        }
    }

    /// Reading a cell of a finished row never finds it undecided.
    proof fn lemma_full_read_known(&self, row: (usize, usize), t: int, j: int)
        requires
            self.wf(),
            row.1 == (self.mx * self.mt) as usize,
            0 <= t < self.mt,
        ensures
            !(self.spec_read(row, t, j).1 is Unknown),
    {
        let mx = self.mx as int;
        let mt = self.mt as int;
        lemma_graph_dims_pre(self);
        assert(mx * mt == mt * mx) by (nonlinear_arith);
        lemma_fold_col_in_row(self.left_sym, self.right_sym, mx, j);
        if let Some(cc) = fold_col(self.left_sym, self.right_sym, mx, j) {
            assert(t * mx + cc < mt * mx) by (nonlinear_arith)
                requires
                    0 <= t < mt,
                    0 <= cc < mx,
            ;
        }
    }

    /// A read bit lies in the decided part of its row.
    proof fn lemma_read_index_small(&self, row: (usize, usize), t: int, j: int)
        requires
            self.wf(),
            row.1 <= 64,
            0 <= t,
        ensures
            self.spec_read(row, t, j).1 matches PartialRowRead::Read(i) ==> i < 64,
    {
        let mx = self.mx as int;
        lemma_fold_col_in_row(self.left_sym, self.right_sym, mx, j);
        if let Some(cc) = fold_col(self.left_sym, self.right_sym, mx, j) {
            assert(t * mx + cc >= 0) by (nonlinear_arith)
                requires
                    0 <= t,
                    0 <= cc,
                    mx >= 1,
            ;
        }
    }

    /// The check of the middle-row cell at column `xc` among the checks of cell `idx`.
    proof fn lemma_derived_check_index(&self, g: GolGraph, idx: int, xc: int) -> (k: int)
        requires
            self.wf(),
            g.checks@.len() == self.mt * self.mx,
            forall|i: int|
                0 <= i < g.checks@.len() ==> self.acc_matches(
                    #[trigger] g.checks@[i]@,
                    self.kept_args(self.spec_check_args(i)),
                ),
            0 <= idx < self.mt * self.mx,
            idx % (self.mx as int) - 1 <= xc <= idx % (self.mx as int) + 1,
            !(self.spec_future(idx, xc).1 is Unknown),
        ensures
            0 <= k < g.checks@[idx]@.len(),
            check_means(
                g.checks@[idx]@[k],
                self.spec_nbrs(
                    (0usize, (self.mx * self.mt) as usize),
                    (1usize, (self.mx * self.mt) as usize),
                    Some((2usize, (idx + 1) as usize)),
                    idx / (self.mx as int),
                    xc,
                ),
                self.spec_read((1usize, (self.mx * self.mt) as usize), idx / (self.mx as int), xc),
                self.spec_future(idx, xc),
            ),
    {
        let mx = self.mx as int;
        let mt = self.mt as int;
        lemma_graph_dims_pre(self);
        vstd::arithmetic::div_mod::lemma_fundamental_div_mod(idx, mx);
        let x = idx % mx;
        let t = idx / mx;
        assert(0 <= t < mt) by (nonlinear_arith)
            requires
                0 <= idx < mt * mx,
                mx >= 1,
                idx == mx * t + x,
                0 <= x < mx,
        ;
        let full = (mx * mt) as usize;
        let ft = if t == mt - 1 {
            0
        } else {
            t + 1
        };
        let sy = self.spec_shift(t, self.oy as int);
        let sx = self.spec_shift(t, self.ox as int);
        let fx = x + sx;
        let r0 = (0usize, full);
        let r1 = (1usize, full);
        let r2 = (2usize, (idx + 1) as usize);
        let f = if sy == -1 {
            r0
        } else if sy == 0 {
            r1
        } else {
            r2
        };
        let a: CheckArgs = (r0, r1, Some(r2), t, xc, f, ft, xc + sx);
        assert(self.spec_future(idx, xc) == self.spec_read(f, ft, xc + sx));
        self.lemma_full_read_known(r1, t, xc);
        assert(self.args_kept(a));
        let s = self.spec_check_args(idx);
        let d0 = self.dx_args(r0, r1, r2, sy, t, ft, x - 1, fx - 1);
        let d1 = self.dx_args(r0, r1, r2, sy, t, ft, x, fx);
        let d2 = self.dx_args(r0, r1, r2, sy, t, ft, x + 1, fx + 1);
        let pos = if xc == x - 1 {
            s.len() - d0.len() - d1.len() - d2.len()
        } else if xc == x {
            s.len() - d1.len() - d2.len()
        } else {
            s.len() - d2.len()
        };
        assert(s[pos] == a);
        self.lemma_kept_args_has(s, pos);
        let k = choose|k: int| 0 <= k < self.kept_args(s).len() && #[trigger] self.kept_args(s)[k] == s[pos];
        assert(self.acc_matches(g.checks@[idx]@, self.kept_args(s)));
        assert(self.check_matches(g.checks@[idx]@[k], self.kept_args(s)[k]));
        k
    }

    /// Deriving a search checks the middle row against Conway's rule all along the new row: for
    /// each cell `idx` of the new row (column `x`, generation `t`) and each middle-row cell at
    /// column `x - 1`, `x` or `x + 1` of generation `t` whose next generation is known, the checks
    /// of `idx` include that cell's check, reading its neighbours as they stand once `idx` is
    /// decided; when the three new-row cells next to it are decided, that check sees all eight
    /// neighbours and passes exactly when the cell and its next generation follow the rule.
    pub proof fn lemma_derived_checks_life(&self, g: GolGraph, idx: int, xc: int)
        requires
            self.wf(),
            g.checks@.len() == self.mt * self.mx,
            forall|i: int|
                0 <= i < g.checks@.len() ==> self.acc_matches(
                    #[trigger] g.checks@[i]@,
                    self.kept_args(self.spec_check_args(i)),
                ),
            0 <= idx < self.mt * self.mx,
            idx % (self.mx as int) - 1 <= xc <= idx % (self.mx as int) + 1,
            !(self.spec_future(idx, xc).1 is Unknown),
        ensures
            ({
                let t = idx / (self.mx as int);
                let full = (self.mx * self.mt) as usize;
                let cur = self.spec_read((1usize, full), t, xc);
                let nbrs = self.spec_nbrs((0usize, full), (1usize, full), Some((2usize, (idx + 1) as usize)), t, xc);
                let fut = self.spec_future(idx, xc);
                exists|k: int|
                    0 <= k < g.checks@[idx]@.len() && check_means(#[trigger] g.checks@[idx]@[k], nbrs, cur, fut)
                        && ((forall|j: int|
                        xc - 1 <= j <= xc + 1 ==> !(#[trigger] self.spec_read((2usize, (idx + 1) as usize), t, j).1 is Unknown))
                        ==> reads_known(nbrs) == 8 && forall|rows: (u64, u64, u64)|
                        #[trigger] check_passes(rows, g.checks@[idx]@[k]) == (life_rule(
                            read_alive(rows, cur),
                            reads_live(rows, nbrs) as int,
                        ) == read_alive(rows, fut)))
            }),
    {
        let mx = self.mx as int;
        let mt = self.mt as int;
        let k = self.lemma_derived_check_index(g, idx, xc);
        lemma_graph_dims_pre(self);
        vstd::arithmetic::div_mod::lemma_fundamental_div_mod(idx, mx);
        let t = idx / mx;
        assert(0 <= t < mt) by (nonlinear_arith)
            requires
                0 <= idx < mt * mx,
                mx >= 1,
                idx == mx * t + idx % mx,
                0 <= idx % mx < mx,
        ;
        assert(self.mx * self.mt <= 64) by (nonlinear_arith)
            requires
                self.mt * self.mx <= 64,
        ;
        let full = (self.mx * self.mt) as usize;
        let r0 = (0usize, full);
        let r1 = (1usize, full);
        let r2 = (2usize, (idx + 1) as usize);
        let cur = self.spec_read(r1, t, xc);
        let nbrs = self.spec_nbrs(r0, r1, Some(r2), t, xc);
        let fut = self.spec_future(idx, xc);
        let c = g.checks@[idx]@[k];
        if forall|j: int|
            xc - 1 <= j <= xc + 1 ==> !(#[trigger] self.spec_read(r2, t, j).1 is Unknown) {
            assert(!(self.spec_read(r2, t, xc - 1).1 is Unknown));
            assert(!(self.spec_read(r2, t, xc).1 is Unknown));
            assert(!(self.spec_read(r2, t, xc + 1).1 is Unknown));
            self.lemma_full_read_known(r0, t, xc - 1);
            self.lemma_full_read_known(r0, t, xc);
            self.lemma_full_read_known(r0, t, xc + 1);
            self.lemma_full_read_known(r1, t, xc - 1);
            self.lemma_full_read_known(r1, t, xc + 1);
            assert forall|i: int| 0 <= i < nbrs.len() implies !((#[trigger] nbrs[i]).1 is Unknown) by {}
            lemma_reads_known_all(nbrs);
            self.lemma_read_index_small(r1, t, xc);
            let ft = if t == mt - 1 {
                0
            } else {
                t + 1
            };
            let sy = self.spec_shift(t, self.oy as int);
            let f = if sy == -1 {
                r0
            } else if sy == 0 {
                r1
            } else {
                r2
            };
            self.lemma_read_index_small(f, ft, xc + self.spec_shift(t, self.ox as int));
            assert forall|rows: (u64, u64, u64)|
                #[trigger] check_passes(rows, c) == (life_rule(read_alive(rows, cur), reads_live(rows, nbrs) as int)
                    == read_alive(rows, fut)) by {
                lemma_full_check_life(rows, c, nbrs, cur, fut);
            }
        }
    }
}

impl GolPreGraph {
    /// The generation before generation `t` of a row.
    pub open spec fn spec_prev_gen(&self, t: int) -> int {
        if t == 0 {
            self.mt - 1
        } else {
            t - 1
        }
    }

    /// Deriving a search ties each cell of the new row to the cell it comes from: for cell `idx`
    /// (column `x`, generation `t`), the cell at column `x - spec_shift(pt, ox)` of the generation
    /// `pt` before moves to it when the pattern moves `spec_shift(pt, oy)` rows. When that cell
    /// is in the middle row, or in the new row and already decided, the checks of `idx` include
    /// its check, whose next generation is cell `idx` itself.
    pub proof fn lemma_derived_checks_predecessor(&self, g: GolGraph, idx: int)
        requires
            self.wf(),
            g.checks@.len() == self.mt * self.mx,
            forall|i: int|
                0 <= i < g.checks@.len() ==> self.acc_matches(
                    #[trigger] g.checks@[i]@,
                    self.kept_args(self.spec_check_args(i)),
                ),
            0 <= idx < self.mt * self.mx,
        ensures
            ({
                let x = idx % (self.mx as int);
                let t = idx / (self.mx as int);
                let pt = self.spec_prev_gen(t);
                let px = x - self.spec_shift(pt, self.ox as int);
                let syp = self.spec_shift(pt, self.oy as int);
                let full = (self.mx * self.mt) as usize;
                let r2 = (2usize, (idx + 1) as usize);
                &&& self.spec_read(r2, t, x).1 == PartialRowRead::Read(idx as usize)
                &&& syp == 1 ==> exists|k: int|
                    0 <= k < g.checks@[idx]@.len() && check_means(
                        #[trigger] g.checks@[idx]@[k],
                        self.spec_nbrs((0usize, full), (1usize, full), Some(r2), pt, px),
                        self.spec_read((1usize, full), pt, px),
                        self.spec_read(r2, t, x),
                    )
                &&& syp == 0 && !(self.spec_read(r2, pt, px).1 is Unknown) ==> exists|k: int|
                    0 <= k < g.checks@[idx]@.len() && check_means(
                        #[trigger] g.checks@[idx]@[k],
                        self.spec_nbrs((1usize, full), r2, None, pt, px),
                        self.spec_read(r2, pt, px),
                        self.spec_read(r2, t, x),
                    )
            }),
    {
        let mx = self.mx as int;
        let mt = self.mt as int;
        lemma_graph_dims_pre(self);
        vstd::arithmetic::div_mod::lemma_fundamental_div_mod(idx, mx);
        let x = idx % mx;
        let t = idx / mx;
        assert(0 <= t < mt) by (nonlinear_arith)
            requires
                0 <= idx < mt * mx,
                mx >= 1,
                idx == mx * t + x,
                0 <= x < mx,
        ;
        assert(t * mx + x == idx) by (nonlinear_arith)
            requires
                idx == mx * t + x,
        ;
        assert(fold_col(self.left_sym, self.right_sym, mx, x) == Some(x));
        let pt = self.spec_prev_gen(t);
        let px = x - self.spec_shift(pt, self.ox as int);
        let syp = self.spec_shift(pt, self.oy as int);
        let full = (mx * mt) as usize;
        let r0 = (0usize, full);
        let r1 = (1usize, full);
        let r2 = (2usize, (idx + 1) as usize);
        let s = self.spec_check_args(idx);
        if syp == 1 || (syp == 0 && !(self.spec_read(r2, pt, px).1 is Unknown)) {
            let a: CheckArgs = if syp == 1 {
                (r0, r1, Some(r2), pt, px, r2, t, x)
            } else {
                (r1, r2, None, pt, px, r2, t, x)
            };
            if syp == 1 {
                self.lemma_full_read_known(r1, pt, px);
            }
            assert(self.args_kept(a));
            assert(s[0] == a);
            self.lemma_kept_args_has(s, 0);
            let k = choose|k: int| 0 <= k < self.kept_args(s).len() && #[trigger] self.kept_args(s)[k] == s[0];
            assert(self.acc_matches(g.checks@[idx]@, self.kept_args(s)));
            assert(self.check_matches(g.checks@[idx]@[k], self.kept_args(s)[k]));
            assert(0 <= k < g.checks@[idx]@.len());
        }
    }
}

impl Default for GolKeyNode {
    fn default() -> (r: GolKeyNode)
        ensures
            r == (GolKeyNode { dx: 0, r0: 0, r1: 0 }),
    {
        GolKeyNode { dx: 0, r0: 0, r1: 0 }
    }
}

impl Default for GolNode {
    fn default() -> (r: GolNode)
        ensures
            r == (GolNode { dx: 0, r0: 0, r1: 0, r2: 0, r2_min_x: 0, r2_max_x: 0, r2l: 0, r2l_x: 0 }),
    {
        GolNode { dx: 0, r0: 0, r1: 0, r2: 0, r2_min_x: 0, r2_max_x: 0, r2l: 0, r2l_x: 0 }
    }
}

impl DedupeKey for GolHashNode {
    fn same(&self, other: &GolHashNode) -> (r: bool) {
        self.r0 == other.r0 && self.r1 == other.r1
    }
}

} // verus!
