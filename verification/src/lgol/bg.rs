use vstd::prelude::*;

use crate::lgol::graph::LGolHashNode;
use crate::lgol::graph::RowTuple;
use crate::lgol::lat1::Vec3;
use crate::lgol::lat2::LGolShiftData;
use crate::scalar::Scalar;

verus! {

/// Parity of `v`: 0 or 1.
pub open spec fn par2(v: int) -> int {
    v % 2
}

/// Where a point sits in a periodic background: an element of a small group (a product of
/// copies of Z/2), with the group operations and a numbering `0..max_idx`.
pub trait LGolBgCoord: Sized {
    /// The value is a valid group element.
    spec fn wf(&self) -> bool;

    /// `n` times the element.
    spec fn spec_mul(&self, n: int) -> Self;

    /// The sum of two elements.
    spec fn spec_add(&self, other: Self) -> Self;

    /// The element of the point `(x, y, t)`.
    spec fn spec_from_xyt(xyt: Vec3) -> Self;

    /// The element's number.
    spec fn spec_idx(&self) -> nat;

    /// How many elements there are.
    spec fn spec_max_idx() -> nat;

    fn mul(&self, n: isize) -> (r: Self)
        requires
            self.wf(),
        ensures
            r.wf(),
            r == self.spec_mul(n as int),
    ;

    fn add(&self, other: Self) -> (r: Self)
        requires
            self.wf(),
            other.wf(),
        ensures
            r.wf(),
            r == self.spec_add(other),
    ;

    fn from_xyt(xyt: Vec3) -> (r: Self)
        ensures
            r.wf(),
            r == Self::spec_from_xyt(xyt),
    ;

    fn to_idx(&self) -> (r: usize)
        requires
            self.wf(),
        ensures
            r == self.spec_idx(),
            r < Self::spec_max_idx(),
    ;

    fn from_idx(idx: usize) -> (r: Self)
        requires
            idx < Self::spec_max_idx(),
        ensures
            r.wf(),
            r.spec_idx() == idx,
    ;

    fn max_idx() -> (r: usize)
        ensures
            r == Self::spec_max_idx(),
            r >= 1,
    ;

    fn same(&self, other: &Self) -> (r: bool)
        ensures
            r == (*self == *other),
    ;

    /// Whether the value is a valid group element.
    fn is_wf(&self) -> (r: bool)
        ensures
            r == self.wf(),
    ;
}

impl LGolBgCoord for () {
    fn is_wf(&self) -> (r: bool) {
        true
    }

    open spec fn wf(&self) -> bool {
        true
    }

    open spec fn spec_mul(&self, n: int) -> () {
        ()
    }

    open spec fn spec_add(&self, other: ()) -> () {
        ()
    }

    open spec fn spec_from_xyt(xyt: Vec3) -> () {
        ()
    }

    open spec fn spec_idx(&self) -> nat {
        0
    }

    open spec fn spec_max_idx() -> nat {
        1
    }

    fn mul(&self, n: isize) -> (r: ()) {
    }

    fn add(&self, other: ()) -> (r: ()) {
    }

    fn from_xyt(xyt: Vec3) -> (r: ()) {
    }

    fn to_idx(&self) -> (r: usize) {
        0
    }

    fn from_idx(idx: usize) -> (r: ()) {
    }

    fn max_idx() -> (r: usize) {
        1
    }

    fn same(&self, other: &()) -> (r: bool) {
        true
    }
}

/// Background coordinates that know the parity of `x`.
pub trait LGolBgHasX2: LGolBgCoord {
    spec fn spec_x2(&self) -> int;

    fn x2(&self) -> (r: i8)
        requires
            self.wf(),
        ensures
            r == self.spec_x2(),
    ;
}

/// Background coordinates that know the parity of `y`.
pub trait LGolBgHasY2: LGolBgCoord {
    spec fn spec_y2(&self) -> int;

    fn y2(&self) -> (r: i8)
        requires
            self.wf(),
        ensures
            r == self.spec_y2(),
    ;
}

/// `v % 2` for `v` of either sign, as `0` or `1`.
fn i8_par2(v: i8) -> (r: i8)
    ensures
        r == par2(v as int),
{
    v.checked_rem_euclid(2).unwrap()
}

fn isize_par2(v: isize) -> (r: i8)
    ensures
        r == par2(v as int),
{
    v.checked_rem_euclid(2).unwrap() as i8
}

/// The parity of `x`.
#[derive(Clone, Copy, PartialEq, Eq, Structural, Debug)]
pub struct LGolBgX2(pub i8);

impl LGolBgCoord for LGolBgX2 {
    fn is_wf(&self) -> (r: bool) {
        0 <= self.0 && self.0 < 2
    }

    open spec fn wf(&self) -> bool {
        0 <= self.0 < 2
    }

    open spec fn spec_mul(&self, n: int) -> LGolBgX2 {
        LGolBgX2(par2(n * self.0) as i8)
    }

    open spec fn spec_add(&self, other: LGolBgX2) -> LGolBgX2 {
        LGolBgX2(par2(self.0 + other.0) as i8)
    }

    open spec fn spec_from_xyt(xyt: Vec3) -> LGolBgX2 {
        LGolBgX2(par2(xyt.0 as int) as i8)
    }

    open spec fn spec_idx(&self) -> nat {
        self.0 as nat
    }

    open spec fn spec_max_idx() -> nat {
        2
    }

    fn mul(&self, n: isize) -> (r: LGolBgX2) {
        let np = isize_par2(n);
        proof {
            assert(par2(np * self.0) == par2(n * self.0)) by (nonlinear_arith)
                requires
                    np == n % 2,
                    0 <= self.0 < 2,
            ;
            assert(0 <= np * self.0 <= 1) by (nonlinear_arith)
                requires
                    0 <= np < 2,
                    0 <= self.0 < 2,
            ;
        }
        LGolBgX2(i8_par2(np * self.0))
    }

    fn add(&self, other: LGolBgX2) -> (r: LGolBgX2) {
        LGolBgX2((self.0 + other.0) % 2)
    }

    fn from_xyt(xyt: Vec3) -> (r: LGolBgX2) {
        LGolBgX2(isize_par2(xyt.0))
    }

    fn to_idx(&self) -> (r: usize) {
        self.0 as usize
    }

    fn from_idx(idx: usize) -> (r: LGolBgX2) {
        LGolBgX2(idx as i8)
    }

    fn max_idx() -> (r: usize) {
        2
    }

    fn same(&self, other: &LGolBgX2) -> (r: bool) {
        self.0 == other.0
    }
}

impl LGolBgHasX2 for LGolBgX2 {
    open spec fn spec_x2(&self) -> int {
        self.0 as int
    }

    fn x2(&self) -> (r: i8) {
        self.0
    }
}

/// The parity of `y`.
#[derive(Clone, Copy, PartialEq, Eq, Structural, Debug)]
pub struct LGolBgY2(pub i8);

impl LGolBgCoord for LGolBgY2 {
    fn is_wf(&self) -> (r: bool) {
        0 <= self.0 && self.0 < 2
    }

    open spec fn wf(&self) -> bool {
        0 <= self.0 < 2
    }

    open spec fn spec_mul(&self, n: int) -> LGolBgY2 {
        LGolBgY2(par2(n * self.0) as i8)
    }

    open spec fn spec_add(&self, other: LGolBgY2) -> LGolBgY2 {
        LGolBgY2(par2(self.0 + other.0) as i8)
    }

    open spec fn spec_from_xyt(xyt: Vec3) -> LGolBgY2 {
        LGolBgY2(par2(xyt.1 as int) as i8)
    }

    open spec fn spec_idx(&self) -> nat {
        self.0 as nat
    }

    open spec fn spec_max_idx() -> nat {
        2
    }

    fn mul(&self, n: isize) -> (r: LGolBgY2) {
        let np = isize_par2(n);
        proof {
            assert(par2(np * self.0) == par2(n * self.0)) by (nonlinear_arith)
                requires
                    np == n % 2,
                    0 <= self.0 < 2,
            ;
            assert(0 <= np * self.0 <= 1) by (nonlinear_arith)
                requires
                    0 <= np < 2,
                    0 <= self.0 < 2,
            ;
        }
        LGolBgY2(i8_par2(np * self.0))
    }

    fn add(&self, other: LGolBgY2) -> (r: LGolBgY2) {
        LGolBgY2((self.0 + other.0) % 2)
    }

    fn from_xyt(xyt: Vec3) -> (r: LGolBgY2) {
        LGolBgY2(isize_par2(xyt.1))
    }

    fn to_idx(&self) -> (r: usize) {
        self.0 as usize
    }

    fn from_idx(idx: usize) -> (r: LGolBgY2) {
        LGolBgY2(idx as i8)
    }

    fn max_idx() -> (r: usize) {
        2
    }

    fn same(&self, other: &LGolBgY2) -> (r: bool) {
        self.0 == other.0
    }
}

impl LGolBgHasY2 for LGolBgY2 {
    open spec fn spec_y2(&self) -> int {
        self.0 as int
    }

    fn y2(&self) -> (r: i8) {
        self.0
    }
}

/// The parities of `x` and `y`, held as `2 * (y % 2) + x % 2`.
#[derive(Clone, Copy, PartialEq, Eq, Structural, Debug)]
pub struct LGolBgX2Y2(pub i8);

/// The element with parities `(x, y)`.
pub open spec fn x2y2_pair(x: int, y: int) -> LGolBgX2Y2 {
    LGolBgX2Y2((2 * par2(y) + par2(x)) as i8)
}

impl LGolBgX2Y2 {
    /// The parities `(x % 2, y % 2)`.
    pub open spec fn spec_split(&self) -> (int, int) {
        ((self.0 as int) % 2, (self.0 as int) / 2)
    }

    fn split(&self) -> (r: (i8, i8))
        requires
            0 <= self.0 < 4,
        ensures
            r.0 == self.spec_split().0,
            r.1 == self.spec_split().1,
            0 <= r.0 < 2,
            0 <= r.1 < 2,
    {
        let x = self.0 % 2;
        let y = self.0 / 2;
        (x, y)
    }

    fn pair(x: i8, y: i8) -> (r: LGolBgX2Y2)
        ensures
            r == x2y2_pair(x as int, y as int),
            0 <= r.0 < 4,
    {
        let x = i8_par2(x);
        let y = i8_par2(y);
        LGolBgX2Y2(2 * y + x)
    }
}

impl LGolBgCoord for LGolBgX2Y2 {
    fn is_wf(&self) -> (r: bool) {
        0 <= self.0 && self.0 < 4
    }

    open spec fn wf(&self) -> bool {
        0 <= self.0 < 4
    }

    open spec fn spec_mul(&self, n: int) -> LGolBgX2Y2 {
        x2y2_pair(n * self.spec_split().0, n * self.spec_split().1)
    }

    open spec fn spec_add(&self, other: LGolBgX2Y2) -> LGolBgX2Y2 {
        x2y2_pair(self.spec_split().0 + other.spec_split().0, self.spec_split().1 + other.spec_split().1)
    }

    open spec fn spec_from_xyt(xyt: Vec3) -> LGolBgX2Y2 {
        x2y2_pair(xyt.0 as int, xyt.1 as int)
    }

    open spec fn spec_idx(&self) -> nat {
        self.0 as nat
    }

    open spec fn spec_max_idx() -> nat {
        4
    }

    fn mul(&self, n: isize) -> (r: LGolBgX2Y2) {
        let (x, y) = self.split();
        let np = isize_par2(n);
        proof {
            assert(par2(np * x) == par2(n * x)) by (nonlinear_arith)
                requires
                    np == n % 2,
                    0 <= x < 2,
            ;
            assert(par2(np * y) == par2(n * y)) by (nonlinear_arith)
                requires
                    np == n % 2,
                    0 <= y < 2,
            ;
            assert(0 <= np * x <= 1 && 0 <= np * y <= 1) by (nonlinear_arith)
                requires
                    0 <= np < 2,
                    0 <= x < 2,
                    0 <= y < 2,
            ;
        }
        LGolBgX2Y2::pair(np * x, np * y)
    }

    fn add(&self, other: LGolBgX2Y2) -> (r: LGolBgX2Y2) {
        let (x1, y1) = self.split();
        let (x2, y2) = other.split();
        LGolBgX2Y2::pair(x1 + x2, y1 + y2)
    }

    fn from_xyt(xyt: Vec3) -> (r: LGolBgX2Y2) {
        let (x, y, _t) = xyt;
        LGolBgX2Y2::pair(isize_par2(x), isize_par2(y))
    }

    fn to_idx(&self) -> (r: usize) {
        self.0 as usize
    }

    fn from_idx(idx: usize) -> (r: LGolBgX2Y2) {
        LGolBgX2Y2(idx as i8)
    }

    fn max_idx() -> (r: usize) {
        4
    }

    fn same(&self, other: &LGolBgX2Y2) -> (r: bool) {
        self.0 == other.0
    }
}

impl LGolBgHasX2 for LGolBgX2Y2 {
    open spec fn spec_x2(&self) -> int {
        self.spec_split().0
    }

    fn x2(&self) -> (r: i8) {
        let (x, _y) = self.split();
        x
    }
}

impl LGolBgHasY2 for LGolBgX2Y2 {
    open spec fn spec_y2(&self) -> int {
        self.spec_split().1
    }

    fn y2(&self) -> (r: i8) {
        let (_x, y) = self.split();
        y
    }
}

/// Shift data whose checks read bits of a 64-bit row and whose coordinates are valid.
pub open spec fn shift_data_ok<BC: LGolBgCoord>(sd: &LGolShiftData<BC>) -> bool {
    &&& sd.w_bg_coord.wf()
    &&& forall|k: int| 0 <= k < sd.checks@.len() ==> (#[trigger] sd.checks@[k]).1 < 64 && sd.checks@[k].2.wf()
}

/// The background coordinate of row `j` (0 the newest finished row) at base coordinate `base`.
pub open spec fn row_bg_coord<BC: LGolBgCoord>(sd: &LGolShiftData<BC>, base: BC, j: int) -> BC {
    base.spec_add(sd.w_bg_coord.spec_mul(-(j + 1)))
}

/// Whether some row of `hn` differs from the background whose cells are `cell` at the cell of
/// check `k`.
pub open spec fn check_differs<BC: LGolBgCoord + Copy, BS: RowTuple>(
    cell: spec_fn(BC) -> bool,
    sd: &LGolShiftData<BC>,
    hn: &LGolHashNode<BS, BC>,
    k: int,
) -> bool {
    let (c, idx, db) = sd.checks@[k];
    exists|j: int|
        0 <= j < BS::spec_len() && #[trigger] hn.rs.spec_rows()[j].spec_bit(idx as nat) != cell(
            row_bg_coord(sd, db.spec_add(hn.bg_coord), j),
        )
}

/// A periodic background: which cells are alive far from the pattern.
pub trait LGolBg<BC: LGolBgCoord + Copy>: Sized {
    /// Which background cells are alive, by coordinate.
    spec fn bg_cells(&self) -> spec_fn(BC) -> bool;

    fn bg_cell(&self, bg_coord: BC) -> (r: bool)
        requires
            bg_coord.wf(),
        ensures
            r == (self.bg_cells())(bg_coord),
    ;

    /// The coordinate of the first check (in order) where the rows differ from the background;
    /// `max_coord` when they never do.
    fn find_min<BS: RowTuple>(&self, sd: &LGolShiftData<BC>, hn: &LGolHashNode<BS, BC>) -> (r: isize)
        requires
            shift_data_ok(sd),
            hn.bg_coord.wf(),
            BS::spec_len() < 0x1000,
        ensures
            (exists|k: int|
                0 <= k < sd.checks@.len() && check_differs(self.bg_cells(), sd, hn, k) && r == sd.checks@[k].0 && forall|
                    k2: int,
                | 0 <= k2 < k ==> !#[trigger] check_differs(self.bg_cells(), sd, hn, k2)) || ((forall|k: int|
                0 <= k < sd.checks@.len() ==> !#[trigger] check_differs(self.bg_cells(), sd, hn, k)) && r == sd.max_coord),
    {
        proof {
            hn.rs.lemma_rows_len();
        }
        let mut k: usize = 0;
        while k < sd.checks.len()
            invariant
                shift_data_ok(sd),
                hn.bg_coord.wf(),
                BS::spec_len() < 0x1000,
                hn.rs.spec_rows().len() == BS::spec_len(),
                k <= sd.checks@.len(),
                forall|k2: int| 0 <= k2 < k ==> !#[trigger] check_differs(self.bg_cells(), sd, hn, k2),
            decreases sd.checks@.len() - k,
        {
            let (c, idx, db) = sd.checks[k];
            assert(sd.checks@[k as int].1 < 64 && sd.checks@[k as int].2.wf());
            let bg = db.add(hn.bg_coord);
            let mut j: usize = 0;
            while j < BS::len()
                invariant
                    shift_data_ok(sd),
                    hn.bg_coord.wf(),
                    BS::spec_len() < 0x1000,
                    hn.rs.spec_rows().len() == BS::spec_len(),
                    k < sd.checks@.len(),
                    forall|k2: int| 0 <= k2 < k ==> !#[trigger] check_differs(self.bg_cells(), sd, hn, k2),
                    (c, idx, db) == sd.checks@[k as int],
                    idx < 64,
                    bg == db.spec_add(hn.bg_coord),
                    bg.wf(),
                    j <= BS::spec_len(),
                    forall|j2: int|
                        0 <= j2 < j ==> #[trigger] hn.rs.spec_rows()[j2].spec_bit(idx as nat) == (self.bg_cells())(
                            row_bg_coord(sd, bg, j2),
                        ),
                decreases BS::spec_len() - j,
            {
                let r = hn.rs.get(j);
                let m = sd.w_bg_coord.mul(-((j as isize) + 1));
                let bgj = bg.add(m);
                let cell = self.bg_cell(bgj);
                if <u64 as Scalar>::get_bit(&r, idx) != cell {
                    assert(hn.rs.spec_rows()[j as int].spec_bit(idx as nat) != (self.bg_cells())(
                        row_bg_coord(sd, bg, j as int),
                    ));
                    assert(check_differs(self.bg_cells(), sd, hn, k as int));
                    return c;
                }
                j = j + 1;
            }
            assert(!check_differs(self.bg_cells(), sd, hn, k as int));
            k = k + 1;
        }
        sd.max_coord
    }

    /// The coordinate of the last check (in order) where the rows differ from the background;
    /// `min_coord` when they never do.
    fn find_max<BS: RowTuple>(&self, sd: &LGolShiftData<BC>, hn: &LGolHashNode<BS, BC>) -> (r: isize)
        requires
            shift_data_ok(sd),
            hn.bg_coord.wf(),
            BS::spec_len() < 0x1000,
        ensures
            (exists|k: int|
                0 <= k < sd.checks@.len() && check_differs(self.bg_cells(), sd, hn, k) && r == sd.checks@[k].0 && forall|
                    k2: int,
                | k < k2 < sd.checks@.len() ==> !#[trigger] check_differs(self.bg_cells(), sd, hn, k2)) || ((forall|k: int|
                0 <= k < sd.checks@.len() ==> !#[trigger] check_differs(self.bg_cells(), sd, hn, k)) && r == sd.min_coord),
    {
        proof {
            hn.rs.lemma_rows_len();
        }
        let mut k: usize = sd.checks.len();
        while k > 0
            invariant
                shift_data_ok(sd),
                hn.bg_coord.wf(),
                BS::spec_len() < 0x1000,
                hn.rs.spec_rows().len() == BS::spec_len(),
                k <= sd.checks@.len(),
                forall|k2: int| k <= k2 < sd.checks@.len() ==> !#[trigger] check_differs(self.bg_cells(), sd, hn, k2),
            decreases k,
        {
            let kk = k - 1;
            let (c, idx, db) = sd.checks[kk];
            assert(sd.checks@[kk as int].1 < 64 && sd.checks@[kk as int].2.wf());
            let bg = db.add(hn.bg_coord);
            let mut j: usize = 0;
            while j < BS::len()
                invariant
                    shift_data_ok(sd),
                    hn.bg_coord.wf(),
                    BS::spec_len() < 0x1000,
                    hn.rs.spec_rows().len() == BS::spec_len(),
                    kk < sd.checks@.len(),
                    kk + 1 == k,
                    forall|k2: int| k <= k2 < sd.checks@.len() ==> !#[trigger] check_differs(self.bg_cells(), sd, hn, k2),
                    (c, idx, db) == sd.checks@[kk as int],
                    idx < 64,
                    bg == db.spec_add(hn.bg_coord),
                    bg.wf(),
                    j <= BS::spec_len(),
                    forall|j2: int|
                        0 <= j2 < j ==> #[trigger] hn.rs.spec_rows()[j2].spec_bit(idx as nat) == (self.bg_cells())(
                            row_bg_coord(sd, bg, j2),
                        ),
                decreases BS::spec_len() - j,
            {
                let r = hn.rs.get(j);
                let m = sd.w_bg_coord.mul(-((j as isize) + 1));
                let bgj = bg.add(m);
                let cell = self.bg_cell(bgj);
                if <u64 as Scalar>::get_bit(&r, idx) != cell {
                    assert(hn.rs.spec_rows()[j as int].spec_bit(idx as nat) != (self.bg_cells())(
                        row_bg_coord(sd, bg, j as int),
                    ));
                    assert(check_differs(self.bg_cells(), sd, hn, kk as int));
                    return c;
                }
                j = j + 1;
            }
            assert(!check_differs(self.bg_cells(), sd, hn, kk as int));
            k = kk;
        }
        sd.min_coord
    }
}

/// An empty background.
#[derive(Clone, Copy)]
pub struct LGolBgEmpty();

impl<BC: LGolBgCoord + Copy> LGolBg<BC> for LGolBgEmpty {
    open spec fn bg_cells(&self) -> spec_fn(BC) -> bool {
        |c: BC| false
    }

    fn bg_cell(&self, bg_coord: BC) -> (r: bool) {
        false
    }
}

/// Vertical stripes: alive where `x` is even.
#[derive(Clone, Copy)]
pub struct LGolBgVertStripes();

impl<BC: LGolBgHasX2 + Copy> LGolBg<BC> for LGolBgVertStripes {
    open spec fn bg_cells(&self) -> spec_fn(BC) -> bool {
        |c: BC| c.spec_x2() == 0
    }

    fn bg_cell(&self, bg_coord: BC) -> (r: bool) {
        bg_coord.x2() == 0
    }
}

/// Horizontal stripes: alive where `y` is even.
#[derive(Clone, Copy)]
pub struct LGolBgHorizStripes();

impl<BC: LGolBgHasY2 + Copy> LGolBg<BC> for LGolBgHorizStripes {
    open spec fn bg_cells(&self) -> spec_fn(BC) -> bool {
        |c: BC| c.spec_y2() == 0
    }

    fn bg_cell(&self, bg_coord: BC) -> (r: bool) {
        bg_coord.y2() == 0
    }
}

} // verus!
