use vstd::prelude::*;

use crate::lgol::bg::LGolBg;
use crate::lgol::bg::LGolBgCoord;
use crate::lgol::bg::check_differs;
use crate::lgol::bg::shift_data_ok;
use crate::lgol::graph::LGolHashNode;
use crate::lgol::graph::RowTuple;
use crate::lgol::lat2::LGolShiftData;
use crate::scalar::Scalar;

verus! {

/// What reading a cell past the edge of an axis gives: a known value, a cell to read instead,
/// the cell wrapped around the axis, or nothing known.
#[derive(Clone, Copy, PartialEq, Eq, Structural, Debug)]
pub enum LGolEdgeRead {
    Known(bool),
    Update(isize),
    Wrap,
    Unknown,
}

/// Coordinates small enough that doubling them and adding a reflection stays in `isize`.
pub open spec fn edge_small(v: int) -> bool {
    -0x1000_0000 <= v <= 0x1000_0000
}

/// Reading coordinate `c` past the low edge `min` of an axis reflected `a` half-cells beyond it.
pub open spec fn reflect_low(min: int, a: int, c: int) -> LGolEdgeRead {
    let crit = 2 * min - a;
    let c2 = if 2 * c < crit {
        crit - c
    } else {
        c
    };
    if c2 < min {
        LGolEdgeRead::Known(false)
    } else {
        LGolEdgeRead::Update(c2 as isize)
    }
}

/// Reading coordinate `c` past the high edge `max` of an axis reflected `a` half-cells beyond
/// it.
pub open spec fn reflect_high(max: int, a: int, c: int) -> LGolEdgeRead {
    let crit = 2 * max + a;
    let c2 = if 2 * c > crit {
        crit - c
    } else {
        c
    };
    if c2 > max {
        LGolEdgeRead::Known(false)
    } else {
        LGolEdgeRead::Update(c2 as isize)
    }
}

/// One edge of an axis: what reading past it gives.
pub trait LGolEdge<BC> {
    spec fn spec_left_edge(&self, sd: &LGolShiftData<BC>, bg_coord: BC, c: int) -> LGolEdgeRead;

    spec fn spec_right_edge(&self, sd: &LGolShiftData<BC>, bg_coord: BC, c: int) -> LGolEdgeRead;

    spec fn edge_ok(&self, sd: &LGolShiftData<BC>, bg_coord: BC, c: int) -> bool;

    fn left_edge(&self, sd: &LGolShiftData<BC>, bg_coord: BC, c: isize) -> (r: LGolEdgeRead)
        requires
            self.edge_ok(sd, bg_coord, c as int),
        ensures
            r == self.spec_left_edge(sd, bg_coord, c as int),
    ;

    fn right_edge(&self, sd: &LGolShiftData<BC>, bg_coord: BC, c: isize) -> (r: LGolEdgeRead)
        requires
            self.edge_ok(sd, bg_coord, c as int),
        ensures
            r == self.spec_right_edge(sd, bg_coord, c as int),
    ;

    spec fn spec_is_wrap(&self) -> bool;

    fn is_wrap(&self) -> (r: bool)
        ensures
            r == self.spec_is_wrap(),
    ;
}

/// An edge that always reads the same.
#[derive(Clone, Copy)]
pub struct LGolSimpleEdge(pub LGolEdgeRead);

impl<BC> LGolEdge<BC> for LGolSimpleEdge {
    open spec fn spec_left_edge(&self, sd: &LGolShiftData<BC>, bg_coord: BC, c: int) -> LGolEdgeRead {
        self.0
    }

    open spec fn spec_right_edge(&self, sd: &LGolShiftData<BC>, bg_coord: BC, c: int) -> LGolEdgeRead {
        self.0
    }

    open spec fn edge_ok(&self, sd: &LGolShiftData<BC>, bg_coord: BC, c: int) -> bool {
        true
    }

    fn left_edge(&self, sd: &LGolShiftData<BC>, bg_coord: BC, c: isize) -> (r: LGolEdgeRead) {
        self.0
    }

    fn right_edge(&self, sd: &LGolShiftData<BC>, bg_coord: BC, c: isize) -> (r: LGolEdgeRead) {
        self.0
    }

    open spec fn spec_is_wrap(&self) -> bool {
        self.0 == LGolEdgeRead::Wrap
    }

    fn is_wrap(&self) -> (r: bool) {
        match self.0 {
            LGolEdgeRead::Wrap => true,
            _ => false,
        }
    }
}

/// An edge past which the background lies.
#[derive(Clone, Copy)]
pub struct LGolBgEdge<BG>(pub BG);

impl<BC: LGolBgCoord + Copy, BG: LGolBg<BC>> LGolEdge<BC> for LGolBgEdge<BG> {
    open spec fn spec_left_edge(&self, sd: &LGolShiftData<BC>, bg_coord: BC, c: int) -> LGolEdgeRead {
        LGolEdgeRead::Known((self.0.bg_cells())(bg_coord))
    }

    open spec fn spec_right_edge(&self, sd: &LGolShiftData<BC>, bg_coord: BC, c: int) -> LGolEdgeRead {
        LGolEdgeRead::Known((self.0.bg_cells())(bg_coord))
    }

    open spec fn edge_ok(&self, sd: &LGolShiftData<BC>, bg_coord: BC, c: int) -> bool {
        bg_coord.wf()
    }

    fn left_edge(&self, sd: &LGolShiftData<BC>, bg_coord: BC, c: isize) -> (r: LGolEdgeRead) {
        LGolEdgeRead::Known(self.0.bg_cell(bg_coord))
    }

    fn right_edge(&self, sd: &LGolShiftData<BC>, bg_coord: BC, c: isize) -> (r: LGolEdgeRead) {
        LGolEdgeRead::Known(self.0.bg_cell(bg_coord))
    }

    open spec fn spec_is_wrap(&self) -> bool {
        false
    }

    fn is_wrap(&self) -> (r: bool) {
        false
    }
}

/// An edge the pattern is mirrored across; `self.0` places the mirror in half cells beyond the
/// edge (0: odd symmetry, 1: even, 2: a gutter of empty cells).
#[derive(Clone, Copy)]
pub struct LGolReflectEdge(pub isize);

impl<BC> LGolEdge<BC> for LGolReflectEdge {
    open spec fn spec_left_edge(&self, sd: &LGolShiftData<BC>, bg_coord: BC, c: int) -> LGolEdgeRead {
        reflect_low(sd.min_coord as int, self.0 as int, c)
    }

    open spec fn spec_right_edge(&self, sd: &LGolShiftData<BC>, bg_coord: BC, c: int) -> LGolEdgeRead {
        reflect_high(sd.max_coord as int, self.0 as int, c)
    }

    open spec fn edge_ok(&self, sd: &LGolShiftData<BC>, bg_coord: BC, c: int) -> bool {
        edge_small(sd.min_coord as int) && edge_small(sd.max_coord as int) && edge_small(self.0 as int)
            && edge_small(c)
    }

    fn left_edge(&self, sd: &LGolShiftData<BC>, bg_coord: BC, c: isize) -> (r: LGolEdgeRead) {
        let mut c = c;
        let double_crit = 2 * sd.min_coord - self.0;
        if 2 * c < double_crit {
            c = double_crit - c;
        }
        if c < sd.min_coord {
            return LGolEdgeRead::Known(false);
        }
        LGolEdgeRead::Update(c)
    }

    fn right_edge(&self, sd: &LGolShiftData<BC>, bg_coord: BC, c: isize) -> (r: LGolEdgeRead) {
        let mut c = c;
        let double_crit = 2 * sd.max_coord + self.0;
        if 2 * c > double_crit {
            c = double_crit - c;
        }
        if c > sd.max_coord {
            return LGolEdgeRead::Known(false);
        }
        LGolEdgeRead::Update(c)
    }

    open spec fn spec_is_wrap(&self) -> bool {
        false
    }

    fn is_wrap(&self) -> (r: bool) {
        false
    }
}

/// An axis made of two edges.
#[derive(Clone, Copy)]
pub struct LGolSimpleAxis<LE, RE> {
    pub left_edge: LE,
    pub right_edge: RE,
}

impl<LE, RE> LGolSimpleAxis<LE, RE> {
    /// Patterns along this axis are printed wrapped when both of its edges wrap.
    pub fn wrap_in_print<BC>(&self) -> (r: bool)
        where
            LE: LGolEdge<BC>,
            RE: LGolEdge<BC>,
        ensures
            r == (LGolEdge::<BC>::spec_is_wrap(&self.left_edge) && LGolEdge::<BC>::spec_is_wrap(&self.right_edge)),
    {
        LGolEdge::<BC>::is_wrap(&self.left_edge) && LGolEdge::<BC>::is_wrap(&self.right_edge)
    }
}

/// An axis with a background on each side, along which patterns are recentred.
#[derive(Clone, Copy)]
pub struct LGolFancyAxis<LBG, RBG> {
    pub left_bg: LBG,
    pub right_bg: RBG,
}

impl<LBG, RBG> LGolFancyAxis<LBG, RBG> {
    /// Reading past the left edge gives the left background.
    pub fn left_edge<BC: LGolBgCoord + Copy>(&self, bg_coord: BC) -> (r: LGolEdgeRead)
        where
            LBG: LGolBg<BC>,
        requires
            bg_coord.wf(),
        ensures
            r == LGolEdgeRead::Known((self.left_bg.bg_cells())(bg_coord)),
    {
        LGolEdgeRead::Known(self.left_bg.bg_cell(bg_coord))
    }

    /// Reading past the right edge gives the right background.
    pub fn right_edge<BC: LGolBgCoord + Copy>(&self, bg_coord: BC) -> (r: LGolEdgeRead)
        where
            RBG: LGolBg<BC>,
        requires
            bg_coord.wf(),
        ensures
            r == LGolEdgeRead::Known((self.right_bg.bg_cells())(bg_coord)),
    {
        LGolEdgeRead::Known(self.right_bg.bg_cell(bg_coord))
    }
}

/// An axis that wraps around, whose period is divided: cells a division apart must agree, up
/// to `mf` exceptions.
#[derive(Clone, Copy)]
pub struct LGolPeriodDividingAxis {
    pub division: usize,
    pub mf: u8,
}

impl LGolPeriodDividingAxis {
    /// Reading past either edge wraps around.
    pub fn edge(&self) -> (r: LGolEdgeRead)
        ensures
            r == LGolEdgeRead::Wrap,
    {
        LGolEdgeRead::Wrap
    }
}

/// Shift data whose shift rows name bits of a 64-bit row at valid coordinates, short enough to
/// shift by a small amount.
pub open spec fn shift_rows_ok<BC: LGolBgCoord>(sd: &LGolShiftData<BC>) -> bool {
    &&& sd.w_bg_coord.wf()
    &&& sd.bg_period.wf()
    &&& forall|r: int, i: int|
        0 <= r < sd.shift_rows@.len() && 0 <= i < sd.shift_rows@[r]@.len() ==> (#[trigger] sd.shift_rows@[r]@[i]).0 < 64
            && sd.shift_rows@[r]@[i].1.wf()
    &&& forall|r: int| 0 <= r < sd.shift_rows@.len() ==> (#[trigger] sd.shift_rows@[r]@).len() < 0x1000_0000
}

/// The background coordinate, after moving by `delta`, of entry `i` of shift row `r` in row `j`.
pub open spec fn shifted_bg<BC: LGolBgCoord, BS>(sd: &LGolShiftData<BC>, hn: &LGolHashNode<BS, BC>, delta: int, r: int, i: int, j: int) -> BC {
    hn.bg_coord.spec_add(sd.bg_period.spec_mul(delta)).spec_add(sd.shift_rows@[r]@[i].1).spec_add(
        sd.w_bg_coord.spec_mul(-(j + 1)),
    )
}

/// The cell that moving the rows of `hn` by `delta` places at entry `i` of shift row `r`, in
/// row `j`: the cell `delta` entries on along the shift row, or the background past its ends.
pub open spec fn shifted_cell<BC: LGolBgCoord + Copy, BS: RowTuple, LBG: LGolBg<BC>, RBG: LGolBg<BC>>(
    ax: &LGolFancyAxis<LBG, RBG>,
    sd: &LGolShiftData<BC>,
    hn: &LGolHashNode<BS, BC>,
    delta: int,
    r: int,
    i: int,
    j: int,
) -> bool {
    let row = sd.shift_rows@[r]@;
    let i2 = i + delta;
    if i2 < 0 {
        (ax.left_bg.bg_cells())(shifted_bg(sd, hn, delta, r, i, j))
    } else if i2 >= row.len() {
        (ax.right_bg.bg_cells())(shifted_bg(sd, hn, delta, r, i, j))
    } else {
        hn.rs.spec_rows()[j].spec_bit(row[i2].0 as nat)
    }
}

/// `out` is `hn` moved by `delta` along the axis: its background coordinate moved by `delta`
/// periods, and each bit set exactly where some shift-row entry naming it gets a live cell.
pub open spec fn is_shifted<BC: LGolBgCoord + Copy, BS: RowTuple, LBG: LGolBg<BC>, RBG: LGolBg<BC>>(
    ax: &LGolFancyAxis<LBG, RBG>,
    sd: &LGolShiftData<BC>,
    hn: &LGolHashNode<BS, BC>,
    delta: int,
    out: &LGolHashNode<BS, BC>,
) -> bool {
    if delta == 0 {
        *out == *hn
    } else {
        &&& out.bg_coord == hn.bg_coord.spec_add(sd.bg_period.spec_mul(delta))
        &&& forall|j: int, b: nat|
            0 <= j < BS::spec_len() ==> (#[trigger] out.rs.spec_rows()[j].spec_bit(b) <==> exists|r: int, i: int|
                0 <= r < sd.shift_rows@.len() && 0 <= i < sd.shift_rows@[r]@.len() && sd.shift_rows@[r]@[i].0 == b
                    && #[trigger] shifted_cell(ax, sd, hn, delta, r, i, j))
    }
}

fn set_row_bit<BS: RowTuple>(rs: &mut BS, j: usize, b: usize)
    requires
        j < BS::spec_len(),
        b < 64,
    ensures
        final(rs).spec_rows().len() == old(rs).spec_rows().len(),
        final(rs).spec_rows()[j as int].spec_bit(b as nat),
        forall|b2: nat| b2 != b ==> (#[trigger] final(rs).spec_rows()[j as int].spec_bit(b2) == old(rs).spec_rows()[j as int].spec_bit(b2)),
        forall|j2: int| 0 <= j2 < BS::spec_len() && j2 != j ==> #[trigger] final(rs).spec_rows()[j2] == old(rs).spec_rows()[j2],
{
    proof {
        rs.lemma_rows_len();
    }
    let mut v = rs.get(j);
    <u64 as Scalar>::set_bit(&mut v, b, true);
    rs.set(j, v);
    proof {
        rs.lemma_rows_len();
    }
}

impl<LBG, RBG> LGolFancyAxis<LBG, RBG> {
    /// Moves the rows of `hn` by `delta` entries along each shift row, filling from the
    /// backgrounds past the ends, and moves its background coordinate to match.
    pub fn shift<BS: RowTuple, BC: LGolBgCoord + Copy>(&self, sd: &LGolShiftData<BC>, hn: LGolHashNode<BS, BC>, delta: isize) -> (r: LGolHashNode<BS, BC>)
        where
            LBG: LGolBg<BC>,
            RBG: LGolBg<BC>,
        requires
            shift_rows_ok(sd),
            hn.bg_coord.wf(),
            -0x1000_0000 <= delta <= 0x1000_0000,
            BS::spec_len() < 0x1000,
        ensures
            is_shifted(self, sd, &hn, delta as int, &r),
            r.bg_coord.wf(),
    {
        if delta == 0 {
            return hn;
        }
        proof {
            hn.rs.lemma_rows_len();
        }
        let bg_coord = hn.bg_coord.add(sd.bg_period.mul(delta));
        let mut rss = BS::zero();
        let z = <u64 as Scalar>::zero();
        let mut j0: usize = 0;
        while j0 < BS::len()
            invariant
                j0 <= BS::spec_len(),
                rss.spec_rows().len() == BS::spec_len(),
                forall|i: nat| !#[trigger] z.spec_bit(i),
                forall|j: int| 0 <= j < j0 ==> #[trigger] rss.spec_rows()[j] == z,
            decreases BS::spec_len() - j0,
        {
            rss.set(j0, z);
            j0 = j0 + 1;
        }
        let ghost d = delta as int;
        let mut r: usize = 0;
        while r < sd.shift_rows.len()
            invariant
                r <= sd.shift_rows@.len(),
                shift_rows_ok(sd),
                hn.bg_coord.wf(),
                bg_coord.wf(),
                bg_coord == hn.bg_coord.spec_add(sd.bg_period.spec_mul(d)),
                d == delta,
                -0x1000_0000 <= delta <= 0x1000_0000,
                BS::spec_len() < 0x1000,
                hn.rs.spec_rows().len() == BS::spec_len(),
                rss.spec_rows().len() == BS::spec_len(),
                forall|j: int, b: nat|
                    0 <= j < BS::spec_len() ==> (#[trigger] rss.spec_rows()[j].spec_bit(b) <==> exists|r2: int, i: int|
                        0 <= r2 < r && 0 <= i < sd.shift_rows@[r2]@.len() && sd.shift_rows@[r2]@[i].0 == b
                            && #[trigger] shifted_cell(self, sd, &hn, d, r2, i, j)),
            decreases sd.shift_rows@.len() - r,
        {
            let shift_row = &sd.shift_rows[r];
            assert(shift_row@ == sd.shift_rows@[r as int]@);
            let mut i: usize = 0;
            while i < shift_row.len()
                invariant
                    r < sd.shift_rows@.len(),
                    shift_row@ == sd.shift_rows@[r as int]@,
                    i <= shift_row@.len(),
                    shift_rows_ok(sd),
                    hn.bg_coord.wf(),
                    bg_coord.wf(),
                    bg_coord == hn.bg_coord.spec_add(sd.bg_period.spec_mul(d)),
                    d == delta,
                    -0x1000_0000 <= delta <= 0x1000_0000,
                    BS::spec_len() < 0x1000,
                    hn.rs.spec_rows().len() == BS::spec_len(),
                    rss.spec_rows().len() == BS::spec_len(),
                    forall|j: int, b: nat|
                        0 <= j < BS::spec_len() ==> (#[trigger] rss.spec_rows()[j].spec_bit(b) <==> (exists|r2: int, i2: int|
                            0 <= r2 < r && 0 <= i2 < sd.shift_rows@[r2]@.len() && sd.shift_rows@[r2]@[i2].0 == b
                                && #[trigger] shifted_cell(self, sd, &hn, d, r2, i2, j)) || (exists|i2: int|
                            0 <= i2 < i && sd.shift_rows@[r as int]@[i2].0 == b && #[trigger] shifted_cell(self, sd, &hn, d, r as int, i2, j))),
                decreases shift_row@.len() - i,
            {
                let (idx, db) = shift_row[i];
                assert(sd.shift_rows@[r as int]@[i as int] == (idx, db));
                assert(idx < 64 && db.wf());
                let bg_i = bg_coord.add(db);
                let i2 = (i as isize) + delta;
                let mut j: usize = 0;
                while j < BS::len()
                    invariant
                        r < sd.shift_rows@.len(),
                        shift_row@ == sd.shift_rows@[r as int]@,
                        i < shift_row@.len(),
                        (idx, db) == shift_row@[i as int],
                        idx < 64,
                        db.wf(),
                        bg_i == bg_coord.spec_add(db),
                        bg_i.wf(),
                        i2 == i + delta,
                        j <= BS::spec_len(),
                        shift_rows_ok(sd),
                        hn.bg_coord.wf(),
                        bg_coord == hn.bg_coord.spec_add(sd.bg_period.spec_mul(d)),
                        d == delta,
                        BS::spec_len() < 0x1000,
                        hn.rs.spec_rows().len() == BS::spec_len(),
                        rss.spec_rows().len() == BS::spec_len(),
                        forall|j3: int, b: nat|
                            0 <= j3 < BS::spec_len() ==> (#[trigger] rss.spec_rows()[j3].spec_bit(b) <==> (exists|r2: int, i3: int|
                                0 <= r2 < r && 0 <= i3 < sd.shift_rows@[r2]@.len() && sd.shift_rows@[r2]@[i3].0 == b
                                    && #[trigger] shifted_cell(self, sd, &hn, d, r2, i3, j3)) || (exists|i3: int|
                                0 <= i3 < i && sd.shift_rows@[r as int]@[i3].0 == b && #[trigger] shifted_cell(self, sd, &hn, d, r as int, i3, j3))
                                || (j3 < j && idx == b && shifted_cell(self, sd, &hn, d, r as int, i as int, j3))),
                    decreases BS::spec_len() - j,
                {
                    let m = sd.w_bg_coord.mul(-((j as isize) + 1));
                    let bgj = bg_i.add(m);
                    assert(bgj == shifted_bg(sd, &hn, d, r as int, i as int, j as int));
                    let b = if i2 < 0 {
                        self.left_bg.bg_cell(bgj)
                    } else if (i2 as usize) >= shift_row.len() {
                        self.right_bg.bg_cell(bgj)
                    } else {
                        let (idx2, _) = shift_row[i2 as usize];
                        assert(idx2 == sd.shift_rows@[r as int]@[i2 as int].0);
                        let row = hn.rs.get(j);
                        <u64 as Scalar>::get_bit(&row, idx2)
                    };
                    assert(b == shifted_cell(self, sd, &hn, d, r as int, i as int, j as int));
                    let ghost before = rss;
                    if b {
                        set_row_bit(&mut rss, j, idx);
                    }
                    assert forall|j3: int, b2: nat|
                        0 <= j3 < BS::spec_len() implies (#[trigger] rss.spec_rows()[j3].spec_bit(b2) <==> (exists|r2: int, i3: int|
                            0 <= r2 < r && 0 <= i3 < sd.shift_rows@[r2]@.len() && sd.shift_rows@[r2]@[i3].0 == b2
                                && #[trigger] shifted_cell(self, sd, &hn, d, r2, i3, j3)) || (exists|i3: int|
                            0 <= i3 < i && sd.shift_rows@[r as int]@[i3].0 == b2 && #[trigger] shifted_cell(self, sd, &hn, d, r as int, i3, j3))
                            || (j3 < j + 1 && idx == b2 && shifted_cell(self, sd, &hn, d, r as int, i as int, j3))) by {
                        if b && j3 == j && b2 == idx {
                        } else if b && j3 == j {
                            assert(rss.spec_rows()[j3].spec_bit(b2) == before.spec_rows()[j3].spec_bit(b2));
                        } else if b {
                            assert(rss.spec_rows()[j3] == before.spec_rows()[j3]);
                        }
                    }
                    j = j + 1;
                }
                assert forall|j3: int, b2: nat|
                    0 <= j3 < BS::spec_len() implies (#[trigger] rss.spec_rows()[j3].spec_bit(b2) <==> (exists|r2: int, i3: int|
                        0 <= r2 < r && 0 <= i3 < sd.shift_rows@[r2]@.len() && sd.shift_rows@[r2]@[i3].0 == b2
                            && #[trigger] shifted_cell(self, sd, &hn, d, r2, i3, j3)) || (exists|i3: int|
                        0 <= i3 < i + 1 && sd.shift_rows@[r as int]@[i3].0 == b2 && #[trigger] shifted_cell(self, sd, &hn, d, r as int, i3, j3))) by {
                    if exists|i3: int|
                        0 <= i3 < i + 1 && sd.shift_rows@[r as int]@[i3].0 == b2 && #[trigger] shifted_cell(self, sd, &hn, d, r as int, i3, j3) {
                        let i3 = choose|i3: int|
                            0 <= i3 < i + 1 && sd.shift_rows@[r as int]@[i3].0 == b2 && #[trigger] shifted_cell(self, sd, &hn, d, r as int, i3, j3);
                        if i3 == i {
                            assert(shifted_cell(self, sd, &hn, d, r as int, i as int, j3));
                        }
                    }
                }
                i = i + 1;
            }
            assert forall|j3: int, b2: nat|
                0 <= j3 < BS::spec_len() implies (#[trigger] rss.spec_rows()[j3].spec_bit(b2) <==> exists|r2: int, i3: int|
                    0 <= r2 < r + 1 && 0 <= i3 < sd.shift_rows@[r2]@.len() && sd.shift_rows@[r2]@[i3].0 == b2
                        && #[trigger] shifted_cell(self, sd, &hn, d, r2, i3, j3)) by {
                if exists|r2: int, i3: int|
                    0 <= r2 < r + 1 && 0 <= i3 < sd.shift_rows@[r2]@.len() && sd.shift_rows@[r2]@[i3].0 == b2
                        && #[trigger] shifted_cell(self, sd, &hn, d, r2, i3, j3) {
                    let (r2, i3) = choose|r2: int, i3: int|
                        0 <= r2 < r + 1 && 0 <= i3 < sd.shift_rows@[r2]@.len() && sd.shift_rows@[r2]@[i3].0 == b2
                            && #[trigger] shifted_cell(self, sd, &hn, d, r2, i3, j3);
                    if r2 == r {
                        assert(shifted_cell(self, sd, &hn, d, r as int, i3, j3));
                    }
                }
            }
            r = r + 1;
        }
        let out = LGolHashNode { bg_coord: bg_coord, rs: rss };
        out
    }
}

/// `m` is what `find_min` gives for the background `cells`: the coordinate of the first check
/// where `hn` differs from the background, or `max_coord` where it never does.
pub open spec fn min_read<BC: LGolBgCoord + Copy, BS: RowTuple>(
    cells: spec_fn(BC) -> bool,
    sd: &LGolShiftData<BC>,
    hn: &LGolHashNode<BS, BC>,
    m: int,
) -> bool {
    ||| exists|k: int|
        0 <= k < sd.checks@.len() && check_differs(cells, sd, hn, k) && m == sd.checks@[k].0 && forall|k2: int|
            0 <= k2 < k ==> !#[trigger] check_differs(cells, sd, hn, k2)
    ||| (forall|k: int| 0 <= k < sd.checks@.len() ==> !#[trigger] check_differs(cells, sd, hn, k)) && m == sd.max_coord
}

/// `m` is what `find_max` gives for the background `cells`: the coordinate of the last check
/// where `hn` differs from the background, or `min_coord` where it never does.
pub open spec fn max_read<BC: LGolBgCoord + Copy, BS: RowTuple>(
    cells: spec_fn(BC) -> bool,
    sd: &LGolShiftData<BC>,
    hn: &LGolHashNode<BS, BC>,
    m: int,
) -> bool {
    ||| exists|k: int|
        0 <= k < sd.checks@.len() && check_differs(cells, sd, hn, k) && m == sd.checks@[k].0 && forall|k2: int|
            k < k2 < sd.checks@.len() ==> !#[trigger] check_differs(cells, sd, hn, k2)
    ||| (forall|k: int| 0 <= k < sd.checks@.len() ==> !#[trigger] check_differs(cells, sd, hn, k)) && m == sd.min_coord
}

/// Shift data with a positive period and coordinates small enough to recentre without
/// overflow.
pub open spec fn axis_small<BC>(sd: &LGolShiftData<BC>) -> bool {
    &&& 1 <= sd.period <= 0x100_0000
    &&& -0x100_0000 <= sd.min_coord <= 0x100_0000
    &&& -0x100_0000 <= sd.max_coord <= 0x100_0000
    &&& forall|k: int| 0 <= k < sd.checks@.len() ==> -0x100_0000 <= (#[trigger] sd.checks@[k]).0 <= 0x100_0000
}

impl<LBG, RBG> LGolFancyAxis<LBG, RBG> {
    /// Moves `hn` along the axis by whole periods so that its live extent, from where it first
    /// to where it last differs from the backgrounds, is centred like the lattice's own; gives
    /// the move and the moved node.
    pub fn recenter<BS: RowTuple, BC: LGolBgCoord + Copy>(&self, sd: &LGolShiftData<BC>, hn: LGolHashNode<BS, BC>) -> (r: (isize, LGolHashNode<BS, BC>))
        where
            LBG: LGolBg<BC>,
            RBG: LGolBg<BC>,
        requires
            shift_rows_ok(sd),
            shift_data_ok(sd),
            axis_small(sd),
            hn.bg_coord.wf(),
            BS::spec_len() < 0x1000,
        ensures
            exists|m: int, mm: int|
                #![trigger min_read(self.left_bg.bg_cells(), sd, &hn, m), max_read(self.right_bg.bg_cells(), sd, &hn, mm)]
                min_read(self.left_bg.bg_cells(), sd, &hn, m) && max_read(self.right_bg.bg_cells(), sd, &hn, mm)
                    && r.0 == ((m + mm) - (sd.min_coord + sd.max_coord) + sd.period) / (2 * sd.period),
            is_shifted(self, sd, &hn, r.0 as int, &r.1),
            r.1.bg_coord.wf(),
            -0x1000_0000 <= r.0 <= 0x1000_0000,
    {
        let min = self.left_bg.find_min(sd, &hn);
        let max = self.right_bg.find_max(sd, &hn);
        assert(min_read(self.left_bg.bg_cells(), sd, &hn, min as int));
        assert(max_read(self.right_bg.bg_cells(), sd, &hn, max as int));
        assert(-0x100_0000 <= min <= 0x100_0000) by {
            if exists|k: int| 0 <= k < sd.checks@.len() && check_differs(self.left_bg.bg_cells(), sd, &hn, k) && min == sd.checks@[k].0 && forall|k2: int|
                0 <= k2 < k ==> !#[trigger] check_differs(self.left_bg.bg_cells(), sd, &hn, k2) {
                let k = choose|k: int| 0 <= k < sd.checks@.len() && check_differs(self.left_bg.bg_cells(), sd, &hn, k) && min == sd.checks@[k].0 && forall|k2: int|
                    0 <= k2 < k ==> !#[trigger] check_differs(self.left_bg.bg_cells(), sd, &hn, k2);
                assert(-0x100_0000 <= sd.checks@[k].0 <= 0x100_0000);
            }
        }
        assert(-0x100_0000 <= max <= 0x100_0000) by {
            if exists|k: int| 0 <= k < sd.checks@.len() && check_differs(self.right_bg.bg_cells(), sd, &hn, k) && max == sd.checks@[k].0 && forall|k2: int|
                k < k2 < sd.checks@.len() ==> !#[trigger] check_differs(self.right_bg.bg_cells(), sd, &hn, k2) {
                let k = choose|k: int| 0 <= k < sd.checks@.len() && check_differs(self.right_bg.bg_cells(), sd, &hn, k) && max == sd.checks@[k].0 && forall|k2: int|
                    k < k2 < sd.checks@.len() ==> !#[trigger] check_differs(self.right_bg.bg_cells(), sd, &hn, k2);
                assert(-0x100_0000 <= sd.checks@[k].0 <= 0x100_0000);
            }
        }
        let num = (min + max) - (sd.min_coord + sd.max_coord) + sd.period;
        let den = 2 * sd.period;
        assert(-0x1000_0000 <= num / den <= 0x1000_0000) by {
            vstd::arithmetic::div_mod::lemma_fundamental_div_mod(num as int, den as int);
            assert(-0x1000_0000 <= num / den <= 0x1000_0000) by (nonlinear_arith)
                requires
                    den >= 2,
                    -0x500_0000 <= num <= 0x500_0000,
                    num == den * (num / den) + num % den,
                    0 <= num % den < den,
            ;
        }
        let delta = num.checked_div_euclid(den).unwrap();
        assert(delta == num / den);
        assert(min_read(self.left_bg.bg_cells(), sd, &hn, min as int) && max_read(self.right_bg.bg_cells(), sd, &hn, max as int)
            && delta == ((min + max) - (sd.min_coord + sd.max_coord) + sd.period) / (2 * sd.period));
        let out = self.shift(sd, hn, delta);
        (delta, out)
    }

    /// Moves `hn` along the axis by whole periods so that where it first differs from the left
    /// background sits in the lattice's first period; gives the move and the moved node.
    pub fn justify<BS: RowTuple, BC: LGolBgCoord + Copy>(&self, sd: &LGolShiftData<BC>, hn: LGolHashNode<BS, BC>) -> (r: (isize, LGolHashNode<BS, BC>))
        where
            LBG: LGolBg<BC>,
            RBG: LGolBg<BC>,
        requires
            shift_rows_ok(sd),
            shift_data_ok(sd),
            axis_small(sd),
            hn.bg_coord.wf(),
            BS::spec_len() < 0x1000,
        ensures
            exists|m: int|
                #[trigger] min_read(self.left_bg.bg_cells(), sd, &hn, m) && r.0 == (m - sd.min_coord) / (sd.period as int),
            is_shifted(self, sd, &hn, r.0 as int, &r.1),
            r.1.bg_coord.wf(),
            -0x1000_0000 <= r.0 <= 0x1000_0000,
    {
        let min = self.left_bg.find_min(sd, &hn);
        assert(min_read(self.left_bg.bg_cells(), sd, &hn, min as int));
        assert(-0x100_0000 <= min <= 0x100_0000) by {
            if exists|k: int| 0 <= k < sd.checks@.len() && check_differs(self.left_bg.bg_cells(), sd, &hn, k) && min == sd.checks@[k].0 && forall|k2: int|
                0 <= k2 < k ==> !#[trigger] check_differs(self.left_bg.bg_cells(), sd, &hn, k2) {
                let k = choose|k: int| 0 <= k < sd.checks@.len() && check_differs(self.left_bg.bg_cells(), sd, &hn, k) && min == sd.checks@[k].0 && forall|k2: int|
                    0 <= k2 < k ==> !#[trigger] check_differs(self.left_bg.bg_cells(), sd, &hn, k2);
                assert(-0x100_0000 <= sd.checks@[k].0 <= 0x100_0000);
            }
        }
        let num = min - sd.min_coord;
        assert(-0x1000_0000 <= num / sd.period <= 0x1000_0000) by {
            vstd::arithmetic::div_mod::lemma_fundamental_div_mod(num as int, sd.period as int);
            assert(-0x1000_0000 <= num / sd.period <= 0x1000_0000) by (nonlinear_arith)
                requires
                    sd.period >= 1,
                    -0x300_0000 <= num <= 0x300_0000,
                    num == sd.period * (num / sd.period) + num % sd.period,
                    0 <= num % sd.period < sd.period,
            ;
        }
        let delta = num.checked_div_euclid(sd.period).unwrap();
        assert(delta == num / sd.period);
        assert(min_read(self.left_bg.bg_cells(), sd, &hn, min as int) && delta == (min - sd.min_coord) / (sd.period as int));
        let out = self.shift(sd, hn, delta);
        (delta, out)
    }
}

proof fn lemma_min_read_unique<BC: LGolBgCoord + Copy, BS: RowTuple>(
    cells: spec_fn(BC) -> bool,
    sd: &LGolShiftData<BC>,
    hn: &LGolHashNode<BS, BC>,
    m1: int,
    m2: int,
)
    requires
        min_read(cells, sd, hn, m1),
        min_read(cells, sd, hn, m2),
    ensures
        m1 == m2,
{
    if exists|k: int|
        0 <= k < sd.checks@.len() && check_differs(cells, sd, hn, k) && m1 == sd.checks@[k].0 && forall|k2: int|
            0 <= k2 < k ==> !#[trigger] check_differs(cells, sd, hn, k2) {
        let k1 = choose|k: int|
            0 <= k < sd.checks@.len() && check_differs(cells, sd, hn, k) && m1 == sd.checks@[k].0 && forall|k2: int|
                0 <= k2 < k ==> !#[trigger] check_differs(cells, sd, hn, k2);
        if exists|k: int|
            0 <= k < sd.checks@.len() && check_differs(cells, sd, hn, k) && m2 == sd.checks@[k].0 && forall|k2: int|
                0 <= k2 < k ==> !#[trigger] check_differs(cells, sd, hn, k2) {
            let k2 = choose|k: int|
                0 <= k < sd.checks@.len() && check_differs(cells, sd, hn, k) && m2 == sd.checks@[k].0 && forall|k2: int|
                    0 <= k2 < k ==> !#[trigger] check_differs(cells, sd, hn, k2);
            assert(k1 == k2);
        } else {
            assert(!check_differs(cells, sd, hn, k1));
        }
    } else {
        if exists|k: int|
            0 <= k < sd.checks@.len() && check_differs(cells, sd, hn, k) && m2 == sd.checks@[k].0 && forall|k2: int|
                0 <= k2 < k ==> !#[trigger] check_differs(cells, sd, hn, k2) {
            let k2 = choose|k: int|
                0 <= k < sd.checks@.len() && check_differs(cells, sd, hn, k) && m2 == sd.checks@[k].0 && forall|k2: int|
                    0 <= k2 < k ==> !#[trigger] check_differs(cells, sd, hn, k2);
            assert(!check_differs(cells, sd, hn, k2));
        }
    }
}

proof fn lemma_max_read_unique<BC: LGolBgCoord + Copy, BS: RowTuple>(
    cells: spec_fn(BC) -> bool,
    sd: &LGolShiftData<BC>,
    hn: &LGolHashNode<BS, BC>,
    m1: int,
    m2: int,
)
    requires
        max_read(cells, sd, hn, m1),
        max_read(cells, sd, hn, m2),
    ensures
        m1 == m2,
{
    if exists|k: int|
        0 <= k < sd.checks@.len() && check_differs(cells, sd, hn, k) && m1 == sd.checks@[k].0 && forall|k2: int|
            k < k2 < sd.checks@.len() ==> !#[trigger] check_differs(cells, sd, hn, k2) {
        let k1 = choose|k: int|
            0 <= k < sd.checks@.len() && check_differs(cells, sd, hn, k) && m1 == sd.checks@[k].0 && forall|k2: int|
                k < k2 < sd.checks@.len() ==> !#[trigger] check_differs(cells, sd, hn, k2);
        if exists|k: int|
            0 <= k < sd.checks@.len() && check_differs(cells, sd, hn, k) && m2 == sd.checks@[k].0 && forall|k2: int|
                k < k2 < sd.checks@.len() ==> !#[trigger] check_differs(cells, sd, hn, k2) {
            let k2 = choose|k: int|
                0 <= k < sd.checks@.len() && check_differs(cells, sd, hn, k) && m2 == sd.checks@[k].0 && forall|k2: int|
                    k < k2 < sd.checks@.len() ==> !#[trigger] check_differs(cells, sd, hn, k2);
            assert(k1 == k2);
        } else {
            assert(!check_differs(cells, sd, hn, k1));
        }
    } else {
        if exists|k: int|
            0 <= k < sd.checks@.len() && check_differs(cells, sd, hn, k) && m2 == sd.checks@[k].0 && forall|k2: int|
                k < k2 < sd.checks@.len() ==> !#[trigger] check_differs(cells, sd, hn, k2) {
            let k2 = choose|k: int|
                0 <= k < sd.checks@.len() && check_differs(cells, sd, hn, k) && m2 == sd.checks@[k].0 && forall|k2: int|
                    k < k2 < sd.checks@.len() ==> !#[trigger] check_differs(cells, sd, hn, k2);
            assert(!check_differs(cells, sd, hn, k2));
        }
    }
}

proof fn lemma_is_shifted_unique<BC: LGolBgCoord + Copy, BS: RowTuple, LBG: LGolBg<BC>, RBG: LGolBg<BC>>(
    ax: &LGolFancyAxis<LBG, RBG>,
    sd: &LGolShiftData<BC>,
    hn: &LGolHashNode<BS, BC>,
    delta: int,
    o1: &LGolHashNode<BS, BC>,
    o2: &LGolHashNode<BS, BC>,
)
    requires
        is_shifted(ax, sd, hn, delta, o1),
        is_shifted(ax, sd, hn, delta, o2),
    ensures
        *o1 == *o2,
{
    if delta != 0 {
        o1.rs.lemma_rows_len();
        o2.rs.lemma_rows_len();
        assert forall|j: int| 0 <= j < BS::spec_len() implies o1.rs.spec_rows()[j] == o2.rs.spec_rows()[j] by {
            assert forall|b: nat| b < 64 implies #[trigger] o1.rs.spec_rows()[j].spec_bit(b) == o2.rs.spec_rows()[j].spec_bit(b) by {
                assert(o1.rs.spec_rows()[j].spec_bit(b) <==> exists|r: int, i: int|
                    0 <= r < sd.shift_rows@.len() && 0 <= i < sd.shift_rows@[r]@.len() && sd.shift_rows@[r]@[i].0 == b
                        && #[trigger] shifted_cell(ax, sd, hn, delta, r, i, j));
                assert(o2.rs.spec_rows()[j].spec_bit(b) <==> exists|r: int, i: int|
                    0 <= r < sd.shift_rows@.len() && 0 <= i < sd.shift_rows@[r]@.len() && sd.shift_rows@[r]@[i].0 == b
                        && #[trigger] shifted_cell(ax, sd, hn, delta, r, i, j));
            }
            crate::gol::graph::lemma_u64_bits_eq(o1.rs.spec_rows()[j], o2.rs.spec_rows()[j]);
        }
        assert(o1.rs.spec_rows() =~= o2.rs.spec_rows());
        o1.rs.lemma_rows_eq(o2.rs);
    }
}

/// The outcome of recentring `hn` along a fancy axis (see `LGolFancyAxis::recenter`).
pub open spec fn recentered<BC: LGolBgCoord + Copy, BS: RowTuple, LBG: LGolBg<BC>, RBG: LGolBg<BC>>(
    ax: &LGolFancyAxis<LBG, RBG>,
    sd: &LGolShiftData<BC>,
    hn: LGolHashNode<BS, BC>,
    r: (int, LGolHashNode<BS, BC>),
) -> bool {
    &&& exists|m: int, mm: int|
        #![trigger min_read(ax.left_bg.bg_cells(), sd, &hn, m), max_read(ax.right_bg.bg_cells(), sd, &hn, mm)]
        min_read(ax.left_bg.bg_cells(), sd, &hn, m) && max_read(ax.right_bg.bg_cells(), sd, &hn, mm) && r.0 == ((m + mm)
            - (sd.min_coord + sd.max_coord) + sd.period) / (2 * sd.period)
    &&& is_shifted(ax, sd, &hn, r.0, &r.1)
}

/// The outcome of justifying `hn` along a fancy axis (see `LGolFancyAxis::justify`).
pub open spec fn justified<BC: LGolBgCoord + Copy, BS: RowTuple, LBG: LGolBg<BC>, RBG: LGolBg<BC>>(
    ax: &LGolFancyAxis<LBG, RBG>,
    sd: &LGolShiftData<BC>,
    hn: LGolHashNode<BS, BC>,
    r: (int, LGolHashNode<BS, BC>),
) -> bool {
    &&& exists|m: int| #[trigger] min_read(ax.left_bg.bg_cells(), sd, &hn, m) && r.0 == (m - sd.min_coord) / (sd.period as int)
    &&& is_shifted(ax, sd, &hn, r.0, &r.1)
}

/// An axis of a lattice search: what reading past its edges gives, and how a node is moved
/// along it to a standard position.
pub trait LGolAxis<BC: LGolBgCoord + Copy, BS: RowTuple>: Sized {
    /// The shift data suits the axis.
    spec fn spec_axis_ok(&self, sd: &LGolShiftData<BC>) -> bool;

    /// How far, in periods, `recenter` moves `hn`, and where to.
    spec fn spec_recenter(&self, sd: &LGolShiftData<BC>, hn: LGolHashNode<BS, BC>) -> (int, LGolHashNode<BS, BC>);

    /// How far, in periods, `justify` moves `hn`, and where to.
    spec fn spec_justify(&self, sd: &LGolShiftData<BC>, hn: LGolHashNode<BS, BC>) -> (int, LGolHashNode<BS, BC>);

    spec fn spec_wrap_in_print(&self) -> bool;

    /// Moves `hn` along the axis to its centred position.
    fn recenter(&self, sd: &LGolShiftData<BC>, hn: LGolHashNode<BS, BC>) -> (r: (isize, LGolHashNode<BS, BC>))
        requires
            self.spec_axis_ok(sd),
            hn.bg_coord.wf(),
            BS::spec_len() < 0x1000,
        ensures
            (r.0 as int, r.1) == self.spec_recenter(sd, hn),
            r.1.bg_coord.wf(),
            -0x1000_0000 <= r.0 <= 0x1000_0000,
    ;

    /// Moves `hn` along the axis to its justified position.
    fn justify(&self, sd: &LGolShiftData<BC>, hn: LGolHashNode<BS, BC>) -> (r: (isize, LGolHashNode<BS, BC>))
        requires
            self.spec_axis_ok(sd),
            hn.bg_coord.wf(),
            BS::spec_len() < 0x1000,
        ensures
            (r.0 as int, r.1) == self.spec_justify(sd, hn),
            r.1.bg_coord.wf(),
            -0x1000_0000 <= r.0 <= 0x1000_0000,
    ;

    /// Whether patterns are printed wrapped around this axis.
    fn wrap_in_print(&self) -> (r: bool)
        ensures
            r == self.spec_wrap_in_print(),
    ;
}

impl<BC: LGolBgCoord + Copy, BS: RowTuple, LBG: LGolBg<BC>, RBG: LGolBg<BC>> LGolAxis<BC, BS> for LGolFancyAxis<LBG, RBG> {
    open spec fn spec_axis_ok(&self, sd: &LGolShiftData<BC>) -> bool {
        shift_rows_ok(sd) && shift_data_ok(sd) && axis_small(sd)
    }

    open spec fn spec_recenter(&self, sd: &LGolShiftData<BC>, hn: LGolHashNode<BS, BC>) -> (int, LGolHashNode<BS, BC>) {
        choose|r: (int, LGolHashNode<BS, BC>)| recentered(self, sd, hn, r)
    }

    open spec fn spec_justify(&self, sd: &LGolShiftData<BC>, hn: LGolHashNode<BS, BC>) -> (int, LGolHashNode<BS, BC>) {
        choose|r: (int, LGolHashNode<BS, BC>)| justified(self, sd, hn, r)
    }

    open spec fn spec_wrap_in_print(&self) -> bool {
        false
    }

    fn recenter(&self, sd: &LGolShiftData<BC>, hn: LGolHashNode<BS, BC>) -> (r: (isize, LGolHashNode<BS, BC>)) {
        let out = LGolFancyAxis::recenter::<BS, BC>(self, sd, hn);
        proof {
            let r0 = (out.0 as int, out.1);
            assert(recentered(self, sd, hn, r0));
            let c = choose|r: (int, LGolHashNode<BS, BC>)| recentered(self, sd, hn, r);
            let (m1, mm1) = choose|m: int, mm: int|
                #![trigger min_read(self.left_bg.bg_cells(), sd, &hn, m), max_read(self.right_bg.bg_cells(), sd, &hn, mm)]
                min_read(self.left_bg.bg_cells(), sd, &hn, m) && max_read(self.right_bg.bg_cells(), sd, &hn, mm) && r0.0 == ((m + mm)
                    - (sd.min_coord + sd.max_coord) + sd.period) / (2 * sd.period);
            let (m2, mm2) = choose|m: int, mm: int|
                #![trigger min_read(self.left_bg.bg_cells(), sd, &hn, m), max_read(self.right_bg.bg_cells(), sd, &hn, mm)]
                min_read(self.left_bg.bg_cells(), sd, &hn, m) && max_read(self.right_bg.bg_cells(), sd, &hn, mm) && c.0 == ((m + mm)
                    - (sd.min_coord + sd.max_coord) + sd.period) / (2 * sd.period);
            lemma_min_read_unique(self.left_bg.bg_cells(), sd, &hn, m1, m2);
            lemma_max_read_unique(self.right_bg.bg_cells(), sd, &hn, mm1, mm2);
            lemma_is_shifted_unique(self, sd, &hn, c.0, &c.1, &r0.1);
        }
        out
    }

    fn justify(&self, sd: &LGolShiftData<BC>, hn: LGolHashNode<BS, BC>) -> (r: (isize, LGolHashNode<BS, BC>)) {
        let out = LGolFancyAxis::justify::<BS, BC>(self, sd, hn);
        proof {
            let r0 = (out.0 as int, out.1);
            assert(justified(self, sd, hn, r0));
            let c = choose|r: (int, LGolHashNode<BS, BC>)| justified(self, sd, hn, r);
            let m1 = choose|m: int| #[trigger] min_read(self.left_bg.bg_cells(), sd, &hn, m) && r0.0 == (m - sd.min_coord) / (sd.period as int);
            let m2 = choose|m: int| #[trigger] min_read(self.left_bg.bg_cells(), sd, &hn, m) && c.0 == (m - sd.min_coord) / (sd.period as int);
            lemma_min_read_unique(self.left_bg.bg_cells(), sd, &hn, m1, m2);
            lemma_is_shifted_unique(self, sd, &hn, c.0, &c.1, &r0.1);
        }
        out
    }

    fn wrap_in_print(&self) -> (r: bool) {
        false
    }
}

impl<BC: LGolBgCoord + Copy, BS: RowTuple> LGolAxis<BC, BS> for (LGolEdgeRead, LGolEdgeRead) {
    open spec fn spec_axis_ok(&self, sd: &LGolShiftData<BC>) -> bool {
        true
    }

    open spec fn spec_recenter(&self, sd: &LGolShiftData<BC>, hn: LGolHashNode<BS, BC>) -> (int, LGolHashNode<BS, BC>) {
        (0, hn)
    }

    open spec fn spec_justify(&self, sd: &LGolShiftData<BC>, hn: LGolHashNode<BS, BC>) -> (int, LGolHashNode<BS, BC>) {
        (0, hn)
    }

    open spec fn spec_wrap_in_print(&self) -> bool {
        self.0 == LGolEdgeRead::Wrap && self.1 == LGolEdgeRead::Wrap
    }

    fn recenter(&self, sd: &LGolShiftData<BC>, hn: LGolHashNode<BS, BC>) -> (r: (isize, LGolHashNode<BS, BC>)) {
        (0, hn)
    }

    fn justify(&self, sd: &LGolShiftData<BC>, hn: LGolHashNode<BS, BC>) -> (r: (isize, LGolHashNode<BS, BC>)) {
        (0, hn)
    }

    fn wrap_in_print(&self) -> (r: bool) {
        match (self.0, self.1) {
            (LGolEdgeRead::Wrap, LGolEdgeRead::Wrap) => true,
            _ => false,
        }
    }
}

impl<BC: LGolBgCoord + Copy, BS: RowTuple> LGolAxis<BC, BS> for LGolPeriodDividingAxis {
    open spec fn spec_axis_ok(&self, sd: &LGolShiftData<BC>) -> bool {
        true
    }

    open spec fn spec_recenter(&self, sd: &LGolShiftData<BC>, hn: LGolHashNode<BS, BC>) -> (int, LGolHashNode<BS, BC>) {
        (0, hn)
    }

    open spec fn spec_justify(&self, sd: &LGolShiftData<BC>, hn: LGolHashNode<BS, BC>) -> (int, LGolHashNode<BS, BC>) {
        (0, hn)
    }

    open spec fn spec_wrap_in_print(&self) -> bool {
        true
    }

    fn recenter(&self, sd: &LGolShiftData<BC>, hn: LGolHashNode<BS, BC>) -> (r: (isize, LGolHashNode<BS, BC>)) {
        (0, hn)
    }

    fn justify(&self, sd: &LGolShiftData<BC>, hn: LGolHashNode<BS, BC>) -> (r: (isize, LGolHashNode<BS, BC>)) {
        (0, hn)
    }

    fn wrap_in_print(&self) -> (r: bool) {
        true
    }
}

/// A way of moving a node along an axis to a standard position.
pub trait LGolRecenter: Sized {
    /// Whether the move is the axis's justification rather than its centring.
    spec fn spec_justifies(&self) -> bool;

    fn apply<BC: LGolBgCoord + Copy, BS: RowTuple, A: LGolAxis<BC, BS>>(&self, a: &A, sd: &LGolShiftData<BC>, hn: LGolHashNode<BS, BC>) -> (r: (
        isize,
        LGolHashNode<BS, BC>,
    ))
        requires
            a.spec_axis_ok(sd),
            hn.bg_coord.wf(),
            BS::spec_len() < 0x1000,
        ensures
            (r.0 as int, r.1) == (if self.spec_justifies() {
                a.spec_justify(sd, hn)
            } else {
                a.spec_recenter(sd, hn)
            }),
            r.1.bg_coord.wf(),
            -0x1000_0000 <= r.0 <= 0x1000_0000,
    ;
}

/// Centre along the axis (see `LGolAxis::recenter`).
#[derive(Clone, Copy)]
pub struct LGolRecenterCentered();

/// Justify along the axis (see `LGolAxis::justify`).
#[derive(Clone, Copy)]
pub struct LGolRecenterJustify();

impl LGolRecenter for LGolRecenterCentered {
    open spec fn spec_justifies(&self) -> bool {
        false
    }

    fn apply<BC: LGolBgCoord + Copy, BS: RowTuple, A: LGolAxis<BC, BS>>(&self, a: &A, sd: &LGolShiftData<BC>, hn: LGolHashNode<BS, BC>) -> (r: (
        isize,
        LGolHashNode<BS, BC>,
    )) {
        a.recenter(sd, hn)
    }
}

impl LGolRecenter for LGolRecenterJustify {
    open spec fn spec_justifies(&self) -> bool {
        true
    }

    fn apply<BC: LGolBgCoord + Copy, BS: RowTuple, A: LGolAxis<BC, BS>>(&self, a: &A, sd: &LGolShiftData<BC>, hn: LGolHashNode<BS, BC>) -> (r: (
        isize,
        LGolHashNode<BS, BC>,
    )) {
        a.justify(sd, hn)
    }
}

} // verus!
