use vstd::prelude::*;

use crate::lgol::lat1::Vec3;

verus! {

/// How cells shift along one axis of the lattice: the cells of each line along the axis in
/// order, and every cell with its coordinate along the axis, sorted.
pub struct LGolShiftData<BC> {
    pub adet: isize,
    pub w_bg_coord: BC,
    pub period: isize,
    pub bg_period: BC,
    pub shift_rows: Vec<Vec<(usize, BC)>>,
    pub checks: Vec<(isize, usize, BC)>,
    pub min_coord: isize,
    pub max_coord: isize,
}

/// The cells of one row of a lattice search, by space-time point, lattice point and background
/// coordinate, with the shift data of both axes.
pub struct LGolLat2<BC> {
    pub spots: Vec<(Vec3, Vec3, BC)>,
    pub w_bg_coord: BC,
    pub u_shift_data: LGolShiftData<BC>,
    pub v_shift_data: LGolShiftData<BC>,
}

} // verus!
