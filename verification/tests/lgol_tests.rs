use lifesearch::lgol::axis::LGolAxis;
use lifesearch::lgol::axis::LGolEdge;
use lifesearch::lgol::axis::LGolRecenter;
use lifesearch::lgol::axis::LGolRecenterCentered;
use lifesearch::lgol::axis::LGolRecenterJustify;
use lifesearch::lgol::constraints::LGolConstraint;
use lifesearch::lgol::axis::LGolEdgeRead;
use lifesearch::lgol::axis::LGolFancyAxis;
use lifesearch::lgol::axis::LGolReflectEdge;
use lifesearch::lgol::axis::LGolSimpleEdge;
use lifesearch::lgol::bg::LGolBg;
use lifesearch::lgol::bg::LGolBgCoord;
use lifesearch::lgol::bg::LGolBgEmpty;
use lifesearch::lgol::bg::LGolBgVertStripes;
use lifesearch::lgol::bg::LGolBgX2;
use lifesearch::lgol::bg::LGolBgX2Y2;
use lifesearch::lgol::ends::LGolEnds;
use lifesearch::lgol::ends::LGolMaskEnds;
use lifesearch::lgol::graph::LGolHashNode;
use lifesearch::lgol::graph::LGolKeyNode;
use lifesearch::lgol::lat1::LGolLat1;
use lifesearch::lgol::lat2::LGolLat2;
use lifesearch::lgol::lat2::LGolShiftData;

fn shift_data() -> LGolShiftData<LGolBgX2> {
    LGolShiftData {
        adet: 1,
        w_bg_coord: LGolBgX2(0),
        period: 1,
        bg_period: LGolBgX2(1),
        shift_rows: vec![],
        checks: vec![(0, 0, LGolBgX2(0)), (1, 1, LGolBgX2(1)), (2, 2, LGolBgX2(0))],
        min_coord: 0,
        max_coord: 2,
    }
}

#[test]
fn bg_coords_are_parities() {
    assert_eq!(LGolBgX2(1).mul(3), LGolBgX2(1));
    assert_eq!(LGolBgX2(1).mul(-2), LGolBgX2(0));
    assert_eq!(LGolBgX2(1).add(LGolBgX2(1)), LGolBgX2(0));
    assert_eq!(LGolBgX2::from_xyt((-3, 4, 0)), LGolBgX2(1));
    assert_eq!(LGolBgX2Y2::from_xyt((3, 4, 0)), LGolBgX2Y2(1));
    assert_eq!(LGolBgX2Y2::from_xyt((2, -1, 0)), LGolBgX2Y2(2));
    assert_eq!(LGolBgX2Y2(3).add(LGolBgX2Y2(1)), LGolBgX2Y2(2));
    assert_eq!(LGolBgX2Y2(3).mul(2), LGolBgX2Y2(0));
    assert_eq!(LGolBgX2Y2::max_idx(), 4);
    assert_eq!(LGolBgX2Y2::from_idx(3).to_idx(), 3);
}

#[test]
fn find_min_max_on_empty_background() {
    let sd = shift_data();
    let hn = LGolHashNode { bg_coord: LGolBgX2(0), rs: [0b010u64] };
    assert_eq!(LGolBgEmpty().find_min(&sd, &hn), 1);
    assert_eq!(LGolBgEmpty().find_max(&sd, &hn), 1);
    let blank = LGolHashNode { bg_coord: LGolBgX2(0), rs: [0u64] };
    assert_eq!(LGolBgEmpty().find_min(&sd, &blank), 2);
    assert_eq!(LGolBgEmpty().find_max(&sd, &blank), 0);
}

#[test]
fn stripes_background_cells() {
    assert!(LGolBgVertStripes().bg_cell(LGolBgX2(0)));
    assert!(!LGolBgVertStripes().bg_cell(LGolBgX2(1)));
}

#[test]
fn reflect_edges() {
    let sd = shift_data();
    let odd = LGolReflectEdge(0);
    assert_eq!(LGolEdge::<LGolBgX2>::left_edge(&odd, &sd, LGolBgX2(0), -1), LGolEdgeRead::Update(1));
    assert_eq!(LGolEdge::<LGolBgX2>::right_edge(&odd, &sd, LGolBgX2(0), 3), LGolEdgeRead::Update(1));
    let gutter = LGolReflectEdge(2);
    assert_eq!(LGolEdge::<LGolBgX2>::left_edge(&gutter, &sd, LGolBgX2(0), -1), LGolEdgeRead::Known(false));
    let simple = LGolSimpleEdge(LGolEdgeRead::Wrap);
    assert!(LGolEdge::<LGolBgX2>::is_wrap(&simple));
}

#[test]
fn lattice_identity_round_trip() {
    let lat = LGolLat1::new((1, 0, 0), (0, 1, 0), (0, 0, 1), (1, 1, 1));
    assert_eq!(lat.adet, 1);
    assert_eq!(lat.xyt_to_uvw((2, 3, 4)), (2, 3, 4));
    assert_eq!(lat.uvw_to_xyt((2, 3, 4)), (2, 3, 4));
}

#[test]
fn lattice_glider_cell() {
    // a diagonal period-4 lattice
    let lat = LGolLat1::new((1, 1, 4), (0, 1, 0), (0, 0, 1), (1, 1, 1));
    assert_eq!(lat.det, 1);
    let uvw = lat.xyt_to_uvw((1, 1, 4));
    assert_eq!(uvw, (1, 0, 0));
    assert_eq!(lat.uvw_to_xyt(uvw), (1, 1, 4));
}

#[test]
fn mask_ends_match_masked_rows() {
    let mut ends: LGolMaskEnds<[u64; 1], LGolBgX2> = LGolMaskEnds::new();
    ends.add(LGolBgX2(0), [0xF], [0x5], "five".to_string());
    ends.add(LGolBgX2(0), [0xF], [0x5], "FIVE".to_string());
    let lat2 = LGolLat2 { spots: vec![], w_bg_coord: LGolBgX2(0), u_shift_data: shift_data(), v_shift_data: shift_data() };
    let hit = LGolHashNode { bg_coord: LGolBgX2(0), rs: [0x15] };
    assert_eq!(ends.end(&lat2, &hit), Some("FIVE"));
    let other_bg = LGolHashNode { bg_coord: LGolBgX2(1), rs: [0x15] };
    assert_eq!(ends.end(&lat2, &other_bg), None);
    let miss = LGolHashNode { bg_coord: LGolBgX2(0), rs: [0x2] };
    assert_eq!(ends.end(&lat2, &miss), None);
}

#[test]
fn lgol_key_node_hash() {
    let kn = LGolKeyNode { bg_coord: LGolBgX2(1), du: 2, dv: -1, rs: [7u64, 8] };
    let hn = kn.lgol_hash_node();
    assert_eq!(hn.bg_coord, LGolBgX2(1));
    assert_eq!(hn.rs, [7u64, 8]);
}

fn line_data() -> LGolShiftData<()> {
    LGolShiftData {
        adet: 1,
        w_bg_coord: (),
        period: 1,
        bg_period: (),
        shift_rows: vec![vec![(0, ()), (1, ()), (2, ())]],
        checks: vec![(0, 0, ()), (1, 1, ()), (2, 2, ())],
        min_coord: 0,
        max_coord: 2,
    }
}

fn fancy() -> LGolFancyAxis<LGolBgEmpty, LGolBgEmpty> {
    LGolFancyAxis { left_bg: LGolBgEmpty(), right_bg: LGolBgEmpty() }
}

#[test]
fn fancy_axis_shift_moves_cells() {
    let sd = line_data();
    let hn: LGolHashNode<[u64; 1], ()> = LGolHashNode { bg_coord: (), rs: [0b001] };
    assert_eq!(fancy().shift(&sd, hn, -1).rs, [0b010]);
    assert_eq!(fancy().shift(&sd, hn, -2).rs, [0b100]);
    assert_eq!(fancy().shift(&sd, hn, 1).rs, [0b000]);
    assert_eq!(fancy().shift(&sd, hn, 0).rs, [0b001]);
    let hn2: LGolHashNode<[u64; 1], ()> = LGolHashNode { bg_coord: (), rs: [0b110] };
    assert_eq!(fancy().shift(&sd, hn2, 1).rs, [0b011]);
}

#[test]
fn fancy_axis_recenter_and_justify() {
    let sd = line_data();
    let hn: LGolHashNode<[u64; 1], ()> = LGolHashNode { bg_coord: (), rs: [0b001] };
    let (d, moved) = fancy().recenter(&sd, hn);
    assert_eq!(d, -1);
    assert_eq!(moved.rs, [0b010]);
    let (d, moved) = fancy().justify(&sd, hn);
    assert_eq!(d, 0);
    assert_eq!(moved.rs, [0b001]);
    let hn3: LGolHashNode<[u64; 1], ()> = LGolHashNode { bg_coord: (), rs: [0b100] };
    let (d, moved) = fancy().justify(&sd, hn3);
    assert_eq!(d, 2);
    assert_eq!(moved.rs, [0b001]);
    let (d, moved) = fancy().recenter(&sd, hn3);
    assert_eq!(d, 1);
    assert_eq!(moved.rs, [0b010]);
}

#[test]
fn lattice_canonicalize_moves_into_the_cell() {
    let lat = LGolLat1::new((3, 0, 0), (0, 2, 0), (0, 0, 1), (3, 2, 1));
    assert_eq!(lat.canonicalize_xyt((7, -1, 5)), ((1, 1, 0), (2, -1, 5)));
    assert_eq!(lat.canonicalize_xyt((2, 1, 0)), ((2, 1, 0), (0, 0, 0)));
    assert_eq!(lat.canonicalize_xyt((-1, -1, -1)), ((2, 1, 0), (-1, -1, -1)));
}

#[test]
fn wrapping_axis_keeps_nodes_in_place() {
    let sd = shift_data();
    let hn: LGolHashNode<[u64; 1], LGolBgX2> = LGolHashNode { bg_coord: LGolBgX2(1), rs: [5] };
    let ax = (LGolEdgeRead::Wrap, LGolEdgeRead::Wrap);
    assert_eq!(LGolRecenterCentered().apply(&ax, &sd, hn), (0, hn));
    assert_eq!(LGolRecenterJustify().apply(&ax, &sd, hn), (0, hn));
    assert!(<(LGolEdgeRead, LGolEdgeRead) as LGolAxis<LGolBgX2, [u64; 1]>>::wrap_in_print(&ax));
    let half = (LGolEdgeRead::Known(false), LGolEdgeRead::Wrap);
    assert!(!<(LGolEdgeRead, LGolEdgeRead) as LGolAxis<LGolBgX2, [u64; 1]>>::wrap_in_print(&half));
}

#[test]
fn empty_constraints_accept_every_cell() {
    let cs = ((), ());
    let z = <((), ()) as LGolConstraint<LGolBgX2>>::zero_stat(&cs);
    assert_eq!(cs.add_stat(z, LGolBgX2(0), 1, 0, true), Some(((), ())));
}
