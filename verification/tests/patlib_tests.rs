use lifesearch::gol::patlib::components;
use lifesearch::gol::patlib::evolve;
use lifesearch::gol::patlib::parse_rle;
use lifesearch::gol::patlib::realign;
use lifesearch::gol::patlib::step;
use lifesearch::gol::patlib::wrap;
use lifesearch::gol::patlib::GolPatterns;
use lifesearch::gol::patlib::GolSlice;

fn lines(ls: &[&str]) -> Vec<String> {
    ls.iter().map(|s| s.to_string()).collect()
}

fn sorted<T: Ord + Clone>(v: &[T]) -> Vec<T> {
    let mut v = v.to_vec();
    v.sort();
    v
}

#[test]
fn parse_rle_glider() {
    let cells = parse_rle(&lines(&["#N Glider", "#C a comment", "x = 3, y = 3, rule = B3/S23", "bo$2bo$3o!"])).unwrap();
    assert_eq!(cells, vec![(1, 0), (2, 1), (0, 2), (1, 2), (2, 2)]);
}

#[test]
fn parse_rle_runs_across_lines() {
    let cells = parse_rle(&lines(&["x = 0, y = 0", "2o2$", "b", "12bo!"])).unwrap();
    assert_eq!(cells, vec![(0, 0), (1, 0), (13, 2)]);
}

#[test]
fn parse_rle_zero_count_at_line_end() {
    let cells = parse_rle(&lines(&["x = 1", "o0", "o!"])).unwrap();
    assert_eq!(cells, vec![(0, 0), (1, 0)]);
}

#[test]
fn parse_rle_refusals() {
    assert_eq!(parse_rle(&lines(&["#C only comments"])), None);
    assert_eq!(parse_rle(&lines(&["y = 3", "o!"])), None);
    assert_eq!(parse_rle(&lines(&["x = 3", "ozo!"])), None);
    assert_eq!(parse_rle(&lines(&["x = 3", "o3!"])), None);
    assert_eq!(parse_rle(&lines(&["x = 3", "o3"])), None);
    assert_eq!(parse_rle(&lines(&["x = 3", "99999999999999999999999o"])), None);
}

#[test]
fn parse_rle_empty_body() {
    assert_eq!(parse_rle(&lines(&["x = 0, y = 0"])), Some(vec![]));
}

#[test]
fn step_blinker() {
    let (next, links) = step(&vec![(0, 1), (1, 1), (2, 1)]);
    assert_eq!(sorted(&next), vec![(1, 0), (1, 1), (1, 2)]);
    // every live cell of the next generation is linked to itself there
    for &(x, y) in next.iter() {
        assert!(links.contains(&((x, y, 0), (x, y, 1))));
    }
    // the centre links to each live cell of its block
    for &(x, y) in [(0, 1), (1, 1), (2, 1)].iter() {
        assert!(links.contains(&((1, 1, 0), (x, y, 0))));
    }
    // (1, 0) has three live cells around it
    assert!(links.contains(&((1, 0, 0), (0, 1, 0))));
    // a dead point with one live neighbour is linked to nothing
    assert!(!links.iter().any(|l| l.0 == (-1, 0, 0)));
    // nothing dies into a link of the next generation
    assert!(!links.contains(&((0, 1, 0), (0, 1, 1))));
}

#[test]
fn step_block_is_still() {
    let block = vec![(0, 0), (1, 0), (0, 1), (1, 1)];
    let (next, _) = step(&block);
    assert_eq!(sorted(&next), sorted(&block));
}

#[test]
fn realign_moves_to_origin() {
    let (cells, mx, my) = realign(&vec![(5, 7), (3, 9)]);
    assert_eq!(cells, vec![(2, 0), (0, 2)]);
    assert_eq!((mx, my), (3, 7));
}

#[test]
fn wrap_brings_points_back() {
    assert_eq!(wrap((5, 6, 9), 1, 2, 4), (3, 2, 1));
    assert_eq!(wrap((5, 6, 3), 1, 2, 4), (5, 6, 3));
    assert_eq!(wrap((5, 6, 4), -1, 0, 4), (6, 6, 0));
}

#[test]
fn components_follow_links_through_other_points() {
    let ss = vec![(0, 0, 0), (1, 0, 0), (5, 5, 0)];
    let l = vec![((0, 0, 0), (9, 9, 9)), ((9, 9, 9), (1, 0, 0))];
    let comps = components(&ss, &l);
    assert_eq!(comps.len(), 2);
    assert_eq!(comps[0][0], (0, 0, 0));
    assert_eq!(sorted(&comps[0]), vec![(0, 0, 0), (1, 0, 0)]);
    assert_eq!(comps[1], vec![(5, 5, 0)]);
}

#[test]
fn evolve_block_and_blinker() {
    let (cells, _, ox, oy, mt) = evolve(&vec![(0, 0), (1, 0), (0, 1), (1, 1)]).unwrap();
    assert_eq!((ox, oy, mt), (0, 0, 1));
    assert_eq!(cells.len(), 4);
    let (cells, _, ox, oy, mt) = evolve(&vec![(0, 0), (1, 0), (2, 0)]).unwrap();
    assert_eq!((ox, oy, mt), (0, 0, 2));
    assert_eq!(cells.len(), 6);
}

#[test]
fn evolve_dies() {
    assert!(evolve(&vec![(0, 0), (5, 5)]).is_none());
}

#[test]
fn load_glider() {
    let mut pats = GolPatterns::new();
    assert!(pats.load(&lines(&["#N Glider", "x = 3, y = 3", "bo$2bo$3o!"])));
    assert_eq!(pats.vec.len(), 1);
    let p = &pats.vec[0];
    assert_eq!((p.ox, p.oy, p.mt), (1, 1, 4));
    assert_eq!(p.cells.len(), 20);
    for c in p.cells.iter() {
        assert!(c.2 < 4);
    }
}

#[test]
fn load_two_blocks_gives_two_patterns() {
    let mut pats = GolPatterns::new();
    assert!(pats.load(&lines(&["x = 0", "2o3b2o$2o3b2o!"])));
    assert_eq!(pats.vec.len(), 2);
    for p in pats.vec.iter() {
        assert_eq!((p.ox, p.oy, p.mt), (0, 0, 1));
        assert_eq!(p.cells.len(), 4);
    }
}

#[test]
fn load_refusals_add_nothing() {
    let mut pats = GolPatterns::new();
    assert!(!pats.load(&lines(&["x = 1", "o!"])));
    assert!(!pats.load(&lines(&["x = 1", "!"])));
    assert!(!pats.load(&lines(&["no header"])));
    assert_eq!(pats.vec.len(), 0);
}

#[test]
fn find_slices_block() {
    let mut pats = GolPatterns::new();
    assert!(pats.load(&lines(&["x = 2", "2o$2o!"])));
    let slices = pats.find_slices(0, 0, 1);
    // eight orientations, one phase, three row pairs each
    assert_eq!(slices.len(), 24);
    let codes: Vec<Option<(u64, u64)>> = slices.iter().map(|s| s.encode::<u64>(2, 1)).collect();
    assert!(codes.contains(&Some((0, 3))));
    assert!(codes.contains(&Some((3, 3))));
    assert!(codes.contains(&Some((3, 0))));
    assert!(codes.iter().all(|c| c.is_some()));
    assert!(slices.iter().all(|s| s.encode::<u64>(1, 1).is_none()));
}

#[test]
fn find_slices_needs_a_multiple_of_the_period() {
    let mut pats = GolPatterns::new();
    assert!(pats.load(&lines(&["x = 3", "bo$2bo$3o!"])));
    assert_eq!(pats.find_slices(-1, -1, 3).len(), 0);
    assert_eq!(pats.find_slices(0, 0, 4).len(), 0);
    assert!(pats.find_slices(-1, -1, 4).len() > 0);
}

#[test]
fn encode_places_cells() {
    let s = GolSlice { r0: vec![(5, 0), (6, 1)], r1: vec![(7, 0)], mt: 2 };
    assert_eq!(s.encode::<u64>(3, 2), Some((17, 4)));
    assert_eq!(s.encode::<u64>(2, 2), None);
}

#[test]
fn encode_handles_columns_far_apart() {
    let s = GolSlice { r0: vec![(isize::MIN, 0)], r1: vec![(isize::MAX, 0)], mt: 1 };
    assert_eq!(s.encode::<u64>(3, 1), None);
    let t = GolSlice { r0: vec![(isize::MAX - 1, 0)], r1: vec![(isize::MAX, 0)], mt: 1 };
    assert_eq!(t.encode::<u64>(2, 1), Some((1, 2)));
}
