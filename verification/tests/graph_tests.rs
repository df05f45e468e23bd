use lifesearch::gol::graph::GolPreGraph;
use lifesearch::gol::graph::GolRecenter;
use lifesearch::gol::graph::GolSym;
use lifesearch::unweighted::find_components;

#[test]
fn find_components_follows_links_in_key_order() {
    let links = vec![(1u64, vec![2u64]), (2, vec![1, 3]), (4, vec![3]), (5, vec![])];
    assert_eq!(find_components(&links), vec![vec![1, 2, 3], vec![4], vec![5]]);
}

#[test]
fn find_components_links_are_one_way() {
    let links = vec![(3u64, vec![]), (1, vec![3])];
    assert_eq!(find_components(&links), vec![vec![3], vec![1]]);
    let links = vec![(1u64, vec![3]), (3, vec![])];
    assert_eq!(find_components(&links), vec![vec![1, 3]]);
}

#[test]
fn find_components_of_nothing() {
    assert_eq!(find_components(&vec![]), Vec::<Vec<u64>>::new());
}

#[test]
fn derived_accepts_any_width_limit() {
    let g = GolPreGraph {
        mt: 1,
        mx: 3,
        wx: 10,
        left_sym: GolSym::Empty,
        right_sym: GolSym::Empty,
        ox: 0,
        oy: 0,
        recenter: GolRecenter::Fixed,
    }
    .derived();
    assert_eq!(g.wx, 10);
    assert_eq!(g.checks.len(), 3);
}
