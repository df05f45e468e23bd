use lifesearch::dfs::graph::DfsGraph;
use lifesearch::dfs::graph::DfsNode;
use lifesearch::gol::graph::check_compat2;
use lifesearch::gol::graph::recenter;
use lifesearch::gol::graph::GolGraph;
use lifesearch::gol::graph::GolKeyNode;
use lifesearch::gol::graph::GolNode;
use lifesearch::gol::graph::GolPreGraph;
use lifesearch::gol::graph::GolRecenter;
use lifesearch::gol::graph::GolSym;
use lifesearch::gol::printbag::PrintBag;

fn graph(mx: usize, recenter: GolRecenter) -> GolGraph {
    GolPreGraph {
        mt: 1,
        mx: mx,
        wx: mx,
        left_sym: GolSym::Empty,
        right_sym: GolSym::Empty,
        ox: 0,
        oy: 0,
        recenter: recenter,
    }
    .derived()
}

fn start_node(mx: usize) -> GolNode {
    GolNode { dx: 0, r0: 0, r1: 0, r2: 0, r2_min_x: mx - 1, r2_max_x: 0, r2l: 0, r2l_x: 0 }
}

#[test]
fn compat_survival_needs_two_or_three() {
    assert!(check_compat2(2, 8, true, true));
    assert!(check_compat2(3, 8, true, true));
    assert!(!check_compat2(4, 8, true, true));
    assert!(!check_compat2(2, 8, true, false));
}

#[test]
fn compat_birth_needs_three() {
    assert!(check_compat2(3, 5, false, true));
    assert!(!check_compat2(0, 8, false, true));
    assert!(!check_compat2(3, 8, false, false));
    assert!(check_compat2(2, 8, false, false));
}

#[test]
fn compat_unknown_neighbours_leave_room() {
    // two known dead neighbours: anything can still happen
    assert!(check_compat2(0, 2, false, true));
    assert!(check_compat2(0, 2, true, true));
    assert!(check_compat2(0, 2, true, false));
}

#[test]
fn derived_has_checks_for_every_cell() {
    let g = graph(3, GolRecenter::Fixed);
    assert_eq!(g.checks.len(), 3);
    assert_eq!(g.mx, 3);
    assert_eq!(g.mt, 1);
    for cs in g.checks.iter() {
        for c in cs.iter() {
            assert!(c.0.len() <= 8);
            assert!(c.1 <= 8);
        }
    }
}

#[test]
fn expand_empty_row_keeps_dead_cell() {
    let g = graph(3, GolRecenter::Fixed);
    let n = start_node(3);
    let succs = g.expand(&n);
    assert!(succs.len() >= 1 && succs.len() <= 2);
    assert_eq!(succs[0].r2, 0);
    assert_eq!(succs[0].r2l, 1);
    assert_eq!(succs[0].r2l_x, 1);
}

#[test]
fn expand_complete_row_starts_next_row() {
    let g = graph(3, GolRecenter::Fixed);
    let n = GolNode { dx: 0, r0: 0, r1: 0, r2: 0, r2_min_x: 2, r2_max_x: 0, r2l: 3, r2l_x: 0 };
    let succs = g.expand(&n);
    assert_eq!(succs.len(), 1);
    assert_eq!(succs[0].r0, 0);
    assert_eq!(succs[0].r1, 0);
    assert_eq!(succs[0].r2l, 0);
    assert_eq!(succs[0].r2_min_x, 2);
}

#[test]
fn end_at_empty_rows() {
    let g = graph(3, GolRecenter::Fixed);
    assert_eq!(g.end(&GolKeyNode { dx: 0, r0: 0, r1: 0 }), Some(""));
    assert_eq!(g.end(&GolKeyNode { dx: 0, r0: 1, r1: 0 }), None);
}

#[test]
fn key_node_only_at_row_start() {
    let n = start_node(3);
    assert_eq!(n.key_node(), Some(GolKeyNode { dx: 0, r0: 0, r1: 0 }));
    let m = GolNode { r2l: 1, r2l_x: 1, ..n };
    assert_eq!(m.key_node(), None);
}

#[test]
fn recenter_moves_pattern_to_middle() {
    let g = graph(8, GolRecenter::BiasLeft);
    assert_eq!(recenter(&g, 0xC0, 0), (3, 0x18, 0));
    let g2 = graph(8, GolRecenter::Fixed);
    assert_eq!(recenter(&g2, 0xC0, 0), (0, 0xC0, 0));
    assert_eq!(recenter(&g, 0, 0), (0, 0, 0));
}

#[test]
fn serde_proxy_round_trip() {
    let g = graph(4, GolRecenter::Fixed);
    let n = GolNode { dx: 5, r0: 1, r1: 2, r2: 0b0110, r2_min_x: 1, r2_max_x: 2, r2l: 3, r2l_x: 3 };
    let p = n.to_serde_proxy(&g);
    assert_eq!(p.to_real(&g), n);
}

#[test]
fn printbag_formats_generations_side_by_side() {
    let mut pb = PrintBag::new();
    pb.insert(0, 0, 0, '*');
    pb.insert(1, 0, 0, '.');
    pb.insert(0, 1, 1, '*');
    let lines = pb.format();
    assert_eq!(lines, vec!["*. |   ".to_string(), "   | * ".to_string()]);
}

#[test]
fn printbag_insert_replaces() {
    let mut pb = PrintBag::new();
    pb.insert(0, 0, 0, '*');
    pb.insert(0, 0, 0, '.');
    assert_eq!(pb.get((0, 0, 0)), Some('.'));
    assert_eq!(pb.format(), vec![".".to_string()]);
}

#[test]
fn printbag_empty_formats_nothing() {
    let pb = PrintBag::new();
    assert_eq!(pb.format(), Vec::<String>::new());
}

#[test]
fn format_rows_prints_each_first_row_and_the_last_pair() {
    let g = graph(3, GolRecenter::Fixed);
    let rows = vec![GolKeyNode { dx: 0, r0: 0b111, r1: 0 }, GolKeyNode { dx: 1, r0: 0b001, r1: 0b100 }];
    assert_eq!(g.format_rows(&rows), vec!["*** ".to_string(), " *..".to_string(), " ..*".to_string()]);
    assert_eq!(g.format_rows(&vec![]), Vec::<String>::new());
}

#[test]
fn format_rows_puts_generations_side_by_side() {
    let g = GolPreGraph {
        mt: 2,
        mx: 2,
        wx: 2,
        left_sym: GolSym::Empty,
        right_sym: GolSym::Empty,
        ox: 0,
        oy: 0,
        recenter: GolRecenter::Fixed,
    }
    .derived();
    let rows = vec![GolKeyNode { dx: 0, r0: 0b0110, r1: 0b1001 }];
    assert_eq!(g.format_rows(&rows), vec![".* | *.".to_string(), "*. | .*".to_string()]);
}

#[test]
fn format_cycle_rows_marks_the_cycle() {
    let g = graph(3, GolRecenter::Fixed);
    let path = vec![GolKeyNode { dx: 0, r0: 0b001, r1: 0 }];
    let cycle = vec![GolKeyNode { dx: 0, r0: 0b010, r1: 0 }, GolKeyNode { dx: 0, r0: 0b100, r1: 0 }];
    let last = GolKeyNode { dx: 0, r0: 0b001, r1: 0 };
    assert_eq!(
        g.format_cycle_rows(&path, &cycle, &last),
        vec!["*..", "---", ".*.", "..*", "---"].into_iter().map(|s| s.to_string()).collect::<Vec<_>>()
    );
    assert_eq!(
        g.format_cycle_rows(&vec![], &vec![], &last),
        vec!["---".to_string()]
    );
}
