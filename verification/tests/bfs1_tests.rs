use lifesearch::bfs::bfs1::absorb;
use lifesearch::bfs::bfs1::compact_level;
use lifesearch::bfs::bfs1::start_level;
use lifesearch::bfs::bfs1::step_level;
use lifesearch::dfs::graph::DfsGraph;
use lifesearch::dfs::graph::DfsNode;
use lifesearch::gol::graph::GolGraph;
use lifesearch::gol::graph::GolKeyNode;
use lifesearch::gol::graph::GolNode;
use lifesearch::gol::graph::GolPreGraph;
use lifesearch::gol::graph::GolRecenter;
use lifesearch::gol::graph::GolSym;
use lifesearch::kn_pile::KnPile;

fn graph() -> GolGraph {
    GolPreGraph {
        mt: 1,
        mx: 3,
        wx: 3,
        left_sym: GolSym::Empty,
        right_sym: GolSym::Empty,
        ox: 0,
        oy: 0,
        recenter: GolRecenter::Fixed,
    }
    .derived()
}

fn start() -> GolNode {
    GolNode { dx: 0, r0: 0, r1: 0, r2: 0, r2_min_x: 2, r2_max_x: 0, r2l: 0, r2l_x: 0 }
}

#[test]
fn start_level_holds_the_start() {
    let (kns, ql) = start_level(start());
    assert_eq!(ql.len(), 1);
    assert_eq!(ql[0].1, start());
    assert_eq!(kns.materialize_cloned(ql[0].0), vec![GolKeyNode { dx: 0, r0: 0, r1: 0 }]);
}

#[test]
fn step_level_splits_every_successor() {
    let g = graph();
    let (mut kns, ql) = start_level(start());
    let succs = if g.can_expand(&start()) { g.expand(&start()) } else { vec![] };
    let parent = kns.materialize_cloned(ql[0].0);
    let (r, next, _added) = step_level(&g, &mut kns, &ql);
    assert_eq!(r.ends.len() + r.cycles.len() + next.len(), succs.len());
    for (idx, n) in next.iter() {
        let mut want = parent.clone();
        if let Some(kn) = n.key_node() {
            want.push(kn);
        }
        assert_eq!(kns.materialize_cloned(*idx), want);
    }
}

#[test]
fn step_level_runs_levels() {
    let g = graph();
    let (mut kns, mut ql) = start_level(start());
    for _ in 0..3 {
        let (_r, next, _added) = step_level(&g, &mut kns, &ql);
        ql = next;
        for (idx, _) in ql.iter() {
            assert!(*idx < kns.len());
        }
    }
}

#[test]
fn absorb_adds_key_nodes() {
    let mut kns: KnPile<GolKeyNode> = KnPile::new();
    let kn = GolKeyNode { dx: 0, r0: 1, r1: 2 };
    let q2 = vec![(0usize, start(), Some(kn)), (0usize, start(), None)];
    let (next, added) = absorb(&mut kns, &q2);
    assert!(added);
    assert_eq!(next.len(), 2);
    assert_eq!(next[0].0, 1);
    assert_eq!(next[1].0, 0);
    assert_eq!(kns.materialize_cloned(1), vec![kn]);
    let (_, added) = absorb(&mut kns, &vec![(1usize, start(), None)]);
    assert!(!added);
}

#[test]
fn compact_level_keeps_paths() {
    let mut kns: KnPile<GolKeyNode> = KnPile::new();
    let a = kns.push(0, GolKeyNode { dx: 0, r0: 1, r1: 0 });
    let _dead = kns.push(0, GolKeyNode { dx: 0, r0: 2, r1: 0 });
    let b = kns.push(a, GolKeyNode { dx: 0, r0: 3, r1: 0 });
    let mut ql = vec![(b, start())];
    let want = kns.materialize_cloned(b);
    assert!(!compact_level(&mut kns, &mut ql, false, 0));
    assert_eq!(kns.len(), 4);
    assert!(!compact_level(&mut kns, &mut ql, true, 100));
    assert!(compact_level(&mut kns, &mut ql, true, 0));
    assert_eq!(kns.len(), 3);
    assert_eq!(kns.materialize_cloned(ql[0].0), want);
}
