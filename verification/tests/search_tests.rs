use lifesearch::bfs::bfs2::deepen_search;
use lifesearch::bfs::bfs2::bfs2_dedupe_step;
use lifesearch::bfs::bfs2::bfs2_state_from_parts;
use lifesearch::bfs::bfs2::bfs2_deepen;
use lifesearch::bfs::bfs2::bfs2_deepen_unit;
use lifesearch::bfs::bfs2::bfs2_next_action;
use lifesearch::bfs::bfs2::Bfs2Action;
use lifesearch::bfs::bfs2::bfs2_finish_step;
use lifesearch::bfs::bfs2::expand_unit_within;
use lifesearch::bfs::bfs2::expand_one;
use lifesearch::bfs::bfs2::expand_unit;
use lifesearch::bfs::bfs2::fold_all;
use lifesearch::bfs::bfs2::fold_one;
use lifesearch::bfs::bfs2::Bfs2Dedupe;
use lifesearch::bfs::bfs2::Bfs2State;
use lifesearch::bfs::bfs2::VecDedupe;
use lifesearch::bfs::bfs2::WorkUnit;
use lifesearch::chunk_queue::ChunkQueue;
use lifesearch::chunk_store::VecChunkFactory;
use lifesearch::dfs::graph::DfsGraph;
use lifesearch::dfs::res::DfsRes;
use lifesearch::dfs::search::dfs_single_thread;
use lifesearch::dfs::search::sdfs_pass;
use lifesearch::dfs::search::Path;
use lifesearch::dfs::tree::collapse;
use lifesearch::dfs::tree::find_firstest;
use lifesearch::dfs::tree::Tree;
use lifesearch::dfs::tree::TreeStatus;
use lifesearch::gol::graph::GolGraph;
use lifesearch::gol::graph::GolHashNode;
use lifesearch::gol::graph::GolKeyNode;
use lifesearch::gol::graph::GolNode;
use lifesearch::gol::graph::GolPreGraph;
use lifesearch::gol::graph::GolRecenter;
use lifesearch::gol::graph::GolSym;

fn graph() -> GolGraph {
    GolPreGraph {
        mt: 1,
        mx: 3,
        wx: 3,
        left_sym: GolSym::Empty,
        right_sym: GolSym::Empty,
        ox: 0,
        oy: 0,
        recenter: GolRecenter::Fixed,
    }
    .derived()
}

fn start() -> GolNode {
    GolNode { dx: 0, r0: 0, r1: 0, r2: 0, r2_min_x: 2, r2_max_x: 0, r2l: 0, r2l_x: 0 }
}

#[test]
fn bfs_state_starts_with_the_node() {
    let st: Bfs2State<GolNode, VecChunkFactory, VecDedupe<GolHashNode>> = Bfs2State::new_simple(start(), VecChunkFactory());
    assert_eq!(st.q.len(), 1);
    assert_eq!(st.foresight, 0);
    assert_eq!(st.depth, 0);
    let (idx, n) = *st.q.front().unwrap();
    assert_eq!(n, start());
    assert_eq!(st.kns.materialize_cloned(idx), vec![GolKeyNode { dx: 0, r0: 0, r1: 0 }]);
    assert_eq!(st.dedupe.len(), 0);
}

#[test]
fn expand_one_moves_successors_to_q2() {
    let g = graph();
    let st: Bfs2State<GolNode, VecChunkFactory, VecDedupe<GolHashNode>> = Bfs2State::new_simple(start(), VecChunkFactory());
    let mut w = WorkUnit::new(st.q);
    assert!(expand_one(&g, &st.kns, &mut w));
    assert_eq!(w.q.len(), 0);
    assert!(w.q2.len() >= 1);
    assert!(!expand_one(&g, &st.kns, &mut w));
}

#[test]
fn fold_one_extends_paths_at_row_starts() {
    let mut st: Bfs2State<GolNode, VecChunkFactory, VecDedupe<GolHashNode>> = Bfs2State::new_simple(start(), VecChunkFactory());
    let (idx, _) = *st.q.front().unwrap();
    let mut q3: ChunkQueue<(usize, GolNode), VecChunkFactory> = ChunkQueue::new(VecChunkFactory());
    let kn = GolNode { r0: 1, ..start() };
    q3.push_back((idx, kn));
    q3.push_back((idx, kn));
    let mut q4: ChunkQueue<(usize, GolNode), VecChunkFactory> = ChunkQueue::new(VecChunkFactory());
    let before = st.kns.len();
    assert!(fold_one(&mut q3, &mut q4, &mut st.kns, &mut st.dedupe, &|_h: &GolHashNode| true));
    assert_eq!(q4.len(), 1);
    assert_eq!(st.kns.len(), before + 1);
    // the same hash node again is dropped
    assert!(fold_one(&mut q3, &mut q4, &mut st.kns, &mut st.dedupe, &|_h: &GolHashNode| true));
    assert_eq!(q4.len(), 1);
    assert_eq!(st.dedupe.len(), 1);
    assert!(!fold_one(&mut q3, &mut q4, &mut st.kns, &mut st.dedupe, &|_h: &GolHashNode| true));
}

#[test]
fn dedupe_reports_new_items() {
    let mut d: VecDedupe<GolHashNode> = VecDedupe::new();
    assert!(d.insert(GolHashNode { r0: 1, r1: 2 }));
    assert!(!d.insert(GolHashNode { r0: 1, r1: 2 }));
    assert!(d.insert(GolHashNode { r0: 2, r1: 1 }));
    assert_eq!(d.len(), 2);
}

#[test]
fn deepen_search_zero_foresight_keeps() {
    let g = graph();
    assert!(deepen_search(&g, &start(), 0));
    // the empty rows reach an end within a row's worth of steps
    assert!(deepen_search(&g, &start(), 5));
}

#[test]
fn dfs_finds_end_of_empty_rows() {
    let g = graph();
    let mut t = Tree(start(), TreeStatus::Unopened);
    let mut path = Path::new();
    let mut res: DfsRes<GolKeyNode> = DfsRes::new();
    let _done = dfs_single_thread(&g, &mut t, &mut path, &mut res, 50);
    assert!(res.ends.len() >= 1);
    let last = *res.ends[0].0.last().unwrap();
    assert_eq!((last.r0, last.r1), (0, 0));
}

#[test]
fn dfs_with_no_budget_leaves_work() {
    let g = graph();
    let mut t = Tree(start(), TreeStatus::Unopened);
    let mut path = Path::new();
    let mut res: DfsRes<GolKeyNode> = DfsRes::new();
    let done = dfs_single_thread(&g, &mut t, &mut path, &mut res, 0);
    assert!(!done);
    assert!(matches!(t.1, TreeStatus::Opened(_)));
    assert_eq!(t.0, start());
    assert!(find_firstest(&t).len() >= 2);
    let mut res2: DfsRes<GolKeyNode> = DfsRes::new();
    let mut p2 = Path::new();
    assert!(sdfs_pass(&g, &mut t, &mut p2, &mut res2, 0));
}

#[test]
fn tree_counts_and_collapse() {
    let mut t = Tree(
        1u32,
        TreeStatus::Opened(vec![Tree(2, TreeStatus::Closed), Tree(3, TreeStatus::Opened(vec![Tree(4, TreeStatus::Closed)]))]),
    );
    assert_eq!(t.proxy_cts(), (0, 2, 2, 2));
    assert!(collapse(&mut t));
    assert!(matches!(t.1, TreeStatus::Closed));
    let mut u = Tree(1u32, TreeStatus::Opened(vec![Tree(2, TreeStatus::Unopened), Tree(3, TreeStatus::Closed)]));
    assert!(!collapse(&mut u));
    assert_eq!(find_firstest(&u), vec![1, 2]);
    assert_eq!(u.proxy_cts(), (1, 1, 1, 1));
}

#[test]
fn path_detects_repeats() {
    let mut p: Path<GolKeyNode> = Path::new();
    let a = GolKeyNode { dx: 0, r0: 1, r1: 2 };
    let b = GolKeyNode { dx: 3, r0: 1, r1: 2 };
    let c = GolKeyNode { dx: 0, r0: 5, r1: 6 };
    assert_eq!(p.find_or_push(&a), None);
    assert_eq!(p.find_or_push(&c), None);
    assert_eq!(p.find_or_push(&b), Some(0));
    assert!(!p.push(&a));
    p.pop();
    assert_eq!(p.to_vec(), vec![a]);
}

#[test]
fn expand_unit_empties_the_queue() {
    let g = graph();
    let st: Bfs2State<GolNode, VecChunkFactory, VecDedupe<GolHashNode>> = Bfs2State::new_simple(start(), VecChunkFactory());
    let mut w = WorkUnit::new(st.q);
    expand_unit(&g, &st.kns, &mut w);
    assert_eq!(w.q.len(), 0);
    let st2: Bfs2State<GolNode, VecChunkFactory, VecDedupe<GolHashNode>> = Bfs2State::new_simple(start(), VecChunkFactory());
    let mut w2 = WorkUnit::new(st2.q);
    assert!(expand_one(&g, &st2.kns, &mut w2));
    assert_eq!(w.q2.iter(), w2.q2.iter());
}

#[test]
fn fold_all_keeps_every_node_without_dedupe() {
    let mut st: Bfs2State<GolNode, VecChunkFactory, VecDedupe<GolHashNode>> = Bfs2State::new_simple(start(), VecChunkFactory());
    let (idx, _) = *st.q.front().unwrap();
    let mut q3: ChunkQueue<(usize, GolNode), VecChunkFactory> = ChunkQueue::new(VecChunkFactory());
    let kn = GolNode { r0: 1, ..start() };
    q3.push_back((idx, kn));
    q3.push_back((idx, kn));
    q3.push_back((idx, GolNode { r2l: 1, ..start() }));
    let mut q4: ChunkQueue<(usize, GolNode), VecChunkFactory> = ChunkQueue::new(VecChunkFactory());
    let before = st.kns.len();
    fold_all(&mut q3, &mut q4, &mut st.kns, &mut st.dedupe, &|_h: &GolHashNode| false);
    assert_eq!(q3.len(), 0);
    assert_eq!(q4.len(), 3);
    assert_eq!(st.kns.len(), before + 2);
    let items = q4.iter();
    assert_eq!(items[2].0, idx);
    assert_eq!(st.kns.materialize_cloned(items[0].0), vec![GolKeyNode { dx: 0, r0: 0, r1: 0 }, GolKeyNode { dx: 0, r0: 1, r1: 0 }]);
}

#[test]
fn bfs2_dedupe_step_expands_a_level() {
    let g = graph();
    let mut st: Bfs2State<GolNode, VecChunkFactory, VecDedupe<GolHashNode>> = Bfs2State::new_simple(start(), VecChunkFactory());
    let st2: Bfs2State<GolNode, VecChunkFactory, VecDedupe<GolHashNode>> = Bfs2State::new_simple(start(), VecChunkFactory());
    let mut w = WorkUnit::new(st2.q);
    expand_unit(&g, &st2.kns, &mut w);
    let r = bfs2_dedupe_step(&mut st, &g, &|_h: &GolHashNode| false);
    assert_eq!(st.depth, 1);
    assert_eq!(st.foresight, 0);
    assert_eq!(st.q.len(), w.q2.len());
    assert_eq!(r.ends.len(), w.r.ends.len());
    assert_eq!(r.cycles.len(), w.r.cycles.len());
    let nodes: Vec<GolNode> = st.q.iter().into_iter().map(|e| e.1).collect();
    let expected: Vec<GolNode> = w.q2.iter().into_iter().map(|e| e.1).collect();
    assert_eq!(nodes, expected);
}

#[test]
fn fold_all_queues_each_picked_hash_node_once() {
    let mut st: Bfs2State<GolNode, VecChunkFactory, VecDedupe<GolHashNode>> = Bfs2State::new_simple(start(), VecChunkFactory());
    let (idx, _) = *st.q.front().unwrap();
    let a = GolNode { r0: 1, ..start() };
    let b = GolNode { r0: 2, ..start() };
    let mut q3: ChunkQueue<(usize, GolNode), VecChunkFactory> = ChunkQueue::new(VecChunkFactory());
    q3.push_back((idx, a));
    q3.push_back((idx, b));
    q3.push_back((idx, a));
    let mut q4: ChunkQueue<(usize, GolNode), VecChunkFactory> = ChunkQueue::new(VecChunkFactory());
    fold_all(&mut q3, &mut q4, &mut st.kns, &mut st.dedupe, &|_h: &GolHashNode| true);
    let nodes: Vec<GolNode> = q4.iter().into_iter().map(|e| e.1).collect();
    assert_eq!(nodes, vec![a, b]);
    assert_eq!(st.dedupe.len(), 2);
    // a later fold drops what the set already holds
    let mut q5: ChunkQueue<(usize, GolNode), VecChunkFactory> = ChunkQueue::new(VecChunkFactory());
    q5.push_back((idx, b));
    let mut q6: ChunkQueue<(usize, GolNode), VecChunkFactory> = ChunkQueue::new(VecChunkFactory());
    fold_all(&mut q5, &mut q6, &mut st.kns, &mut st.dedupe, &|_h: &GolHashNode| true);
    assert_eq!(q6.len(), 0);
    assert_eq!(st.dedupe.len(), 2);
}

#[test]
fn bfs_state_pile_holds_every_path() {
    let k1 = GolKeyNode { dx: 0, r0: 1, r1: 0 };
    let k2 = GolKeyNode { dx: 0, r0: 2, r1: 0 };
    let k3 = GolKeyNode { dx: 0, r0: 3, r1: 0 };
    let st: Bfs2State<GolNode, VecChunkFactory, VecDedupe<GolHashNode>> =
        Bfs2State::new(vec![(vec![k1, k2], start()), (vec![k3], start()), (vec![], start())], VecChunkFactory());
    assert_eq!(st.kns.len(), 4);
    let q = st.q.iter();
    assert_eq!(st.kns.materialize_cloned(q[0].0), vec![k1, k2]);
    assert_eq!(st.kns.materialize_cloned(q[1].0), vec![k3]);
    assert_eq!(q[2].0, 0);
}

#[test]
fn bfs_state_from_parts_checks_indices() {
    let k1 = GolKeyNode { dx: 0, r0: 1, r1: 0 };
    let k2 = GolKeyNode { dx: 0, r0: 2, r1: 0 };
    let h = GolHashNode { r0: 1, r1: 0 };
    let st: Option<Bfs2State<GolNode, VecChunkFactory, VecDedupe<GolHashNode>>> =
        bfs2_state_from_parts(vec![(0, k1), (1, k2)], vec![(2, start())], vec![h, h], 3, 7, VecChunkFactory());
    let st = st.unwrap();
    assert_eq!(st.kns.len(), 3);
    assert_eq!(st.kns.materialize_cloned(2), vec![k1, k2]);
    assert_eq!(st.q.iter(), vec![(2, start())]);
    assert_eq!(st.dedupe.len(), 1);
    assert_eq!((st.foresight, st.depth), (3, 7));
    let bad_parent: Option<Bfs2State<GolNode, VecChunkFactory, VecDedupe<GolHashNode>>> =
        bfs2_state_from_parts(vec![(2, k1)], vec![], vec![], 0, 0, VecChunkFactory());
    assert!(bad_parent.is_none());
    let bad_queue: Option<Bfs2State<GolNode, VecChunkFactory, VecDedupe<GolHashNode>>> =
        bfs2_state_from_parts(vec![(0, k1)], vec![(2, start())], vec![], 0, 0, VecChunkFactory());
    assert!(bad_queue.is_none());
}

#[test]
fn dfs_records_ends_among_direct_successors() {
    let g = graph();
    let mut t = Tree(start(), TreeStatus::Unopened);
    let mut path = Path::new();
    let mut res: DfsRes<GolKeyNode> = DfsRes::new();
    let done = dfs_single_thread(&g, &mut t, &mut path, &mut res, 1000);
    if done {
        assert!(matches!(t.1, TreeStatus::Closed));
        assert!(res.ends.iter().any(|(p, _)| p.len() == 1 && p[0].r0 == 0 && p[0].r1 == 0));
    }
    assert!(res.ends.iter().all(|(_, l)| l.is_empty()));
}

#[test]
fn dfs_with_no_budget_opens_on_the_successors() {
    let g = graph();
    let mut t = Tree(start(), TreeStatus::Unopened);
    let mut path = Path::new();
    let mut res: DfsRes<GolKeyNode> = DfsRes::new();
    assert!(!dfs_single_thread(&g, &mut t, &mut path, &mut res, 0));
    let succ = g.expand(&start());
    match &t.1 {
        TreeStatus::Opened(cs) => {
            let nodes: Vec<GolNode> = cs.iter().map(|c| c.0).collect();
            assert!(!nodes.is_empty() && nodes.len() <= succ.len());
            assert_eq!(&nodes[..], &succ[succ.len() - nodes.len()..]);
            assert!(cs.iter().skip(1).all(|c| matches!(c.1, TreeStatus::Unopened)));
        }
        _ => panic!("tree not opened"),
    }
}

#[test]
fn dfs_results_do_not_depend_on_spare_budget() {
    let g = graph();
    let run = |budget: usize| {
        let mut t = Tree(start(), TreeStatus::Unopened);
        let mut path = Path::new();
        let mut res: DfsRes<GolKeyNode> = DfsRes::new();
        let done = dfs_single_thread(&g, &mut t, &mut path, &mut res, budget);
        (done, res.ends.clone(), res.cycles.clone())
    };
    let (d1, e1, c1) = run(2000);
    let (d2, e2, c2) = run(4000);
    if d1 {
        assert!(d2);
        assert_eq!(e1, e2);
        assert_eq!(c1, c2);
    }
    // a smaller budget finds a prefix of the same ends
    let (d0, e0, _) = run(3);
    assert!(!d0 || d1);
    assert!(e0.len() <= e2.len());
    assert_eq!(&e2[..e0.len()], &e0[..]);
}

#[test]
fn expand_within_stops_when_out_of_room() {
    let g = graph();
    let st: Bfs2State<GolNode, VecChunkFactory, VecDedupe<GolHashNode>> = Bfs2State::new_simple(start(), VecChunkFactory());
    let mut w = WorkUnit::new(st.q);
    assert_eq!(expand_unit_within(&g, &st.kns, &mut w, 0), (true, 1));
    assert_eq!(w.q.len(), 0);
    let st2: Bfs2State<GolNode, VecChunkFactory, VecDedupe<GolHashNode>> = Bfs2State::new_simple(start(), VecChunkFactory());
    let mut w2 = WorkUnit::new(st2.q);
    assert_eq!(expand_unit_within(&g, &st2.kns, &mut w2, 1000), (false, 1));
    assert_eq!(w2.q2.iter(), w.q2.iter());
}

#[test]
fn finish_step_matches_a_whole_step() {
    let g = graph();
    let mut a: Bfs2State<GolNode, VecChunkFactory, VecDedupe<GolHashNode>> = Bfs2State::new_simple(start(), VecChunkFactory());
    let ra = bfs2_dedupe_step(&mut a, &g, &|_h: &GolHashNode| true);
    let mut b: Bfs2State<GolNode, VecChunkFactory, VecDedupe<GolHashNode>> = Bfs2State::new_simple(start(), VecChunkFactory());
    let q = std::mem::replace(&mut b.q, ChunkQueue::new(VecChunkFactory()));
    let mut w = WorkUnit::new(q);
    let (over, _) = expand_unit_within(&g, &b.kns, &mut w, 1000);
    assert!(!over);
    let rb = bfs2_finish_step(&mut b, w, &|_h: &GolHashNode| true);
    assert_eq!(a.q.iter(), b.q.iter());
    assert_eq!(ra.ends.len(), rb.ends.len());
    assert_eq!((a.depth, b.depth), (1, 1));
    // deepening with no foresight keeps only what can go on at all
    let q = std::mem::replace(&mut b.q, ChunkQueue::new(VecChunkFactory()));
    let mut w = WorkUnit::new(q);
    let before = w.q.len();
    bfs2_deepen_unit(&g, &mut w, &mut b.foresight);
    assert_eq!(b.foresight, 1);
    assert!(w.q.len() <= before);
}

#[test]
fn next_action_deepens_past_the_memory_limit() {
    assert_eq!(bfs2_next_action(10, 20, 25), Bfs2Action::Deepen);
    assert_eq!(bfs2_next_action(10, 15, 25), Bfs2Action::Expand);
    assert_eq!(bfs2_next_action(usize::MAX, 1, usize::MAX), Bfs2Action::Deepen);
    let g = graph();
    let mut st: Bfs2State<GolNode, VecChunkFactory, VecDedupe<GolHashNode>> = Bfs2State::new_simple(start(), VecChunkFactory());
    bfs2_deepen(&mut st, &g);
    assert_eq!(st.foresight, 1);
    assert!(st.q.len() <= 1);
}
