use lifesearch::chunk_queue::ChunkQueue;
use lifesearch::chunk_store::ChunkVecDeque;
use lifesearch::chunk_store::VecChunkFactory;
use lifesearch::kn_pile::KnPile;

fn queue_of(items: &[u64]) -> ChunkQueue<u64, VecChunkFactory> {
    let mut q = ChunkQueue::new(VecChunkFactory());
    for &i in items {
        q.push_back(i);
    }
    q
}

#[test]
fn queue_is_fifo() {
    let mut q = queue_of(&[1, 2, 3]);
    assert_eq!(q.len(), 3);
    assert_eq!(q.front(), Some(&1));
    assert_eq!(q.pop_front(), Some(1));
    assert_eq!(q.pop_front(), Some(2));
    q.push_back(4);
    assert_eq!(q.iter(), vec![3, 4]);
    assert_eq!(q.pop_front(), Some(3));
    assert_eq!(q.pop_front(), Some(4));
    assert_eq!(q.pop_front(), None);
}

#[test]
fn queue_many_items_cross_chunks() {
    let items: Vec<u64> = (0..100_000u64).collect();
    let mut q = queue_of(&items);
    assert_eq!(q.len(), 100_000);
    for i in 0..100_000u64 {
        assert_eq!(q.pop_front(), Some(i));
    }
    assert_eq!(q.len(), 0);
}

#[test]
fn queue_append_keeps_order() {
    let mut a = queue_of(&[1, 2]);
    let mut b = queue_of(&[3, 4, 5]);
    a.append(&mut b);
    assert_eq!(a.iter(), vec![1, 2, 3, 4, 5]);
    assert_eq!(b.len(), 0);
}

#[test]
fn queue_retain_filters_in_order() {
    let mut q = queue_of(&[1, 2, 3, 4, 5, 6]);
    q.retain(&|x: &u64| *x % 2 == 0);
    assert_eq!(q.iter(), vec![2, 4, 6]);
    q.defragment();
    assert_eq!(q.iter(), vec![2, 4, 6]);
}

#[test]
fn queue_drain_partition_splits_in_order() {
    let mut q = queue_of(&[1, 2, 3, 4, 5]);
    let parts = q.drain_partition(2);
    assert_eq!(q.len(), 0);
    let mut all = Vec::new();
    for p in parts.iter() {
        all.extend(p.iter());
    }
    assert_eq!(all, vec![1, 2, 3, 4, 5]);
}

#[test]
fn pile_paths_share_prefixes() {
    let mut p: KnPile<u32> = KnPile::new();
    let a = p.push(0, 10);
    let b = p.push(a, 11);
    let c = p.push(a, 12);
    assert_eq!(p.materialize_cloned(b), vec![10, 11]);
    assert_eq!(p.materialize_cloned(c), vec![10, 12]);
    assert_eq!(p.materialize_cloned(0), Vec::<u32>::new());
    assert_eq!(p.len(), 4);
    assert_eq!(p.materialize(c, &|x: &u32| *x * 2), vec![20, 24]);
}

#[test]
fn pile_find_walks_towards_root() {
    let mut p: KnPile<u32> = KnPile::new();
    let a = p.push(0, 10);
    let b = p.push(a, 11);
    let c = p.push(b, 12);
    let hit = p.find(c, &|idx: usize, _prev: usize, n: &u32| if *n == 10 { Some(idx) } else { None });
    assert_eq!(hit, Some(a));
    let miss = p.find(c, &|_idx: usize, _prev: usize, n: &u32| if *n == 99 { Some(0usize) } else { None });
    assert_eq!(miss, None);
}

#[test]
fn pile_rebuild_keeps_pinned_paths() {
    let mut p: KnPile<u32> = KnPile::new();
    let a = p.push(0, 1);
    let _dead = p.push(a, 2);
    let b = p.push(a, 3);
    let c = p.push(b, 4);
    let _dead2 = p.push(0, 5);
    let mut pins = vec![c, a];
    let (len, _roots) = p.rebuild(&mut pins);
    assert_eq!(len, p.len());
    assert!(len < 6);
    assert_eq!(p.materialize_cloned(pins[0]), vec![1, 3, 4]);
    assert_eq!(p.materialize_cloned(pins[1]), vec![1]);
}

#[test]
fn pile_rebuild_drops_unpinned_entries() {
    let mut k: KnPile<char> = KnPile::new();
    assert_eq!(k.push(0, 'a'), 1);
    assert_eq!(k.push(1, 'b'), 2);
    assert_eq!(k.push(0, 'c'), 3);
    assert_eq!(k.push(3, 'd'), 4);
    let mut pins = vec![4];
    let (len, roots) = k.rebuild(&mut pins);
    assert_eq!(len, 3);
    assert_eq!(roots, 1);
    assert_eq!(pins, vec![2]);
    assert_eq!(k.materialize_cloned(2), vec!['c', 'd']);
    assert_eq!(k.materialize_cloned(1), vec!['c']);
}

#[test]
fn queue_drain_partition_gives_near_equal_chunk_counts() {
    // five small elements fill one chunk, which goes to the second of two parts
    let mut q = queue_of(&[1, 2, 3, 4, 5]);
    let parts = q.drain_partition(2);
    assert_eq!(parts.len(), 2);
    assert_eq!(parts[0].len(), 0);
    assert_eq!(parts[1].iter(), vec![1, 2, 3, 4, 5]);
}

#[test]
fn ring_slices_split_where_the_ring_wraps() {
    let mut d: ChunkVecDeque<u64> = ChunkVecDeque::new(vec![0u64; 4]);
    assert!(d.offer(1));
    assert!(d.offer(2));
    assert!(d.offer(3));
    assert_eq!(d.pop_front(), Some(1));
    assert_eq!(d.pop_front(), Some(2));
    assert!(d.offer(4));
    assert!(d.offer(5));
    let (a, b) = d.as_slices();
    assert_eq!(a, &[3, 4]);
    assert_eq!(b, &[5]);
    let mut e: ChunkVecDeque<u64> = ChunkVecDeque::new(vec![0u64; 4]);
    assert!(e.offer(7));
    let (a, b) = e.as_slices();
    assert_eq!(a, &[7]);
    assert!(b.is_empty());
}
