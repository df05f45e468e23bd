use lifesearch::bfs::checkpoint::checkpoint_bytes;
use lifesearch::bfs::checkpoint::checkpoint_layout;
use lifesearch::bfs::checkpoint::CheckpointLayout;

#[test]
fn checkpoint_writes_counts_big_endian() {
    let kn = vec![vec![1u8, 2, 3]];
    let q = vec![vec![9u8, 9], vec![8u8, 8]];
    let d: Vec<Vec<u8>> = vec![];
    let b = checkpoint_bytes(&kn, &q, &d, 0x0102, 5);
    assert_eq!(b.len(), 8 + 3 + 8 + 4 + 8 + 8 + 8);
    assert_eq!(&b[0..8], &[0, 0, 0, 0, 0, 0, 0, 2]);
    assert_eq!(&b[8..11], &[1, 2, 3]);
    assert_eq!(&b[11..19], &[0, 0, 0, 0, 0, 0, 0, 2]);
    assert_eq!(&b[19..23], &[9, 9, 8, 8]);
    assert_eq!(&b[23..31], &[0; 8]);
    assert_eq!(&b[31..39], &[0, 0, 0, 0, 0, 0, 1, 2]);
    assert_eq!(&b[39..47], &[0, 0, 0, 0, 0, 0, 0, 5]);
}

#[test]
fn checkpoint_layout_reads_back_what_was_written() {
    let kn = vec![vec![1u8, 2, 3], vec![4u8, 5, 6]];
    let q = vec![vec![7u8, 7]];
    let d = vec![vec![1u8], vec![2u8], vec![3u8]];
    let b = checkpoint_bytes(&kn, &q, &d, 11, 0x1_0000_0000);
    let l = checkpoint_layout(&b, 3, 2, 1).unwrap();
    assert_eq!(
        l,
        CheckpointLayout { kn_count: 2, kn_at: 8, q_count: 1, q_at: 8 + 6 + 8, d_count: 3, d_at: 8 + 6 + 8 + 2 + 8, foresight: 11, depth: 0x1_0000_0000 }
    );
    assert_eq!(&b[l.q_at..l.q_at + 2], &[7, 7]);
}

#[test]
fn checkpoint_layout_refuses_short_input() {
    assert_eq!(checkpoint_layout(&[0, 0, 0], 1, 1, 1), None);
    let b = checkpoint_bytes(&vec![vec![1u8]], &vec![], &vec![], 0, 0);
    assert_eq!(checkpoint_layout(&b[..b.len() - 1], 1, 1, 1), None);
    // a record size that does not match runs past the end
    assert_eq!(checkpoint_layout(&b, 100, 1, 1), None);
}

#[test]
fn checkpoint_layout_reads_zero_pile_count_as_root_alone() {
    let mut b = vec![0u8; 8];
    b.extend_from_slice(&[0u8; 8]);
    b.extend_from_slice(&[0u8; 8]);
    b.extend_from_slice(&[0, 0, 0, 0, 0, 0, 0, 4]);
    b.extend_from_slice(&[0, 0, 0, 0, 0, 0, 0, 9]);
    let l = checkpoint_layout(&b, 5, 5, 5).unwrap();
    assert_eq!((l.kn_count, l.q_count, l.d_count, l.foresight, l.depth), (0, 0, 0, 4, 9));
}
