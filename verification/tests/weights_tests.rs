use lifesearch::euclid::{egcd, egcd_mut};
use lifesearch::weights::{find_connected_weights, find_cycle_weight_generators};
use lifesearch::zmodule::ZModule;

#[test]
fn egcd_carries_bezout_coefficients() {
    assert_eq!(egcd(12, 18, 1isize, 0isize), (6, 3, -1));
}

#[test]
fn egcd_negative_input_is_made_positive() {
    assert_eq!(egcd(-4, 6, 1isize, 0isize), (2, -3, 1));
}

#[test]
fn egcd_on_pairs_gives_kernel_and_combination() {
    let (g, k, c) = egcd(12, 18, (1isize, 0isize), (0isize, 1isize));
    assert_eq!(g, 6);
    assert_eq!(k, (3, -2));
    assert_eq!(c, (-1, 1));
    assert_eq!(k.0 * 12 + k.1 * 18, 0);
    assert_eq!(c.0 * 12 + c.1 * 18, 6);
}

#[test]
fn egcd_of_zeros() {
    assert_eq!(egcd(0, 0, 1isize, 0isize), (0, 1, 0));
    assert_eq!(egcd(0, -5, (), ()), (5, (), ()));
}

#[test]
fn egcd_mut_leaves_zero_and_gcd() {
    let mut a: isize = 35;
    let mut b: isize = 21;
    let mut ra: isize = 1;
    let mut rb: isize = 0;
    egcd_mut(&mut a, &mut b, &mut ra, &mut rb);
    assert_eq!(a, 0);
    assert_eq!(b, 7);
    assert_eq!((ra, rb), (3, -1));
}

#[test]
fn zmodule_operations() {
    let mut x = <(isize, (isize, ())) as ZModule>::zero();
    assert_eq!(x, (0, (0, ())));
    x.addmul(3, &(1, (-2, ())));
    assert_eq!(x, (3, (-6, ())));
    x.mul(-2);
    assert_eq!(x, (-6, (12, ())));
    let mut y: isize = 4;
    y.addmul(-1, &10);
    assert_eq!(y, -6);
}

fn sample_links() -> Vec<(u64, Vec<(u64, isize)>)> {
    vec![
        (1, vec![(2, 5), (3, 1)]),
        (2, vec![(3, -2)]),
        (3, vec![(1, 0)]),
        (4, vec![(1, 7)]),
    ]
}

#[test]
fn find_connected_weights_reaches_and_weighs() {
    let links = sample_links();
    let r = find_connected_weights(&links, 1);
    assert_eq!(r[0], (1, 0));
    let mut sorted = r.clone();
    sorted.sort();
    assert_eq!(sorted.len(), 3);
    assert_eq!(sorted[0], (1, 0));
    assert_eq!(sorted[1], (2, 5));
    assert!(sorted[2] == (3, 1) || sorted[2] == (3, 3));
}

#[test]
fn find_connected_weights_from_a_sink() {
    let links = vec![(1u64, vec![(2u64, 4isize)]), (2, vec![])];
    assert_eq!(find_connected_weights(&links, 2), vec![(2, 0)]);
}

#[test]
fn find_cycle_weight_generators_labels_links() {
    let links = sample_links();
    let r = find_cycle_weight_generators(&links, 1);
    assert!(r == vec![0, 0, 2, 1] || r == vec![0, -2, 0, 3]);
}

#[test]
fn find_cycle_weight_generators_of_a_tree_are_zero() {
    let links = vec![(1u64, vec![(2u64, 4isize), (3, -1)]), (2, vec![]), (3, vec![])];
    assert_eq!(find_cycle_weight_generators(&links, 1), vec![0, 0]);
}
