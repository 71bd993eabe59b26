use homotopy::monotone::{Monotone, MonotoneIterator, Split};

fn m(v: &[usize]) -> Monotone {
    Monotone::from_vec(v.to_vec())
}

#[test]
fn monotone_basics() {
    let mut f = m(&[0, 1]);
    assert_eq!(f.len(), 2);
    assert!(!f.is_empty());
    f.push(1);
    assert_eq!(f.slices(), vec![0, 1, 1]);
    assert_eq!(f.get(2), 1);
    assert!(m(&[]).is_empty());
}

#[test]
fn monotone_compose() {
    assert_eq!(m(&[0, 1, 1]).compose(&m(&[2, 3])), Some(m(&[2, 3, 3])));
    assert_eq!(m(&[0, 2]).compose(&m(&[1, 1])), None);
    // Composition is associative.
    let a = m(&[0, 0, 1]);
    let b = m(&[1, 2]);
    let c = m(&[0, 0, 4]);
    let ab_c = a.compose(&b).unwrap().compose(&c).unwrap();
    let a_bc = a.compose(&b.compose(&c).unwrap()).unwrap();
    assert_eq!(ab_c, a_bc);
}

#[test]
fn monotone_preimage() {
    let f = m(&[0, 0, 1, 1, 2]);
    assert_eq!(f.preimage(1), 2..4);
    assert_eq!(f.preimage(0), 0..2);
    assert_eq!(f.preimage(3), 5..5);
    assert_eq!(m(&[0, 2]).preimage(1), 1..1);
}

#[test]
fn monotone_cones_tile_the_source() {
    let cones = m(&[0, 0, 2]).cones(3);
    let expected = vec![
        Split { source: 0..2, target: 0 },
        Split { source: 2..2, target: 1 },
        Split { source: 2..3, target: 2 },
    ];
    assert_eq!(cones, expected);
}

#[test]
fn monotone_dual() {
    assert_eq!(m(&[0, 0, 1]).dual(2), m(&[0, 2, 3]));
    assert_eq!(m(&[0, 1, 2]).dual_inv(3), m(&[0, 1]));
}

#[test]
fn monotone_iterator_forward() {
    let mut it = MonotoneIterator::new(false, &[0..2, 0..2]);
    assert_eq!(it.len(), 2);
    assert_eq!(it.next(), Some(m(&[0, 0])));
    assert_eq!(it.next(), Some(m(&[0, 1])));
    assert_eq!(it.next(), Some(m(&[1, 1])));
    assert_eq!(it.next(), None);
}

#[test]
fn monotone_iterator_strict_both_ways() {
    let mut it = MonotoneIterator::new(true, &[0..3, 0..3]);
    assert_eq!(it.constraints, vec![0..2, 1..3]);
    assert_eq!(it.next(), Some(m(&[0, 1])));
    assert_eq!(it.next(), Some(m(&[0, 2])));
    assert_eq!(it.next(), Some(m(&[1, 2])));
    assert_eq!(it.next(), None);

    let mut back = MonotoneIterator::new(true, &[0..3, 0..3]);
    assert_eq!(back.next_back(), Some(m(&[1, 2])));
    assert_eq!(back.next_back(), Some(m(&[0, 2])));
    assert_eq!(back.next_back(), Some(m(&[0, 1])));
    assert_eq!(back.next_back(), None);
}

#[test]
fn monotone_iterator_empty_constraint() {
    let mut it = MonotoneIterator::new(false, &[0..0, 0..3]);
    assert_eq!(it.next(), None);
}

#[test]
fn monotone_iterator_trivial_and_restrict() {
    let it = MonotoneIterator::new(true, &[0..1, 1..2]);
    assert!(it.is_trivial(2));
    assert!(!it.is_trivial(3));
    let mut a = MonotoneIterator::new(false, &[0..3, 0..3]);
    let b = MonotoneIterator::new(false, &[1..2, 0..2]);
    a.restrict_to(&b);
    assert_eq!(a.constraints, vec![1..2, 1..2]);
    assert_eq!(a.next(), Some(m(&[1, 1])));
    assert_eq!(a.next(), None);
}

#[test]
fn monotone_dual_inv_undoes_dual() {
    assert_eq!(m(&[0, 2, 2, 3]).dual_inv(4), m(&[0, 0, 2]));
    let f = m(&[0, 0, 2]);
    assert_eq!(f.dual(3), m(&[0, 2, 2, 3]));
    assert_eq!(f.dual(3).dual_inv(4), f);
    let g = m(&[1, 1, 3, 4]);
    assert_eq!(g.dual(5).dual_inv(5), g);
}

#[test]
fn monotone_iterator_lists_every_sequence_in_order() {
    // Every monotone sequence of length 3 with values below 3, in lexicographic order.
    let mut it = MonotoneIterator::new(false, &[0..3, 0..3, 0..3]);
    let mut seen: Vec<Vec<usize>> = vec![];
    while let Some(s) = it.next() {
        seen.push(s.slices());
    }
    let mut expected: Vec<Vec<usize>> = vec![];
    for a in 0..3 {
        for b in a..3 {
            for c in b..3 {
                expected.push(vec![a, b, c]);
            }
        }
    }
    assert_eq!(seen, expected);
}
