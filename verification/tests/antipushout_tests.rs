use homotopy::antipushout::{antipushout, antipushout_base, antipushout_points};
use homotopy::common::Generator;
use homotopy::diagram::Diagram0;
use homotopy::rewrite::Rewrite0;
use homotopy::monotone::Monotone;

fn m(v: &[usize]) -> Monotone {
    Monotone::from_vec(v.to_vec())
}

fn pairs(spans: Vec<(Monotone, Monotone)>) -> Vec<(Vec<usize>, Vec<usize>)> {
    spans.into_iter().map(|(h, k)| (h.slices(), k.slices())).collect()
}

#[test]
fn antipushout_base_small_cases() {
    assert_eq!(pairs(antipushout_base(0, 1)), vec![(vec![], vec![])]);
    assert_eq!(pairs(antipushout_base(1, 0)), vec![(vec![], vec![])]);
    assert_eq!(pairs(antipushout_base(0, 2)), vec![]);
    assert_eq!(pairs(antipushout_base(0, 0)), vec![]);
    assert_eq!(pairs(antipushout_base(1, 3)), vec![(vec![0, 0, 0], vec![0, 1, 2])]);
    assert_eq!(pairs(antipushout_base(2, 1)), vec![(vec![0, 1], vec![0, 0])]);
}

#[test]
fn antipushout_base_lattice_paths() {
    assert_eq!(
        pairs(antipushout_base(2, 2)),
        vec![(vec![0, 0, 1], vec![0, 1, 1]), (vec![0, 1, 1], vec![0, 0, 1])]
    );
    // The paths through a 3 × 3 grid: six of them, each of length five.
    let paths = pairs(antipushout_base(3, 3));
    assert_eq!(paths.len(), 6);
    for (h, k) in &paths {
        assert_eq!(h.len(), 5);
        assert_eq!(k.len(), 5);
        for i in 1..5 {
            assert_eq!(h[i] + k[i], h[i - 1] + k[i - 1] + 1);
        }
    }
}

#[test]
fn antipushout_single_span() {
    let f = m(&[0, 1]);
    let g = m(&[0, 0, 1]);
    assert_eq!(pairs(antipushout(&f, &g, 2)), vec![(vec![0, 0, 1], vec![0, 1, 2])]);
}

#[test]
fn antipushout_several_spans_commute() {
    let f = m(&[0, 0]);
    let g = m(&[0, 0]);
    let spans = pairs(antipushout(&f, &g, 1));
    assert_eq!(spans, vec![(vec![0, 0, 1], vec![0, 1, 1]), (vec![0, 1, 1], vec![0, 0, 1])]);
    let f = m(&[0, 0, 1, 1]);
    let g = m(&[0, 1, 1]);
    let spans = pairs(antipushout(&f, &g, 2));
    // One path through 2 × 1 and two through 2 × 2: two choices in all.
    assert_eq!(spans.len(), 2);
    for (h, k) in &spans {
        assert_eq!(h.len(), k.len());
        for i in 0..h.len() {
            assert_eq!(f.get(h[i]), g.get(k[i]));
        }
    }
}

#[test]
fn antipushout_empty_fibre_and_empty_target() {
    let f = m(&[1]);
    let g = m(&[0, 1]);
    assert_eq!(pairs(antipushout(&f, &g, 2)), vec![(vec![0], vec![1])]);
    // No target positions: the product of no lists has no tuples.
    assert_eq!(pairs(antipushout(&m(&[]), &m(&[]), 0)), vec![]);
}

#[test]
fn antipushout_legs_are_monotone_and_onto() {
    let f = m(&[0, 0, 1, 1, 1]);
    let g = m(&[0, 1, 1]);
    let spans = pairs(antipushout(&f, &g, 2));
    // One path through 2 × 1 and three through 3 × 2.
    assert_eq!(spans.len(), 3);
    for (h, k) in &spans {
        for i in 1..h.len() {
            assert!(h[i - 1] <= h[i]);
            assert!(k[i - 1] <= k[i]);
        }
        for x in 0..5 {
            assert!(h.contains(&x));
        }
        for y in 0..3 {
            assert!(k.contains(&y));
        }
    }
    // A point over a position whose other fibre is empty is reached by no span.
    let spans = pairs(antipushout(&m(&[0, 1]), &m(&[1]), 2));
    assert_eq!(spans, vec![(vec![1], vec![0])]);
}

#[test]
fn antipushout_of_points() {
    let x = Diagram0::from(Generator::new(0, 0));
    let y = Diagram0::from(Generator::new(1, 0));
    let z = Diagram0::from(Generator::new(2, 1));
    // Distinct points of one dimension have no antipushout.
    assert!(antipushout_points(x, y).is_empty());
    // Otherwise the apex is the point of lower dimension.
    let spans = antipushout_points(z, x);
    assert_eq!(spans.len(), 1);
    assert_eq!(spans[0].0, x);
    assert_eq!(spans[0].1, Rewrite0::new(x, z, None));
    assert!(spans[0].2.is_identity());
    let spans = antipushout_points(x, x);
    assert_eq!(spans.len(), 1);
    assert!(spans[0].1.is_identity() && spans[0].2.is_identity());
    // The square commutes.
    let t = Diagram0::from(Generator::new(3, 2));
    let spans = antipushout_points(x, z);
    let f = Rewrite0::new(x, t, None);
    let g = Rewrite0::new(z, t, None);
    assert_eq!(spans[0].1.compose(&f).unwrap(), spans[0].2.compose(&g).unwrap());
}
