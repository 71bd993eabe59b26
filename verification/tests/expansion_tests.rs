use homotopy::common::{DimensionError, Direction, Generator};
use homotopy::diagram::{Cospan, Diagram, Diagram0, DiagramN};
use homotopy::expansion::{expand_base_singular, expand_cospan, ExpansionError};
use homotopy::rewrite::{Cone, Rewrite, Rewrite0, RewriteN};

fn rw(cones: &[(usize, usize)]) -> RewriteN {
    RewriteN::new(1, cones.iter().map(|&(index, len)| Cone { index, len }).collect())
}

fn cones(r: &RewriteN) -> Vec<(usize, usize)> {
    r.cones().iter().map(|c| (c.index, c.len)).collect()
}

#[test]
fn expand_cospan_needs_a_component() {
    let f = rw(&[(0, 1)]);
    let b = rw(&[(0, 1)]);
    assert_eq!(expand_cospan(5, &f, &b).err(), Some(ExpansionError::NoComponent));
}

#[test]
fn expand_cospan_refuses_a_single_component() {
    let f = rw(&[(0, 1)]);
    let b = rw(&[]);
    assert_eq!(expand_cospan(0, &f, &b).err(), Some(ExpansionError::SingleComponent));
    let b = rw(&[(0, 1)]);
    assert_eq!(expand_cospan(0, &f, &b).err(), Some(ExpansionError::SingleComponent));
}

#[test]
fn expand_cospan_with_cones_on_both_sides() {
    let f = rw(&[(0, 1), (1, 1)]);
    let b = rw(&[(0, 1)]);
    let x = expand_cospan(0, &f, &b).unwrap();
    assert_eq!(cones(&x.forward0), vec![(1, 1)]);
    assert_eq!(cones(&x.backward0), vec![]);
    assert_eq!(cones(&x.forward1), vec![(0, 1)]);
    assert_eq!(cones(&x.backward1), vec![(0, 1)]);
    assert_eq!(cones(&x.singular_slice0), vec![(0, 1)]);
    assert_eq!(cones(&x.singular_slice1), vec![]);
    assert_eq!(cones(&x.regular_slice), vec![(0, 1)]);
}

#[test]
fn expand_cospan_with_a_unit_above() {
    let f = rw(&[(1, 0)]);
    let b = rw(&[(0, 1), (1, 1)]);
    let x = expand_cospan(1, &f, &b).unwrap();
    assert_eq!(cones(&x.forward0), vec![]);
    assert_eq!(cones(&x.backward0), vec![(0, 1)]);
    assert_eq!(cones(&x.forward1), vec![(1, 0)]);
    assert_eq!(cones(&x.backward1), vec![(1, 1)]);
    assert_eq!(cones(&x.singular_slice0), vec![(1, 0)]);
    assert_eq!(cones(&x.singular_slice1), vec![(0, 1)]);
    assert_eq!(cones(&x.regular_slice), vec![(0, 1), (1, 0)]);
}

#[test]
fn expand_cospan_without_a_backward_cone() {
    let f = rw(&[(0, 2)]);
    let b = rw(&[(1, 1)]);
    let x = expand_cospan(0, &f, &b).unwrap();
    assert_eq!(cones(&x.forward0), vec![]);
    assert_eq!(cones(&x.backward0), vec![(2, 1)]);
    assert_eq!(cones(&x.forward1), vec![(0, 2)]);
    assert!(x.backward1.is_identity());
    assert_eq!(cones(&x.singular_slice0), vec![(0, 2)]);
    assert_eq!(cones(&x.singular_slice1), vec![(1, 1)]);
    assert_eq!(cones(&x.regular_slice), vec![(0, 2), (2, 1)]);
}

fn diagram(cospans: Vec<Cospan>) -> DiagramN {
    DiagramN::new(Diagram::Diagram0(Diagram0::from(Generator::new(0, 0))), cospans)
}

#[test]
fn expand_base_singular_both_ways() {
    let cospan = Cospan {
        forward: Rewrite::RewriteN(rw(&[(0, 1), (1, 1)])),
        backward: Rewrite::RewriteN(rw(&[(0, 1)])),
    };
    let d = diagram(vec![cospan]);
    let (r, x) = expand_base_singular(&d, 0, 0, Direction::Forward).unwrap();
    assert_eq!(cones(&r), vec![(0, 2)]);
    assert_eq!(r.dimension(), 1);
    assert_eq!(cones(&x.forward0), vec![(1, 1)]);
    assert_eq!(cones(&x.regular_slice), vec![(0, 1)]);

    let (r, x) = expand_base_singular(&d, 0, 0, Direction::Backward).unwrap();
    assert_eq!(cones(&r), vec![(0, 2)]);
    assert_eq!(cones(&x.forward0), vec![]);
    assert_eq!(cones(&x.backward0), vec![(1, 1)]);
    assert_eq!(cones(&x.forward1), vec![(0, 1)]);
    assert_eq!(cones(&x.backward1), vec![(0, 1)]);
    assert_eq!(cones(&x.singular_slice0), vec![(0, 1)]);
    assert_eq!(cones(&x.singular_slice1), vec![(1, 1)]);
    assert_eq!(cones(&x.regular_slice), vec![(0, 1), (1, 1)]);
}

#[test]
fn expand_base_singular_errors() {
    let cospan = Cospan {
        forward: Rewrite::RewriteN(rw(&[(0, 1)])),
        backward: Rewrite::RewriteN(rw(&[(0, 1)])),
    };
    let d = diagram(vec![cospan]);
    assert_eq!(expand_base_singular(&d, 1, 0, Direction::Forward).err(), Some(ExpansionError::OutOfBounds));
    assert_eq!(
        expand_base_singular(&d, 0, 0, Direction::Forward).err(),
        Some(ExpansionError::SingleComponent)
    );
    assert_eq!(expand_base_singular(&d, 0, 3, Direction::Backward).err(), Some(ExpansionError::NoComponent));
    let points = diagram(vec![Cospan {
        forward: Rewrite::Rewrite0(Rewrite0::identity()),
        backward: Rewrite::Rewrite0(Rewrite0::identity()),
    }]);
    assert_eq!(
        expand_base_singular(&points, 0, 0, Direction::Forward).err(),
        Some(ExpansionError::Dimension(DimensionError))
    );
}

fn composite(a: &RewriteN, b: &RewriteN) -> Vec<(usize, usize)> {
    cones(&a.compose(b).unwrap())
}

#[test]
fn expand_cospan_squares_commute() {
    // The new cospans, followed by the singular slices, give back the old cospan and the
    // regular slice.
    for (h, f, b) in [
        (0, rw(&[(0, 1), (1, 1)]), rw(&[(0, 1)])),
        (1, rw(&[(1, 0)]), rw(&[(0, 1), (1, 1)])),
        (0, rw(&[(0, 2)]), rw(&[(1, 1)])),
    ] {
        let x = expand_cospan(h, &f, &b).unwrap();
        assert_eq!(composite(&x.forward0, &x.singular_slice0), cones(&f));
        assert_eq!(composite(&x.backward0, &x.singular_slice0), cones(&x.regular_slice));
        assert_eq!(composite(&x.forward1, &x.singular_slice1), cones(&x.regular_slice));
        assert_eq!(composite(&x.backward1, &x.singular_slice1), cones(&b));
    }
}
