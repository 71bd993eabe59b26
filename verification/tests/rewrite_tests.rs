use homotopy::monotone::Monotone;
use homotopy::rewrite::{Cone, RewriteN};

fn merge() -> RewriteN {
    // Source singular heights 1 and 2 go to target singular height 1.
    RewriteN::new(1, vec![Cone { index: 1, len: 2 }])
}

fn unit() -> RewriteN {
    // A new target singular height 1, coming from no source height.
    RewriteN::new(1, vec![Cone { index: 1, len: 0 }])
}

#[test]
fn rewrite_identity() {
    let id = RewriteN::identity(2);
    assert!(id.is_identity());
    assert_eq!(id.dimension(), 2);
    assert_eq!(id.singular_image(5), 5);
    assert_eq!(id.singular_preimage(5), 5..6);
    assert_eq!(id.regular_image(3), 3);
    assert_eq!(id.regular_preimage(3), 3..4);
    assert!(!merge().is_identity());
}

#[test]
fn rewrite_targets_and_cone_over_target() {
    assert_eq!(merge().targets(), vec![1]);
    assert_eq!(merge().cone_over_target(1), Some(&Cone { index: 1, len: 2 }));
    assert_eq!(merge().cone_over_target(0), None);
    let two_units = RewriteN::new(1, vec![Cone { index: 2, len: 0 }, Cone { index: 2, len: 0 }]);
    assert_eq!(two_units.targets(), vec![2, 3]);
}

#[test]
fn rewrite_singular_image_and_preimage() {
    let m = merge();
    assert_eq!(m.singular_image(0), 0);
    assert_eq!(m.singular_image(1), 1);
    assert_eq!(m.singular_image(2), 1);
    assert_eq!(m.singular_image(3), 2);
    assert_eq!(m.singular_preimage(0), 0..1);
    assert_eq!(m.singular_preimage(1), 1..3);
    assert_eq!(m.singular_preimage(2), 3..4);
    let u = unit();
    assert_eq!(u.singular_image(0), 0);
    assert_eq!(u.singular_image(1), 2);
    assert_eq!(u.singular_preimage(1), 1..1);
    assert_eq!(u.singular_preimage(2), 1..2);
    // Every height lies in the preimage of its image.
    for i in 0..6usize {
        let j = m.singular_image(i);
        assert!(m.singular_preimage(j).contains(&i));
    }
}

#[test]
fn rewrite_regular_image_and_preimage() {
    let m = merge();
    assert_eq!(m.regular_image(0), 0);
    assert_eq!(m.regular_image(1), 1);
    assert_eq!(m.regular_image(2), 3);
    assert_eq!(m.regular_image(3), 4);
    assert_eq!(m.regular_preimage(0), 0..1);
    assert_eq!(m.regular_preimage(1), 1..2);
    assert_eq!(m.regular_preimage(2), 1..1);
    assert_eq!(m.regular_preimage(3), 2..3);
    let u = unit();
    assert_eq!(u.regular_image(1), 1);
    assert_eq!(u.regular_image(2), 1);
    assert_eq!(u.regular_preimage(1), 1..3);
    let two_units = RewriteN::new(1, vec![Cone { index: 2, len: 0 }, Cone { index: 2, len: 0 }]);
    assert_eq!(two_units.regular_preimage(2), 2..5);
    for r in 2..5usize {
        assert_eq!(two_units.regular_image(r), 2);
    }
}

#[test]
fn rewrite_monotones() {
    assert_eq!(merge().singular_monotone(3), Monotone::from_vec(vec![0, 1, 1]));
    assert_eq!(merge().regular_monotone(2), Monotone::from_vec(vec![0, 1, 3]));
}

use std::collections::BTreeSet;

use homotopy::common::{Boundary, BoundaryPath, Generator, Orientation};
use homotopy::diagram::Diagram0;
use homotopy::rewrite::{CompositionError, Rewrite, Rewrite0};

fn point(id: usize, dimension: usize) -> Diagram0 {
    Diagram0::new(Generator::new(id, dimension), Orientation::Positive)
}

#[test]
fn rewrite0_between_equal_points_is_identity() {
    let r = Rewrite0::new(point(0, 0), point(0, 0), None);
    assert!(r.is_identity());
    assert_eq!(r.source(), None);
    assert!(Rewrite0::identity().is_identity());
}

#[test]
fn rewrite0_compose_follows_on() {
    let f = Rewrite0::new(point(0, 0), point(1, 1), None);
    let g = Rewrite0::new(point(1, 1), point(2, 2), None);
    let fg = f.compose(&g).unwrap();
    assert_eq!(fg.source(), Some(point(0, 0)));
    assert_eq!(fg.target(), Some(point(2, 2)));
    assert_eq!(fg.max_generator(Boundary::Target), Some(point(2, 2)));
    assert_eq!(g.compose(&f).unwrap_err(), CompositionError::Incompatible);
}

#[test]
fn rewrite0_compose_back_is_identity() {
    let f = Rewrite0::new(point(0, 1), point(1, 1), None);
    let g = Rewrite0::new(point(1, 1), point(0, 1), None);
    assert!(f.compose(&g).unwrap().is_identity());
}

#[test]
fn rewrite0_identity_is_unit() {
    let label = Some((Generator::new(3, 1), BoundaryPath(Boundary::Source, 0), BTreeSet::new()));
    let f = Rewrite0::new(point(0, 0), point(1, 1), label.clone());
    let left = Rewrite0::identity().compose(&f).unwrap();
    let right = f.compose(&Rewrite0::identity()).unwrap();
    assert_eq!(left.target(), Some(point(1, 1)));
    assert_eq!(left.label(), label);
    assert_eq!(right.label(), label);
}

#[test]
fn rewrite0_remove_framing_drops_label_of_target() {
    let label = Some((Generator::new(3, 1), BoundaryPath(Boundary::Target, 1), BTreeSet::new()));
    let f = Rewrite0::new(point(0, 0), point(1, 1), label.clone());
    assert_eq!(f.remove_framing(Generator::new(1, 1)).label(), None);
    assert_eq!(f.remove_framing(Generator::new(2, 1)).label(), label);
    let turned = f.orientation_transform_above(Orientation::Negative, 0);
    assert_eq!(
        turned.target(),
        Some(Diagram0::new(Generator::new(1, 1), Orientation::Negative))
    );
    let kept = f.orientation_transform_above(Orientation::Negative, 1);
    assert_eq!(kept.target(), Some(point(1, 1)));
}

#[test]
fn parallel_rewrites_have_single_height_cones() {
    assert!(RewriteN::identity(1).is_parallel());
    assert!(RewriteN::new(1, vec![Cone { index: 0, len: 1 }, Cone { index: 3, len: 1 }]).is_parallel());
    assert!(!merge().is_parallel());
    assert!(!unit().is_parallel());
}

#[test]
fn compose_inserts_before_merge() {
    let composite = merge().compose(&unit()).unwrap();
    assert_eq!(composite.cones(), &vec![Cone { index: 1, len: 0 }, Cone { index: 1, len: 2 }]);
    for i in 0..6 {
        assert_eq!(
            composite.singular_image(i),
            unit().singular_image(merge().singular_image(i))
        );
    }
}

#[test]
fn compose_takes_cones_into_later_cones() {
    let f = RewriteN::new(1, vec![Cone { index: 1, len: 2 }]);
    let g = RewriteN::new(1, vec![Cone { index: 0, len: 2 }]);
    let composite = f.compose(&g).unwrap();
    assert_eq!(composite.cones(), &vec![Cone { index: 0, len: 3 }]);
    assert_eq!(composite.singular_image(2), 0);
    assert_eq!(composite.singular_image(3), 1);
}

#[test]
fn compose_keeps_separate_cones() {
    let f = RewriteN::new(1, vec![Cone { index: 0, len: 2 }, Cone { index: 5, len: 0 }]);
    let g = RewriteN::new(1, vec![Cone { index: 2, len: 1 }]);
    let composite = f.compose(&g).unwrap();
    assert_eq!(
        composite.cones(),
        &vec![Cone { index: 0, len: 2 }, Cone { index: 3, len: 1 }, Cone { index: 5, len: 0 }]
    );
    for i in 0..9 {
        assert_eq!(composite.singular_image(i), g.singular_image(f.singular_image(i)));
    }
}

#[test]
fn compose_needs_equal_dimensions() {
    let f = RewriteN::identity(1);
    let g = RewriteN::identity(2);
    assert_eq!(f.compose(&g).unwrap_err(), CompositionError::Dimension(1, 2));
    assert!(f.compose(&RewriteN::identity(1)).unwrap().is_identity());
}

#[test]
fn rewrites_of_any_dimension() {
    let zero = Rewrite::identity(0);
    let two = Rewrite::identity(2);
    assert_eq!(zero.dimension(), 0);
    assert_eq!(two.dimension(), 2);
    assert!(zero.is_identity() && two.is_identity());
    assert_eq!(zero.compose(&two).unwrap_err(), CompositionError::Dimension(0, 2));
    let f = Rewrite::Rewrite0(Rewrite0::new(point(0, 0), point(1, 1), None));
    let g = Rewrite::Rewrite0(Rewrite0::new(point(1, 1), point(2, 1), None));
    match f.compose(&g).unwrap() {
        Rewrite::Rewrite0(c) => assert_eq!(c.target(), Some(point(2, 1))),
        Rewrite::RewriteN(_) => panic!("composite of 0-rewrites has dimension 0"),
    }
    let m = Rewrite::RewriteN(merge());
    let u = Rewrite::RewriteN(unit());
    match m.compose(&u).unwrap() {
        Rewrite::RewriteN(c) => assert_eq!(c.cones().len(), 2),
        Rewrite::Rewrite0(_) => panic!("composite of 1-rewrites has dimension 1"),
    }
}

#[test]
fn rewrites_from_cone_sizes_and_monotone_maps() {
    let r = RewriteN::from_cone_sizes(1, &vec![2, 0, 1]);
    assert_eq!(
        r.cones(),
        &vec![Cone { index: 0, len: 2 }, Cone { index: 2, len: 0 }, Cone { index: 2, len: 1 }]
    );
    let mono: Monotone = Monotone::from_vec(vec![0, 0, 2]);
    let m = RewriteN::from_monotone(1, &mono, 3);
    assert_eq!(m.cones(), r.cones());
    for i in 0..3 {
        assert_eq!(m.singular_image(i), mono.slices()[i]);
    }
}

#[test]
fn zero_rewrite_compose() {
    let x = Generator::new(0, 0);
    let y = Generator::new(1, 0);
    let z = Generator::new(2, 0);

    let first = Rewrite0::new(Diagram0::from(x), Diagram0::from(y), None);
    let second = Rewrite0::new(Diagram0::from(y), Diagram0::from(z), None);

    let actual = first.compose(&second).unwrap();
    let expected = Rewrite0::new(Diagram0::from(x), Diagram0::from(z), None);
    assert_eq!(actual, expected);
}

#[test]
fn compose_two_units_cone_positions() {
    // Two units, followed by a rewrite with one cone over each of their targets.
    let first = RewriteN::from_cone_sizes(1, &vec![0, 0]);
    let second = RewriteN::from_cone_sizes(1, &vec![1, 1]);
    let expected = RewriteN::from_cone_sizes(1, &vec![0, 0]);

    let actual = RewriteN::compose(&first, &second).unwrap();

    assert_eq!(actual.cones(), expected.cones());
}

#[test]
fn compose_unit_then_insert_cone_positions() {
    // A unit, followed by a rewrite that sends it on and inserts a second height.
    let first = RewriteN::from_cone_sizes(1, &vec![0]);
    let second = RewriteN::from_cone_sizes(1, &vec![1, 0]);
    let expected = RewriteN::from_cone_sizes(1, &vec![0, 0]);

    let actual = RewriteN::compose(&first, &second).unwrap();

    assert_eq!(actual.cones(), expected.cones());
}

#[test]
fn compose_cone_sizes_succeeds() {
    let first = RewriteN::from_cone_sizes(1, &vec![2, 1, 1]);
    assert_eq!(
        first.cones(),
        RewriteN::new(
            1,
            vec![Cone { index: 0, len: 2 }, Cone { index: 2, len: 1 }, Cone { index: 3, len: 1 }]
        )
        .cones()
    );
    let second = RewriteN::from_cone_sizes(1, &vec![1, 1, 1]);

    let actual = RewriteN::compose(&first, &second);

    assert!(actual.is_ok());
}

#[test]
fn compose_composes_regular_images_backwards() {
    let f = RewriteN::new(1, vec![Cone { index: 0, len: 2 }, Cone { index: 5, len: 0 }]);
    let g = RewriteN::new(1, vec![Cone { index: 1, len: 3 }]);
    let composite = f.compose(&g).unwrap();
    for r in 0..6 {
        assert_eq!(composite.regular_image(r), f.regular_image(g.regular_image(r)));
    }
}
