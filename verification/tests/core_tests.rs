use homotopy::common::{Boundary, Direction, Generator, Height, Orientation, SliceIndex};
use homotopy::contraction::Bias;
use homotopy::cubicalisation::{injectify, regular_expansion, singular_expansion, Bias as CubicalBias};
use homotopy::diagram::Diagram0;
use homotopy::graphic2d::orient_surface;
use homotopy::iter::ZeroOneMany;
use homotopy::labelled::strip_boundaries;
use homotopy::manifold::{is_visible, stratum};
use homotopy::monotone::Monotone;
use homotopy::normalization::Degeneracy;
use homotopy::projection::min_defined;
use homotopy::scaffold::{ExternalRewrite, InternalRewrite};
use homotopy::timeout::{reset_timeout_state, timeout_if_needed, timeout_now};
use homotopy::typecheck::Embedding;
use homotopy::util::{first_max_generator, join};
use std::rc::Rc;

#[test]
fn contraction_bias_flip() {
    assert_eq!(Bias::Higher.flip(), Bias::Lower);
    assert_eq!(Bias::Lower.flip(), Bias::Higher);
    assert_eq!(Bias::Same.flip(), Bias::Same);
    assert_eq!(Bias::Higher.flip().flip(), Bias::Higher);
}

#[test]
fn cubical_bias_reverse() {
    assert_eq!(CubicalBias::Left.reverse(), CubicalBias::Right);
    assert_eq!(CubicalBias::Right.reverse().reverse(), CubicalBias::Right);
}

#[test]
fn diagram0_orientation_transform() {
    let g = Generator::new(1, 0);
    let d = Diagram0::from(g);
    assert_eq!(d.orientation, Orientation::Positive);
    let n = d.orientation_transform(Orientation::Negative);
    assert_eq!(n, Diagram0::new(g, Orientation::Negative));
    assert_eq!(n.orientation_transform(Orientation::Negative), d);
    assert_eq!(d.orientation_transform(Orientation::Zero).orientation, Orientation::Zero);
}

#[test]
fn scaffold_rewrite_kinds() {
    assert_eq!(InternalRewrite::Boundary(Boundary::Source).direction(), Direction::Forward);
    assert_eq!(InternalRewrite::Boundary(Boundary::Target).direction(), Direction::Backward);
    assert_eq!(InternalRewrite::Interior(3, Direction::Backward).direction(), Direction::Backward);
    let flange = ExternalRewrite::RegularSlice { source_height: 0, target_height: 1, flange: true };
    let plain = ExternalRewrite::RegularSlice { source_height: 0, target_height: 1, flange: false };
    assert!(!flange.is_atomic());
    assert!(flange.is_flange());
    assert!(!plain.is_flange());
    assert!(ExternalRewrite::Sparse(2).is_atomic());
    assert!(!ExternalRewrite::SingularSlice { source_height: 0, target_height: 0 }.is_flange());
}

#[test]
fn manifold_stratum_and_visibility() {
    assert_eq!(stratum(&[Height::Regular(0), Height::Singular(1), Height::Singular(2)]), 2);
    assert_eq!(stratum(&[]), 0);
    assert!(is_visible(&[Height::Regular(0), Height::Singular(0)]));
    assert!(!is_visible(&[Height::Singular(0), Height::Regular(1)]));
}

#[test]
fn labelled_strip_boundaries() {
    let inner = [SliceIndex::Interior(Height::Regular(0)), SliceIndex::Interior(Height::Singular(1))];
    assert_eq!(strip_boundaries(&inner), Some(vec![Height::Regular(0), Height::Singular(1)]));
    let edge = [SliceIndex::Interior(Height::Regular(0)), SliceIndex::Boundary(Boundary::Target)];
    assert_eq!(strip_boundaries(&edge), None);
    assert_eq!(strip_boundaries(&[]), Some(vec![]));
}

#[test]
fn projection_min_defined() {
    assert_eq!(min_defined(None, None), None);
    assert_eq!(min_defined(None, Some(3)), Some(3));
    assert_eq!(min_defined(Some(4), None), Some(4));
    assert_eq!(min_defined(Some(4), Some(3)), Some(3));
    assert_eq!(min_defined(min_defined(Some(5), None), Some(7)), Some(5));
}

#[test]
fn util_first_max_generator_and_join() {
    let gs = [Generator::new(1, 1), Generator::new(2, 2), Generator::new(3, 2), Generator::new(4, 0)];
    assert_eq!(first_max_generator(&gs), Some(Generator::new(2, 2)));
    assert_eq!(first_max_generator(&[]), None);
    assert_eq!(join(|| 1 + 1, || "x"), (2, "x"));
}

#[test]
fn graphic2d_orient_surface() {
    let r0 = SliceIndex::Interior(Height::Regular(0));
    let r1 = SliceIndex::Interior(Height::Regular(1));
    let s0 = SliceIndex::Interior(Height::Singular(0));
    let src = SliceIndex::Boundary(Boundary::Source);
    let p0 = (r0, r0);
    let p1 = (r1, r0);
    // Counterclockwise: left as is.
    assert_eq!(orient_surface((p0, p1, (r1, s0))), (p0, p1, (r1, s0)));
    // Clockwise: the first two corners are exchanged.
    assert_eq!(orient_surface((p0, p1, (r1, src))), (p1, p0, (r1, src)));
}

#[test]
fn cubicalisation_expansions() {
    let labels = ['a', 'b', 'c', 'd', 'e'];
    assert_eq!(singular_expansion(&labels, &[2]), vec!['a', 'b', 'c', 'c', 'c', 'd', 'e']);
    assert_eq!(
        regular_expansion(&labels, &[2, 3]),
        vec!['a', 'b', 'b', 'b', 'c', 'd', 'd', 'd', 'd', 'd', 'e']
    );
    assert_eq!(regular_expansion(&['x'], &[]), vec!['x']);
}

#[test]
fn cubicalisation_injectify() {
    let mut it = injectify(&[0, 1], &[1, 1], &[1, 2], true);
    assert_eq!(it.constraints, vec![0..1, 2..3]);
    assert_eq!(it.next(), Some(Monotone::from_vec(vec![0, 2])));
    assert_eq!(it.next(), None);

    // Two copies cannot be sent injectively into a single copy.
    let mut none = injectify(&[0, 1], &[1, 2], &[2, 1], false);
    assert_eq!(none.constraints, vec![0..1, 2..2, 3..3]);
    assert_eq!(none.next(), None);
}

#[test]
fn normalization_degeneracy() {
    assert!(Degeneracy::new(vec![], vec![]).is_identity());
    assert!(Degeneracy::new(vec![], vec![Rc::new(Degeneracy::Identity)]).is_identity());
    let d = Degeneracy::new(vec![1, 3], vec![]);
    assert!(!d.is_identity());
    assert_eq!(d.singular_preimage(0), Height::Singular(0));
    assert_eq!(d.singular_preimage(1), Height::Regular(1));
    assert_eq!(d.singular_preimage(2), Height::Singular(1));
    assert_eq!(d.singular_preimage(3), Height::Regular(2));
    assert_eq!(d.singular_preimage(5), Height::Singular(3));
    assert_eq!(Degeneracy::Identity.singular_preimage(4), Height::Singular(4));
    let nested = Degeneracy::Degeneracy(vec![0], vec![Rc::new(Degeneracy::Identity)]);
    assert!(nested.slice_into(0).is_identity());
    assert!(Degeneracy::Identity.slice_into(7).is_identity());
}

#[test]
fn typecheck_embedding_from_point() {
    let e = Embedding::from_point(&[2, 5]);
    match e {
        Embedding::Singular(2, outer) => {
            assert_eq!(outer.len(), 1);
            match &*outer[0] {
                Embedding::Singular(5, inner) => {
                    assert_eq!(inner.len(), 1);
                    assert!(matches!(&*inner[0], Embedding::Zero));
                }
                _ => panic!("expected the second height"),
            }
        }
        _ => panic!("expected the first height"),
    }
    assert!(matches!(Embedding::from_point(&[]), Embedding::Zero));
}

#[test]
fn timeout_flag_round_trip() {
    let mut flag = false;
    assert_eq!(timeout_if_needed(&mut flag), Ok(()));
    timeout_now(&mut flag);
    assert!(flag);
    assert_eq!(timeout_if_needed(&mut flag), Err(()));
    assert!(!flag);
    assert_eq!(timeout_if_needed(&mut flag), Ok(()));
    timeout_now(&mut flag);
    reset_timeout_state(&mut flag);
    assert_eq!(timeout_if_needed(&mut flag), Ok(()));
}

#[test]
fn iter_zero_one_many() {
    let mut e: ZeroOneMany<u8> = ZeroOneMany::default();
    assert_eq!(e.next(), None);
    let mut one = ZeroOneMany::One(5u8);
    assert_eq!(one.next(), Some(5));
    assert_eq!(one.next(), None);
    let mut many = ZeroOneMany::Many(vec![1u8, 2]);
    assert_eq!(many.next(), Some(1));
    assert_eq!(many.next(), Some(2));
    assert_eq!(many.next(), None);
}

use homotopy::projection::{homotopy_at, Homotopy, Strand};

fn strand(direction: Direction, depth: Option<usize>, identity: bool) -> Strand {
    Strand { direction, depth, identity }
}

#[test]
fn homotopy_kinds() {
    let never = |_: usize, _: usize| false;
    let always = |_: usize, _: usize| true;
    // off the singular points nothing is shown
    assert_eq!(homotopy_at(false, &vec![strand(Direction::Forward, None, true)], never), None);
    // only inputs: a duality
    let ins = vec![strand(Direction::Forward, Some(0), true), strand(Direction::Forward, Some(1), true)];
    assert_eq!(homotopy_at(true, &ins, never), Some(Homotopy::Duality));
    // one strand each way
    let through = vec![strand(Direction::Forward, None, true), strand(Direction::Backward, None, true)];
    assert_eq!(homotopy_at(true, &through, never), Some(Homotopy::Identity));
    let bent = vec![strand(Direction::Forward, None, false), strand(Direction::Backward, None, true)];
    assert_eq!(homotopy_at(true, &bent, never), Some(Homotopy::Complex));
    // two strands each way, one of each in front: a braid
    let braid = vec![
        strand(Direction::Forward, Some(0), false),
        strand(Direction::Forward, Some(1), false),
        strand(Direction::Backward, Some(1), false),
        strand(Direction::Backward, Some(0), false),
    ];
    assert_eq!(homotopy_at(true, &braid, never), Some(Homotopy::HalfBraid));
    let front = |i: usize, j: usize| i == 0 && j == 3;
    assert_eq!(homotopy_at(true, &braid, front), Some(Homotopy::FullBraid));
    assert_eq!(homotopy_at(true, &braid, always), Some(Homotopy::FullBraid));
    // an undefined depth is the front
    let undefined_front = vec![
        strand(Direction::Forward, None, false),
        strand(Direction::Forward, None, false),
        strand(Direction::Backward, None, false),
        strand(Direction::Backward, Some(0), false),
    ];
    assert_eq!(homotopy_at(true, &undefined_front, always), Some(Homotopy::Complex));
}
