use homotopy::common::{with_direction, Boundary, BoundaryPath, Direction, Generator, Height, Orientation, SliceIndex};

#[test]
fn generator_new_and_suspended() {
    let g = Generator::new(7, 2);
    assert_eq!(g.id, 7);
    assert_eq!(g.dimension, 2);
    let s = g.suspended();
    assert_eq!(s, Generator::new(7, 3));
}

#[test]
fn boundary_flip_is_involutive() {
    assert_eq!(Boundary::Source.flip(), Boundary::Target);
    assert_eq!(Boundary::Target.flip(), Boundary::Source);
    assert_eq!(Boundary::Source.flip().flip(), Boundary::Source);
}

#[test]
fn height_index_roundtrip() {
    assert_eq!(Height::Regular(3).to_index(), 6);
    assert_eq!(Height::Singular(3).to_index(), 7);
    assert_eq!(Height::from_index(6), Height::Regular(3));
    assert_eq!(Height::from_index(7), Height::Singular(3));
    for i in 0..20usize {
        assert_eq!(Height::from_index(i).to_index(), i);
    }
    assert_eq!(Height::from(5usize), Height::Singular(2));
}

#[test]
fn height_for_size_alternates() {
    let hs = Height::for_size(2);
    assert_eq!(
        hs,
        vec![
            Height::Regular(0),
            Height::Singular(0),
            Height::Regular(1),
            Height::Singular(1),
            Height::Regular(2)
        ]
    );
    assert_eq!(Height::for_size(0), vec![Height::Regular(0)]);
}

#[test]
fn height_order() {
    assert!(Height::Regular(0).lt(&Height::Singular(0)));
    assert!(Height::Singular(0).lt(&Height::Regular(1)));
    assert!(!Height::Regular(1).lt(&Height::Singular(0)));
    assert!(!Height::Regular(1).lt(&Height::Regular(1)));
}

#[test]
fn slice_index_order_and_steps() {
    let source = SliceIndex::Boundary(Boundary::Source);
    let target = SliceIndex::Boundary(Boundary::Target);
    let r0 = SliceIndex::Interior(Height::Regular(0));
    let s0 = SliceIndex::Interior(Height::Singular(0));
    let r1 = SliceIndex::Interior(Height::Regular(1));
    assert!(source.lt(&r0));
    assert!(r0.lt(&s0));
    assert!(r1.lt(&target));
    assert!(!target.lt(&source));
    assert_eq!(source.next(1), Some(r0));
    assert_eq!(r0.next(1), Some(s0));
    assert_eq!(r1.next(1), Some(target));
    assert_eq!(target.next(1), None);
    assert_eq!(source.prev(1), None);
    assert_eq!(r0.prev(1), Some(source));
    assert_eq!(target.prev(1), Some(r1));
    assert_eq!(s0.step(1, Direction::Forward), Some(r1));
    assert_eq!(s0.step(1, Direction::Backward), Some(r0));
    assert_eq!(SliceIndex::for_size(1), vec![source, r0, s0, r1, target]);
    assert_eq!(SliceIndex::from(Height::Singular(0)), s0);
    assert_eq!(SliceIndex::from(Boundary::Target), target);
}

#[test]
fn boundary_path_split() {
    let path = vec![
        SliceIndex::Interior(Height::Singular(0)),
        SliceIndex::Boundary(Boundary::Target),
        SliceIndex::Interior(Height::Regular(1)),
        SliceIndex::Interior(Height::Singular(2)),
    ];
    let (bp, heights) = BoundaryPath::split(&path);
    let bp = bp.unwrap();
    assert_eq!(bp.boundary(), Boundary::Target);
    assert_eq!(bp.depth(), 1);
    assert_eq!(heights, vec![Height::Regular(1), Height::Singular(2)]);

    let interior = vec![SliceIndex::Interior(Height::Regular(0))];
    let (bp, heights) = BoundaryPath::split(&interior);
    assert!(bp.is_none());
    assert_eq!(heights, vec![Height::Regular(0)]);

    let bp = BoundaryPath::from(Boundary::Source);
    assert_eq!(bp.boundary(), Boundary::Source);
    assert_eq!(bp.depth(), 0);
}

#[test]
fn orientation_products() {
    assert_eq!(Orientation::Negative.mul(Orientation::Negative), Orientation::Positive);
    assert_eq!(Orientation::Negative.mul(Orientation::Positive), Orientation::Negative);
    assert_eq!(Orientation::Zero.mul(Orientation::Negative), Orientation::Zero);
    assert_eq!(Orientation::product(&[Orientation::Negative, Orientation::Negative, Orientation::Negative]), Orientation::Negative);
    assert_eq!(Orientation::product(&[]), Orientation::Positive);
    assert_eq!(Orientation::product(&[Orientation::Positive, Orientation::Zero]), Orientation::Zero);
    assert_eq!(Orientation::from_direction(Direction::Forward), Orientation::Positive);
    assert_eq!(Orientation::from(Direction::Backward), Orientation::Negative);
}

#[test]
fn height_for_size_doc_example() {
    assert_eq!(
        Height::for_size(1),
        vec![Height::Regular(0), Height::Singular(0), Height::Regular(1)]
    );
}

#[test]
fn slice_index_next_prev_doc_examples() {
    assert_eq!(SliceIndex::Boundary(Boundary::Source).next(1), Some(SliceIndex::Interior(Height::Regular(0))));
    assert_eq!(SliceIndex::Interior(Height::Regular(0)).next(1), Some(SliceIndex::Interior(Height::Singular(0))));
    assert_eq!(SliceIndex::Interior(Height::Singular(0)).next(1), Some(SliceIndex::Interior(Height::Regular(1))));
    assert_eq!(SliceIndex::Interior(Height::Regular(1)).next(1), Some(SliceIndex::Boundary(Boundary::Target)));
    assert_eq!(SliceIndex::Boundary(Boundary::Target).next(1), None);
    assert_eq!(SliceIndex::Boundary(Boundary::Source).prev(1), None);
    assert_eq!(SliceIndex::Interior(Height::Regular(0)).prev(1), Some(SliceIndex::Boundary(Boundary::Source)));
    assert_eq!(SliceIndex::Interior(Height::Singular(0)).prev(1), Some(SliceIndex::Interior(Height::Regular(0))));
    assert_eq!(SliceIndex::Interior(Height::Regular(1)).prev(1), Some(SliceIndex::Interior(Height::Singular(0))));
    assert_eq!(SliceIndex::Boundary(Boundary::Target).prev(1), Some(SliceIndex::Interior(Height::Regular(1))));
}

#[test]
fn slice_index_order_doc_example() {
    assert!(SliceIndex::Boundary(Boundary::Source).lt(&SliceIndex::Interior(Height::Regular(0))));
    assert!(SliceIndex::Interior(Height::Regular(10)).lt(&SliceIndex::Boundary(Boundary::Target)));
}

#[test]
fn boundary_path_split_doc_example() {
    let (bp, heights) = BoundaryPath::split(&[
        SliceIndex::Interior(Height::Regular(0)),
        SliceIndex::Boundary(Boundary::Source),
        SliceIndex::Interior(Height::Singular(0)),
    ]);
    assert_eq!(bp, Some(BoundaryPath(Boundary::Source, 1)));
    assert_eq!(heights, vec![Height::Singular(0)]);
}

#[test]
fn items_with_direction() {
    assert_eq!(with_direction(vec![1, 2, 3], Direction::Forward), vec![1, 2, 3]);
    assert_eq!(with_direction(vec![1, 2, 3], Direction::Backward), vec![3, 2, 1]);
    assert_eq!(with_direction(Vec::<u8>::new(), Direction::Backward), Vec::<u8>::new());
}
