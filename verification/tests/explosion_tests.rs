use homotopy::common::{Boundary, DimensionError, Direction, Generator, Height, SliceIndex};
use homotopy::diagram::{Cospan, Diagram, Diagram0, DiagramN, RewritingError};
use homotopy::explosion::{explode, RewriteOrigin};
use homotopy::graph::{Edge, Graph, Node};
use homotopy::rewrite::{Cone, Rewrite, Rewrite0, RewriteN};

fn point() -> Diagram {
    Diagram::Diagram0(Diagram0::from(Generator::new(0, 0)))
}

fn unit_cospan() -> Cospan {
    Cospan {
        forward: Rewrite::Rewrite0(Rewrite0::identity()),
        backward: Rewrite::Rewrite0(Rewrite0::identity()),
    }
}

fn diagram(size: usize) -> Diagram {
    let mut cospans = vec![];
    for _ in 0..size {
        cospans.push(unit_cospan());
    }
    Diagram::DiagramN(DiagramN::new(point(), cospans))
}

fn triples(g: &Graph<(Node, SliceIndex), RewriteOrigin>) -> Vec<(usize, usize, RewriteOrigin)> {
    let mut v = vec![];
    for e in 0..g.edge_count() {
        let e = Edge(e);
        v.push((g.source(e).0, g.target(e).0, *g.edge_weight(e).unwrap()));
    }
    v
}

fn weights(g: &Graph<(Node, SliceIndex), RewriteOrigin>) -> Vec<(Node, SliceIndex)> {
    let mut v = vec![];
    for n in 0..g.node_count() {
        v.push(*g.node_weight(Node(n)).unwrap());
    }
    v
}

#[test]
fn explode_single_diagram() {
    let mut g: Graph<Diagram, Rewrite> = Graph::new();
    g.add_node(diagram(1));
    let x = explode(&g).unwrap();
    let n = Node(0);
    assert_eq!(
        weights(&x.output),
        vec![
            (n, SliceIndex::Boundary(Boundary::Source)),
            (n, SliceIndex::Interior(Height::Regular(0))),
            (n, SliceIndex::Interior(Height::Singular(0))),
            (n, SliceIndex::Interior(Height::Regular(1))),
            (n, SliceIndex::Boundary(Boundary::Target)),
        ]
    );
    assert_eq!(
        triples(&x.output),
        vec![
            (0, 1, RewriteOrigin::Boundary(Boundary::Source)),
            (1, 2, RewriteOrigin::Internal(0, Direction::Forward)),
            (3, 2, RewriteOrigin::Internal(0, Direction::Backward)),
            (4, 3, RewriteOrigin::Boundary(Boundary::Target)),
        ]
    );
    assert_eq!(x.node_to_nodes, vec![vec![Node(0), Node(1), Node(2), Node(3), Node(4)]]);
    assert_eq!(x.node_to_edges, vec![vec![Edge(0), Edge(1), Edge(2), Edge(3)]]);
    assert!(x.edge_to_edges.is_empty());
}

#[test]
fn explode_merging_rewrite() {
    // A rewrite that merges the two singular heights of one diagram into one.
    let mut g: Graph<Diagram, Rewrite> = Graph::new();
    let a = g.add_node(diagram(2));
    let b = g.add_node(diagram(1));
    g.add_edge(a, b, Rewrite::RewriteN(RewriteN::new(1, vec![Cone { index: 0, len: 2 }])));
    let x = explode(&g).unwrap();
    assert_eq!(x.output.node_count(), 7 + 5);
    assert_eq!(x.node_to_nodes[1][0], Node(7));
    assert_eq!(x.node_to_edges[1], vec![Edge(6), Edge(7), Edge(8), Edge(9)]);
    let all = triples(&x.output);
    assert_eq!(all.len(), 6 + 4 + 9);
    assert_eq!(
        all[10..].to_vec(),
        vec![
            (0, 7, RewriteOrigin::Boundary(Boundary::Source)),
            (1, 8, RewriteOrigin::Sparse(0)),
            (1, 9, RewriteOrigin::UnitSlice),
            (2, 9, RewriteOrigin::SingularSlice(0)),
            (3, 9, RewriteOrigin::RegularSlice),
            (4, 9, RewriteOrigin::SingularSlice(1)),
            (5, 9, RewriteOrigin::UnitSlice),
            (5, 10, RewriteOrigin::Sparse(1)),
            (6, 11, RewriteOrigin::Boundary(Boundary::Target)),
        ]
    );
    assert_eq!(x.edge_to_edges, vec![(10..19).map(Edge).collect::<Vec<_>>()]);
}

#[test]
fn explode_unit_rewrite() {
    // A rewrite that inserts a singular height: its cone has no source heights.
    let mut g: Graph<Diagram, Rewrite> = Graph::new();
    let a = g.add_node(diagram(0));
    let b = g.add_node(diagram(1));
    g.add_edge(a, b, Rewrite::RewriteN(RewriteN::new(1, vec![Cone { index: 0, len: 0 }])));
    let x = explode(&g).unwrap();
    let all = triples(&x.output);
    // Slices: 3 of the first diagram, 5 of the second.
    assert_eq!(
        all[2 + 4..].to_vec(),
        vec![
            (0, 3, RewriteOrigin::Boundary(Boundary::Source)),
            (1, 4, RewriteOrigin::Sparse(0)),
            (1, 5, RewriteOrigin::RegularSlice),
            (1, 6, RewriteOrigin::Sparse(1)),
            (2, 7, RewriteOrigin::Boundary(Boundary::Target)),
        ]
    );
}

#[test]
fn explode_refuses_points_and_zero_rewrites() {
    let mut g: Graph<Diagram, Rewrite> = Graph::new();
    g.add_node(diagram(1));
    g.add_node(point());
    assert_eq!(explode(&g).err(), Some(DimensionError));

    let mut g: Graph<Diagram, Rewrite> = Graph::new();
    let a = g.add_node(diagram(1));
    let b = g.add_node(diagram(1));
    g.add_edge(a, b, Rewrite::Rewrite0(Rewrite0::identity()));
    assert_eq!(explode(&g).err(), Some(DimensionError));
}

#[test]
fn explode_maps_follow_the_graph() {
    let mut g: Graph<Diagram, Rewrite> = Graph::new();
    let a = g.add_node(diagram(2));
    let b = g.add_node(diagram(1));
    let c = g.add_node(diagram(2));
    g.add_edge(a, b, Rewrite::RewriteN(RewriteN::new(1, vec![Cone { index: 0, len: 2 }])));
    g.add_edge(b, c, Rewrite::RewriteN(RewriteN::new(1, vec![Cone { index: 1, len: 0 }])));
    let x = explode(&g).unwrap();
    for n in 0..3 {
        for s in &x.node_to_nodes[n] {
            assert_eq!(x.output.node_weight(*s).unwrap().0, Node(n));
        }
        for e in &x.node_to_edges[n] {
            assert_eq!(x.output.node_weight(x.output.source(*e)).unwrap().0, Node(n));
            assert_eq!(x.output.node_weight(x.output.target(*e)).unwrap().0, Node(n));
        }
    }
    for (e, (s, t)) in [(a, b), (b, c)].into_iter().enumerate() {
        for f in &x.edge_to_edges[e] {
            assert_eq!(x.output.node_weight(x.output.source(*f)).unwrap().0, s);
            assert_eq!(x.output.node_weight(x.output.target(*f)).unwrap().0, t);
        }
    }
}

#[test]
fn diagram_identities() {
    let id = point().identity();
    assert_eq!(id.size(), 0);
    assert_eq!(id.dimension(), 1);
    let weak = point().weak_identity();
    assert_eq!(weak.size(), 1);
    assert!(matches!(&weak.cospans()[0].forward, Rewrite::Rewrite0(r) if r.is_identity()));
    let up = Diagram::DiagramN(weak).weak_identity();
    assert_eq!(up.dimension(), 2);
    assert!(matches!(&up.cospans()[0].backward, Rewrite::RewriteN(r) if r.is_identity() && r.dimension() == 1));
    assert_eq!(diagram(3).size(), Some(3));
    assert_eq!(point().size(), None);
    assert_eq!(diagram(2).dimension(), 1);
}

#[test]
fn points_rewrite_and_slice() {
    let x = Diagram0::from(Generator::new(0, 0));
    let y = Diagram0::from(Generator::new(1, 1));
    let z = Diagram0::from(Generator::new(2, 0));
    let up = Rewrite0::new(x, y, None);
    assert_eq!(x.rewrite_forward(&up), Ok(y));
    assert_eq!(y.rewrite_backward(&up), Ok(x));
    assert_eq!(z.rewrite_forward(&up), Err(RewritingError::Incompatible));
    assert_eq!(z.rewrite_forward(&Rewrite0::identity()), Ok(z));
    // x -> y <- z -> y <- x
    let d = DiagramN::new(
        Diagram::Diagram0(x),
        vec![
            Cospan { forward: Rewrite::Rewrite0(Rewrite0::new(x, y, None)), backward: Rewrite::Rewrite0(Rewrite0::new(z, y, None)) },
            Cospan { forward: Rewrite::Rewrite0(Rewrite0::new(z, y, None)), backward: Rewrite::Rewrite0(Rewrite0::new(x, y, None)) },
        ],
    );
    assert_eq!(d.point_slices(), Ok(vec![x, y, z, y, x]));
    let bad = DiagramN::new(
        Diagram::Diagram0(x),
        vec![Cospan { forward: Rewrite::Rewrite0(Rewrite0::new(z, y, None)), backward: Rewrite::Rewrite0(Rewrite0::identity()) }],
    );
    assert_eq!(bad.point_slices(), Err(RewritingError::Incompatible));
}
