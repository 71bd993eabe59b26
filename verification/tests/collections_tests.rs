use homotopy::graph::{Edge, Graph, Node as GNode};
use homotopy::idx::IdxVec;
use homotopy::union_find::UnionFind;

#[test]
fn idx_vec_push_get_and_keys() {
    let mut v: IdxVec<u32, char> = IdxVec::new();
    assert!(v.is_empty());
    assert_eq!(v.push('a'), 0u32);
    assert_eq!(v.push('b'), 1u32);
    assert_eq!(v.len(), 2);
    assert_eq!(v.get(1u32), Some(&'b'));
    assert_eq!(v.get(2u32), None);
    assert_eq!(*v.index(0u32), 'a');
    v.set(0u32, 'z');
    assert_eq!(v.keys(), vec![0u32, 1u32]);
    assert_eq!(v.values(), vec![&'z', &'b']);
    assert!(v.contains(&'b'));
    assert!(!v.contains(&'a'));
    assert_eq!(v.pop(), Some('b'));
    assert_eq!(v.len(), 1);
}

#[test]
fn idx_vec_contains_key_compares_length_below_index() {
    let v: IdxVec<u32, u8> = IdxVec::from_vec(vec![1, 2, 3]);
    // True only when the length is below the index.
    assert!(!v.contains_key(0u32));
    assert!(!v.contains_key(3u32));
    assert!(v.contains_key(4u32));
}

#[test]
fn idx_vec_map_splat_and_into_iter() {
    let v: IdxVec<u64, u32> = IdxVec::splat(3, 2);
    assert_eq!(v.into_raw(), vec![3, 3]);
    let w: IdxVec<u64, u32> = IdxVec::from_vec(vec![1, 2, 3]);
    let doubled = w.map(|x: u32| x * 2);
    assert_eq!(doubled.into_values(), vec![2, 4, 6]);
    let w: IdxVec<u64, u32> = IdxVec::from_vec(vec![5, 6]);
    let mut it = w.into_iter();
    assert_eq!(it.len(), 2);
    assert_eq!(it.next(), Some((0u64, 5)));
    assert_eq!(it.next(), Some((1u64, 6)));
    assert_eq!(it.next(), None);
}

#[test]
fn union_find_joins_classes() {
    let data: IdxVec<u32, ()> = IdxVec::splat((), 5);
    let mut uf: UnionFind<u32> = UnionFind::new(&data);
    assert_eq!(uf.len(), 5);
    uf.union(0, 1);
    uf.union(3, 4);
    assert_eq!(uf.find(0), uf.find(1));
    assert_eq!(uf.find(3), uf.find(4));
    assert_ne!(uf.find(0), uf.find(3));
    assert_eq!(uf.find(2), 2);
    uf.union(1, 4);
    assert_eq!(uf.find(0), uf.find(3));
    // A union that is already in place changes nothing.
    let before = uf.find(0);
    uf.union(0, 4);
    assert_eq!(uf.find(0), before);
}

#[test]
fn graph_edges_and_adjacency() {
    let mut g: Graph<&str, u8> = Graph::new();
    let a = g.add_node("a");
    let b = g.add_node("b");
    let c = g.add_node("c");
    assert_eq!((a, b, c), (GNode(0), GNode(1), GNode(2)));
    let e0 = g.add_edge(a, b, 1);
    let e1 = g.add_edge(b, c, 2);
    assert_eq!((e0, e1), (Edge(0), Edge(1)));
    assert_eq!(g.node_count(), 3);
    assert_eq!(g.edge_count(), 2);
    assert_eq!(g.find_edge(a, b), Some(e0));
    assert_eq!(g.find_edge(a, c), None);
    assert_eq!(g.source(e1), b);
    assert_eq!(g.target(e1), c);
    assert_eq!(g.outgoing_edges(b), vec![e1]);
    assert_eq!(g.incoming_edges(b), vec![e0]);
    assert_eq!(g.sources(), vec![a]);
    assert_eq!(g.targets(), vec![c]);
    // Updating an existing edge keeps its index and changes its weight.
    assert_eq!(g.update_edge(a, b, 9), e0);
    assert_eq!(g.edge_weight(e0), Some(&9));
    assert_eq!(g.edge_count(), 2);
    // Updating a missing edge adds it.
    assert_eq!(g.update_edge(c, a, 4), Edge(2));
    assert_eq!(g.sources(), Vec::<GNode>::new());
    assert_eq!(g.node_weight(c), Some(&"c"));
    assert_eq!(g.node_weight(GNode(7)), None);
    assert_eq!(g.node_keys(), vec![a, b, c]);
    assert_eq!(g.edge_keys(), vec![Edge(0), Edge(1), Edge(2)]);
}

#[test]
fn graph_map_keeps_structure() {
    let mut g: Graph<u32, u32> = Graph::new();
    let a = g.add_node(1);
    let b = g.add_node(2);
    g.add_edge(a, b, 10);
    let h = g.map(|v: u32| v + 1, |e: u32| e * 2);
    assert_eq!(h.node_weight(a), Some(&2));
    assert_eq!(h.node_weight(b), Some(&3));
    assert_eq!(h.edge_weight(Edge(0)), Some(&20));
    assert_eq!(h.find_edge(a, b), Some(Edge(0)));
}
