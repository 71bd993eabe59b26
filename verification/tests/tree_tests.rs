use homotopy::tree::{Node, Tree};

/// root(0) -> a(1) -> c(3)
///         -> b(2)
fn sample() -> (Tree<&'static str>, Node, Node, Node, Node) {
    let mut t = Tree::new("root");
    let root = t.root();
    let a = t.push_onto(root, "a").unwrap();
    let b = t.push_onto(root, "b").unwrap();
    let c = t.push_onto(a, "c").unwrap();
    (t, root, a, b, c)
}

#[test]
fn tree_push_and_navigate() {
    let (t, root, a, b, c) = sample();
    assert_eq!(root, Node(0));
    assert_eq!((a, b, c), (Node(1), Node(2), Node(3)));
    assert_eq!(t.get(root).unwrap().children(), vec![a, b]);
    assert_eq!(t.get(root).unwrap().children_rev(), vec![b, a]);
    assert_eq!(t.get(root).unwrap().last(), Some(b));
    assert_eq!(t.get(c).unwrap().parent(), Some(a));
    assert!(t.get(c).unwrap().is_empty());
    assert_eq!(*t.get(a).unwrap().inner(), "a");
    assert!(t.get(Node(9)).is_none());
    assert_eq!(t.with(b, |nd| *nd.inner()), Some("b"));
    assert_eq!(t.with(Node(9), |nd| *nd.inner()), None);
}

#[test]
fn tree_push_onto_missing_node() {
    let mut t = Tree::new(0u8);
    assert_eq!(t.push_onto(Node(5), 1), None);
}

#[test]
fn tree_ancestors_and_descendents() {
    let (t, root, a, b, c) = sample();
    assert_eq!(t.ancestors_of(c), vec![c, a, root]);
    assert_eq!(t.ancestors_of(root), vec![root]);
    assert_eq!(t.ancestors_of(Node(42)), Vec::<Node>::new());
    assert_eq!(t.descendents_of(root), vec![root, a, b, c]);
    assert_eq!(t.descendents_of(a), vec![a, c]);
    // A node that does not exist is reported alone.
    assert_eq!(t.descendents_of(Node(42)), vec![Node(42)]);
    let order: Vec<Node> = t.iter().into_iter().map(|(n, _)| n).collect();
    assert_eq!(order, vec![root, a, b, c]);
}

#[test]
fn tree_remove_detaches_subtree() {
    let (mut t, root, a, b, c) = sample();
    t.remove(a);
    assert_eq!(t.get(root).unwrap().children(), vec![b]);
    assert_eq!(t.get(a).unwrap().parent(), None);
    assert_eq!(t.get(a).unwrap().children(), vec![c]);
    assert_eq!(t.descendents_of(root), vec![root, b]);
    // Removing the root changes nothing.
    t.remove(root);
    assert_eq!(t.get(root).unwrap().children(), vec![b]);
}

#[test]
fn tree_reparent_under_and_before() {
    let (mut t, root, a, b, c) = sample();
    t.reparent_under(c, b);
    assert_eq!(t.get(a).unwrap().children(), Vec::<Node>::new());
    assert_eq!(t.get(b).unwrap().children(), vec![c]);
    assert_eq!(t.get(c).unwrap().parent(), Some(b));
    t.reparent_before(c, a);
    assert_eq!(t.get(root).unwrap().children(), vec![c, a, b]);
    assert_eq!(t.get(b).unwrap().children(), Vec::<Node>::new());
    // Reparenting next to itself, or next to the root, changes nothing.
    t.reparent_before(c, c);
    t.reparent_before(c, root);
    assert_eq!(t.get(root).unwrap().children(), vec![c, a, b]);
}

#[test]
fn tree_clean_up_renumbers_reachable_nodes() {
    let (mut t, root, a, b, _c) = sample();
    t.remove(a);
    t.clean_up();
    assert_eq!(t.root(), Node(0));
    assert_eq!(*t.get(Node(0)).unwrap().inner(), "root");
    assert_eq!(*t.get(Node(1)).unwrap().inner(), "b");
    assert!(t.get(Node(2)).is_none());
    assert_eq!(t.get(Node(0)).unwrap().children(), vec![Node(1)]);
    assert_eq!(t.get(Node(1)).unwrap().parent(), Some(Node(0)));
    let _ = (root, b);
}

#[test]
fn tree_clean_up_keeps_breadth_first_order() {
    let mut t = Tree::new(0u32);
    let r = t.root();
    let x = t.push_onto(r, 1).unwrap();
    let y = t.push_onto(x, 2).unwrap();
    let z = t.push_onto(r, 3).unwrap();
    let _ = (y, z);
    t.clean_up();
    let data: Vec<u32> = t.iter().into_iter().map(|(_, nd)| *nd.inner()).collect();
    assert_eq!(data, vec![0, 1, 3, 2]);
    assert_eq!(*t.get(Node(2)).unwrap().inner(), 3);
    assert_eq!(t.get(Node(3)).unwrap().parent(), Some(Node(1)));
}

#[test]
fn tree_map_and_transpose() {
    let (t, root, a, _b, c) = sample();
    let lengths = t.map(|s: &str| s.len());
    assert_eq!(*lengths.get(root).unwrap().inner(), 4);
    assert_eq!(lengths.get(c).unwrap().parent(), Some(a));

    let mut full: Tree<Option<u8>> = Tree::new(Some(1));
    let r = full.root();
    full.push_onto(r, Some(2));
    let t2 = full.transpose().unwrap();
    assert_eq!(*t2.get(Node(1)).unwrap().inner(), 2);

    let mut holey: Tree<Option<u8>> = Tree::new(Some(1));
    let r = holey.root();
    holey.push_onto(r, None);
    assert!(holey.transpose().is_none());
}

#[test]
fn tree_default_and_node_data() {
    let t: Tree<u32> = Tree::default();
    assert_eq!(t.root(), Node(0));
    assert_eq!(*t.get(Node(0)).unwrap().inner(), 0);
    let mut t = Tree::new(5u32);
    *t.get_mut(Node(0)).unwrap().inner_mut() += 1;
    assert_eq!(*t.get(Node(0)).unwrap().inner(), 6);
}

#[test]
fn tree_filter_map_keeps_mapped_nodes() {
    let (t, _root, _a, _b, _c) = sample();
    let r = t.filter_map(|s: &&str| if *s != "b" { Some(s.len()) } else { None });
    assert_eq!(r.root(), Node(0));
    // The root always stays, holding the default value.
    assert_eq!(*r.get(Node(0)).unwrap().inner(), 0);
    assert_eq!(r.get(Node(0)).unwrap().children(), vec![Node(1)]);
    assert_eq!(*r.get(Node(1)).unwrap().inner(), 1);
    assert_eq!(r.get(Node(1)).unwrap().children(), vec![Node(2)]);
    assert_eq!(*r.get(Node(2)).unwrap().inner(), 1);
    assert_eq!(r.get(Node(2)).unwrap().parent(), Some(Node(1)));
    assert!(r.get(Node(3)).is_none());
}

#[test]
fn tree_filter_map_renumbers_breadth_first() {
    let mut t = Tree::new(10u32);
    let r = t.root();
    let x = t.push_onto(r, 11).unwrap();
    let _y = t.push_onto(x, 12).unwrap();
    let _z = t.push_onto(r, 13).unwrap();
    let m = t.filter_map(|v: &u32| Some(*v * 2));
    let data: Vec<u32> = m.iter().into_iter().map(|(_, nd)| *nd.inner()).collect();
    assert_eq!(data, vec![0, 22, 26, 24]);
    assert_eq!(m.get(Node(3)).unwrap().parent(), Some(Node(1)));
}
