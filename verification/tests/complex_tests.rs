use std::collections::BTreeSet;

use homotopy::manifold::{
    collapse_edge, filter_nodes, has_coface, is_sphere, is_unit_sphere, simplex_boundary, Complex,
};
use im::HashSet;

fn simplex(vertices: &[usize]) -> BTreeSet<usize> {
    vertices.iter().copied().collect()
}

fn faces(list: &[&[usize]]) -> HashSet<BTreeSet<usize>> {
    list.iter().map(|f| simplex(f)).collect()
}

fn complex(list: &[&[usize]]) -> Complex {
    Complex::from_faces(faces(list))
}

#[test]
fn boundary_of_triangle() {
    let boundary = simplex_boundary(&simplex(&[1, 2, 3]));
    assert_eq!(boundary, faces(&[&[1, 2], &[1, 3], &[2, 3]]));
}

#[test]
fn boundary_of_vertex_is_empty_face() {
    let boundary = simplex_boundary(&simplex(&[4]));
    assert_eq!(boundary, faces(&[&[]]));
}

#[test]
fn proper_faces() {
    assert!(has_coface(&simplex(&[1]), &simplex(&[1, 2])));
    assert!(has_coface(&simplex(&[]), &simplex(&[3])));
    assert!(!has_coface(&simplex(&[1, 2]), &simplex(&[1, 2])));
    assert!(!has_coface(&simplex(&[3]), &simplex(&[1, 2])));
}

#[test]
fn from_faces_keeps_maximal_faces() {
    let k = complex(&[&[1], &[1, 2], &[2, 3], &[2], &[1, 2, 4], &[5]]);
    assert_eq!(k.edges(), faces(&[&[1, 2], &[1, 4], &[2, 4], &[2, 3]]));
    assert_eq!(k.vertices(), simplex(&[1, 2, 3, 4, 5]));
    assert_eq!(k.count_cofaces(&simplex(&[2])), 2);
    assert_eq!(k.count_cofaces(&simplex(&[5])), 0);
    assert_eq!(k.count_cofaces(&simplex(&[])), 3);
}

#[test]
fn twofacets_of_square() {
    let k = complex(&[&[0, 1], &[1, 2], &[2, 3], &[0, 3]]);
    assert_eq!(k.twofacets(), faces(&[&[0], &[1], &[2], &[3]]));
    assert_eq!(k.count_cofaces(&simplex(&[1])), 2);
}

#[test]
fn unit_spheres() {
    let triangle = complex(&[&[0, 1], &[1, 2], &[0, 2]]);
    assert!(is_unit_sphere(&triangle, 1));
    assert!(!is_unit_sphere(&triangle, 0));
    let square = complex(&[&[0, 1], &[1, 2], &[2, 3], &[0, 3]]);
    assert!(!is_unit_sphere(&square, 1));
    let tetrahedron = complex(&[&[0, 1, 2], &[0, 1, 3], &[0, 2, 3], &[1, 2, 3]]);
    assert!(is_unit_sphere(&tetrahedron, 2));
}

#[test]
fn collapse_merges_larger_vertex() {
    let square = complex(&[&[0, 1], &[1, 2], &[2, 3], &[0, 3]]);
    let collapsed = collapse_edge(&simplex(&[2, 3]), &square);
    assert_eq!(collapsed.edges(), faces(&[&[0, 1], &[1, 2], &[0, 2]]));
    assert!(is_unit_sphere(&collapsed, 1));
    let nothing = collapse_edge(&simplex(&[1, 2, 3]), &square);
    assert_eq!(nothing.vertices(), simplex(&[]));
}

#[test]
fn spheres() {
    let square = complex(&[&[0, 1], &[1, 2], &[2, 3], &[0, 3]]);
    assert!(is_sphere(&square, 1));
    let path = complex(&[&[0, 1], &[1, 2]]);
    assert!(!is_sphere(&path, 1));
    let two_circles = complex(&[&[0, 1], &[1, 2], &[0, 2], &[3, 4], &[4, 5], &[3, 5]]);
    assert!(!is_sphere(&two_circles, 1));
    let octahedron = complex(&[
        &[0, 2, 4],
        &[0, 2, 5],
        &[0, 3, 4],
        &[0, 3, 5],
        &[1, 2, 4],
        &[1, 2, 5],
        &[1, 3, 4],
        &[1, 3, 5],
    ]);
    assert!(is_sphere(&octahedron, 2));
    assert!(!is_sphere(&octahedron, 1));
}

#[test]
fn filter_nodes_restricts_simplices() {
    let simplices = vec![simplex(&[0, 1, 2]), simplex(&[2, 3]), simplex(&[4])];
    let filtered = filter_nodes(&simplices, &[1, 2, 4]);
    assert_eq!(filtered, vec![simplex(&[1, 2]), simplex(&[2]), simplex(&[4])]);
}

use homotopy::common::Height;
use homotopy::manifold::{is_manifold, neighbourhoods};

fn scaffold_keys() -> Vec<Vec<Height>> {
    vec![
        // a crossing point of the highest stratum
        vec![Height::Singular(0), Height::Singular(0)],
        // visible points on wires through it
        vec![Height::Regular(0), Height::Singular(0)],
        vec![Height::Regular(1), Height::Singular(0)],
        vec![Height::Regular(2), Height::Singular(0)],
        // an invisible point of the lowest stratum
        vec![Height::Regular(0), Height::Regular(0)],
    ]
}

#[test]
fn neighbourhoods_are_chains_into_each_point() {
    let keys = scaffold_keys();
    let incoming = vec![vec![1, 2], vec![4], vec![], vec![], vec![]];
    let result = neighbourhoods(&keys, &incoming);
    assert_eq!(result.len(), 5);
    assert_eq!(result[4], vec![vec![4]]);
    assert_eq!(result[1], vec![vec![1], vec![4, 1]]);
    assert_eq!(result[2], vec![vec![2]]);
    assert_eq!(result[0], vec![vec![0], vec![1, 0], vec![4, 1, 0], vec![2, 0]]);
}

#[test]
fn edges_from_later_points_are_not_followed() {
    // point 4 has stratum 0 and an edge from point 0 of stratum 2, explored later
    let keys = scaffold_keys();
    let incoming = vec![vec![], vec![], vec![], vec![], vec![0]];
    let result = neighbourhoods(&keys, &incoming);
    assert_eq!(result[4], vec![vec![4]]);
}

#[test]
fn wire_through_point_is_manifold() {
    let keys = scaffold_keys();
    let incoming = vec![vec![1, 2], vec![4], vec![], vec![], vec![]];
    assert!(is_manifold(&keys, &incoming, 2));
}

#[test]
fn branching_point_is_not_manifold() {
    let keys = scaffold_keys();
    let incoming = vec![vec![1, 2, 3], vec![], vec![], vec![], vec![]];
    assert!(!is_manifold(&keys, &incoming, 2));
}

#[test]
fn points_of_one_stratum_are_explored_by_index() {
    // points 1 and 2 share a stratum: an edge from 2 into 1 is not followed, one from 1 into 2 is
    let keys = scaffold_keys();
    let incoming = vec![vec![], vec![2], vec![1], vec![], vec![]];
    let result = neighbourhoods(&keys, &incoming);
    assert_eq!(result[1], vec![vec![1]]);
    assert_eq!(result[2], vec![vec![2], vec![1, 2]]);
}
