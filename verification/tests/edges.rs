use bimap::BiHashMap;
use connectome_model::complex::SimplicialComplex;
use connectome_model::renumber::compact_slots;

#[test]
fn insert_edge_says_whether_the_edge_went_in() {
    let mut complex = SimplicialComplex::new(vec![0, 1, 2]);
    assert!(complex.insert_edge(0, 1));
    assert!(!complex.insert_edge(0, 1));
    assert!(!complex.insert_edge(1, 0));
    assert!(!complex.insert_edge(2, 2));
    assert!(complex.holds_edge(0, 1));
    assert!(!complex.holds_edge(1, 0));
    assert!(!complex.holds_edge(2, 2));
    assert_eq!(complex.simplex_counts(), vec![3, 1]);
}

#[test]
fn insert_edge_makes_the_ends_vertices() {
    let mut complex = SimplicialComplex::new(Vec::new());
    assert!(complex.insert_edge(8, 3));
    assert!(complex.contains(&vec![8]));
    assert!(complex.contains(&vec![3]));
    assert!(complex.contains(&vec![8, 3]));
    assert_eq!(complex.simplex_counts(), vec![2, 1]);
}

#[test]
fn remove_edge_says_whether_the_edge_was_there() {
    let mut complex = SimplicialComplex::new(vec![0, 1, 2]);
    complex.insert_edge(0, 1);
    assert!(!complex.remove_edge(1, 0));
    assert!(!complex.remove_edge(1, 2));
    assert_eq!(complex.simplex_counts(), vec![3, 1]);
    assert!(complex.remove_edge(0, 1));
    assert!(!complex.remove_edge(0, 1));
    assert_eq!(complex.simplex_counts(), vec![3]);
}

#[test]
fn remove_edge_takes_every_simplex_that_holds_it() {
    let mut complex = SimplicialComplex::new((0..5).collect());
    for u in 0..5 {
        for v in u + 1..5 {
            assert!(complex.insert_edge(u, v));
        }
    }
    // the full simplex on five vertices
    assert_eq!(complex.simplex_counts(), vec![5, 10, 10, 5, 1]);
    assert_eq!(complex.betti_numbers(), vec![0, 0, 0, 0]);
    assert!(complex.remove_edge(1, 3));
    // of the subsets of five vertices, those that hold both 1 and 3 are gone
    assert_eq!(complex.simplex_counts(), vec![5, 9, 7, 2]);
    assert!(!complex.contains(&vec![0, 1, 2, 3, 4]));
    assert!(!complex.contains(&vec![1, 2, 3]));
    assert!(complex.contains(&vec![0, 1, 2, 4]));
    assert!(complex.contains(&vec![0, 2, 3, 4]));
    assert!(complex.insert_edge(1, 3));
    assert_eq!(complex.simplex_counts(), vec![5, 10, 10, 5, 1]);
}

#[test]
fn the_reverse_edge_after_removal_turns_the_triangle() {
    let mut complex = SimplicialComplex::new(vec![0, 1, 2]);
    complex.insert_edge(0, 1);
    complex.insert_edge(1, 2);
    complex.insert_edge(0, 2);
    assert!(complex.contains(&vec![0, 1, 2]));
    assert!(complex.remove_edge(0, 2));
    assert!(complex.insert_edge(2, 0));
    // 0 -> 1 -> 2 -> 0 is a cycle
    assert_eq!(complex.simplex_counts(), vec![3, 3]);
    assert!(complex.remove_edge(0, 1));
    assert!(complex.insert_edge(1, 0));
    // 1 -> 2, 2 -> 0, 1 -> 0: the triangle [1, 2, 0]
    assert!(complex.contains(&vec![1, 2, 0]));
    assert_eq!(complex.simplex_counts(), vec![3, 3, 1]);
}

#[test]
fn add_vertex_and_push_level() {
    let mut complex = SimplicialComplex::new(vec![1]);
    complex.add_vertex(1);
    complex.add_vertex(2);
    assert_eq!(complex.simplex_counts(), vec![2]);
    assert_eq!(complex.populated_dimensions(), 1);
    complex.push_level();
    assert_eq!(complex.simplex_indices.len(), 2);
    assert_eq!(complex.simplex_counts(), vec![2]);
    assert_eq!(complex.populated_dimensions(), 1);
    assert_eq!(complex.boundary_matrices[0].nrows(), 2);
    assert_eq!(complex.boundary_matrices[0].ncols(), 0);
}

#[test]
fn close_over_finds_the_cofaces() {
    let mut complex = SimplicialComplex::new(vec![0, 1, 2, 3]);
    for &(u, v) in [(0, 1), (1, 2), (0, 2), (1, 3), (0, 3)].iter() {
        complex.insert_edge(u, v);
    }
    complex.delete_simplex(&vec![0, 1, 2]);
    complex.delete_simplex(&vec![0, 1, 3]);
    assert_eq!(complex.simplex_counts(), vec![4, 5]);
    let mut found = vec![vec![9, 9, 9]];
    complex.close_over(&vec![0, 1], &mut found);
    found[1..].sort();
    assert_eq!(found, vec![vec![9, 9, 9], vec![0, 1, 2], vec![0, 1, 3]]);
    assert_eq!(complex.simplex_counts(), vec![4, 5, 2]);
    let again = complex.close_level(&vec![vec![0, 1], vec![1, 2]]);
    assert!(again.is_empty());
}

#[test]
fn close_level_takes_a_whole_dimension() {
    let mut complex = SimplicialComplex::new(vec![0, 1, 2, 3]);
    for &(u, v) in [(0, 1), (1, 2), (0, 2), (1, 3), (0, 3), (2, 3)].iter() {
        complex.insert_edge(u, v);
    }
    assert_eq!(complex.simplex_counts(), vec![4, 6, 4, 1]);
    complex.delete_simplex(&vec![0, 1, 2, 3]);
    let triangles = vec![vec![0, 1, 2], vec![0, 1, 3]];
    let next = complex.close_level(&triangles);
    assert_eq!(next, vec![vec![0, 1, 2, 3]]);
    assert_eq!(complex.simplex_counts(), vec![4, 6, 4, 1]);
}

#[test]
fn compact_slots_closes_the_gaps_in_order() {
    let mut table: BiHashMap<usize, Vec<usize>> = BiHashMap::new();
    table.insert(9, vec![3]);
    table.insert(2, vec![1]);
    table.insert(5, vec![2]);
    compact_slots(&mut table);
    assert_eq!(table.len(), 3);
    assert_eq!(table.get_by_left(&0), Some(&vec![1]));
    assert_eq!(table.get_by_left(&1), Some(&vec![2]));
    assert_eq!(table.get_by_left(&2), Some(&vec![3]));
}

#[test]
fn compact_slots_leaves_dense_slots_and_empty_tables() {
    let mut table: BiHashMap<usize, Vec<usize>> = BiHashMap::new();
    compact_slots(&mut table);
    assert!(table.is_empty());
    table.insert(0, vec![7]);
    table.insert(1, vec![8]);
    compact_slots(&mut table);
    assert_eq!(table.get_by_left(&0), Some(&vec![7]));
    assert_eq!(table.get_by_left(&1), Some(&vec![8]));
    assert_eq!(table.len(), 2);
}

#[test]
fn update_simplex_indices_closes_a_gap() {
    let mut complex = SimplicialComplex::new(vec![10, 20, 30]);
    // open a gap by hand in the table of the vertices
    let (slot, vertex) = complex.simplex_indices[0].remove_by_left(&1).unwrap();
    complex.simplex_indices[0].insert(slot + 5, vertex);
    complex.update_simplex_indices(0);
    assert_eq!(complex.simplex_indices[0].get_by_left(&0), Some(&vec![10]));
    assert_eq!(complex.simplex_indices[0].get_by_left(&1), Some(&vec![30]));
    assert_eq!(complex.simplex_indices[0].get_by_left(&2), Some(&vec![20]));
}

#[test]
fn coface_in_column_puts_the_simplex_together() {
    let mut complex = SimplicialComplex::new(vec![0, 1, 2, 3]);
    for &(u, v) in [(2, 0), (2, 1), (1, 0), (3, 2), (3, 1), (3, 0)].iter() {
        complex.insert_edge(u, v);
    }
    assert_eq!(complex.simplex_counts(), vec![4, 6, 4, 1]);
    assert_eq!(complex.coface_in_column(1, 0), vec![2, 1, 0]);
    assert_eq!(complex.coface_in_column(2, 0), vec![3, 2, 1, 0]);
    for j in 0..4 {
        let triangle = complex.coface_in_column(1, j);
        assert_eq!(complex.simplex_indices[2].get_by_left(&j), Some(&triangle));
    }
}

#[test]
fn add_row_and_add_column_grow_one_matrix() {
    let mut complex = SimplicialComplex::new(vec![0, 1, 2]);
    complex.push_level();
    complex.add_column(0, &vec![0, 2]);
    assert_eq!(complex.boundary_matrices[0].nrows(), 3);
    assert_eq!(complex.boundary_matrices[0].ncols(), 1);
    assert_eq!(complex.boundary_matrices[0].get(0, 0), Some(1));
    assert_eq!(complex.boundary_matrices[0].get(1, 0), Some(0));
    assert_eq!(complex.boundary_matrices[0].get(2, 0), Some(1));
    complex.add_row(0);
    assert_eq!(complex.boundary_matrices[0].nrows(), 4);
    assert_eq!(complex.boundary_matrices[0].get(3, 0), Some(0));
    assert_eq!(complex.boundary_matrices[0].get(0, 0), Some(1));
    assert_eq!(complex.boundary_matrices[1].nrows(), 0);
    complex.add_column(0, &Vec::new());
    assert_eq!(complex.boundary_matrices[0].ncols(), 2);
    assert_eq!(complex.boundary_matrices[0].get(2, 1), Some(0));
}

#[test]
fn insertion_leaves_every_slot_where_it_is() {
    let mut complex = SimplicialComplex::new(vec![0, 1, 2, 3]);
    for &(u, v) in [(0, 1), (1, 2), (0, 2), (2, 3)].iter() {
        complex.insert_edge(u, v);
    }
    let before: Vec<Vec<(usize, Vec<usize>)>> = complex
        .simplex_indices
        .iter()
        .map(|table| table.iter().map(|(k, s)| (*k, s.clone())).collect())
        .collect();
    complex.insert_edge(1, 3);
    complex.insert_edge(0, 3);
    assert_eq!(complex.simplex_counts(), vec![4, 6, 4, 1]);
    for (d, level) in before.iter().enumerate() {
        for (slot, simplex) in level {
            assert_eq!(complex.simplex_indices[d].get_by_left(slot), Some(simplex));
        }
    }
}
