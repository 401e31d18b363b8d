use connectome_model::complex::SimplicialComplex;
use connectome_model::rank::rank;

fn built(vertices: Vec<usize>, edges: &[(usize, usize)]) -> SimplicialComplex {
    let mut complex = SimplicialComplex::new(vertices);
    for &(u, v) in edges {
        complex.add(vec![u, v]);
    }
    complex
}

/// Every simplex in the slot tables, by dimension.
fn all_simplices(complex: &SimplicialComplex) -> Vec<Vec<Vec<usize>>> {
    let mut all = Vec::new();
    for (d, table) in complex.simplex_indices.iter().enumerate() {
        let mut level = Vec::new();
        for k in 0..complex.simplices[d].len() {
            level.push(table.get_by_left(&k).expect("slots are dense").clone());
        }
        assert_eq!(table.len(), level.len());
        all.push(level);
    }
    all
}

/// The stores agree: shapes of the matrices, their entries, the cofacet lists.
fn assert_in_step(complex: &SimplicialComplex) {
    let all = all_simplices(complex);
    let levels = all.len();
    assert_eq!(complex.simplices.len(), levels);
    assert_eq!(complex.boundary_matrices.len(), levels);
    for d in 0..levels {
        let matrix = &complex.boundary_matrices[d];
        let above: &[Vec<usize>] = if d + 1 < levels { &all[d + 1] } else { &[] };
        assert_eq!(matrix.nrows(), all[d].len());
        assert_eq!(matrix.ncols(), above.len());
        for (i, low) in all[d].iter().enumerate() {
            assert_eq!(low.len(), d + 1);
            let mut expected_cofacets = Vec::new();
            for (j, high) in above.iter().enumerate() {
                let mut is_facet = false;
                for p in 0..high.len() {
                    let mut rest = high.clone();
                    let vertex = rest.remove(p);
                    if &rest == low {
                        is_facet = true;
                        expected_cofacets.push(vertex);
                    }
                }
                assert_eq!(matrix.get(i, j), Some(if is_facet { 1 } else { 0 }));
            }
            let mut listed = complex.simplices[d][i].clone();
            listed.sort();
            expected_cofacets.sort();
            assert_eq!(listed, expected_cofacets);
        }
        if d >= 1 {
            for high in all[d].iter() {
                for p in 0..high.len() {
                    let mut rest = high.clone();
                    rest.remove(p);
                    assert!(all[d - 1].contains(&rest), "facet {:?} of {:?} is missing", rest, high);
                }
            }
        }
    }
}

#[test]
fn a_new_complex_holds_its_vertices_only() {
    let complex = SimplicialComplex::new(vec![0, 1, 2]);
    assert_eq!(complex.simplex_counts(), vec![3]);
    assert!(complex.contains(&vec![0]));
    assert!(complex.contains(&vec![2]));
    assert!(!complex.contains(&vec![3]));
    assert!(!complex.contains(&vec![0, 1]));
    assert!(!complex.contains(&vec![]));
    assert_eq!(complex.betti_numbers(), Vec::<i64>::new());
    assert_in_step(&complex);
}

#[test]
fn an_empty_complex_counts_nothing() {
    let complex = SimplicialComplex::new(Vec::new());
    assert_eq!(complex.simplex_counts(), Vec::<usize>::new());
    assert_eq!(complex.betti_numbers(), Vec::<i64>::new());
}

#[test]
fn a_vertex_named_twice_is_one_vertex() {
    let complex = SimplicialComplex::new(vec![4, 4, 9, 4]);
    assert_eq!(complex.simplex_counts(), vec![2]);
}

#[test]
fn dangling_edge() {
    let complex = built(vec![5, 6], &[(5, 6)]);
    assert_eq!(complex.simplex_counts(), vec![2, 1]);
    assert!(complex.contains(&vec![5, 6]));
    assert!(!complex.contains(&vec![6, 5]));
    assert_eq!(complex.betti_numbers(), vec![0]);
    assert_in_step(&complex);
}

#[test]
fn an_edge_brings_its_ends() {
    let complex = built(Vec::new(), &[(5, 6)]);
    assert_eq!(complex.simplex_counts(), vec![2, 1]);
    assert!(complex.contains(&vec![5]));
    assert!(complex.contains(&vec![6]));
    assert_in_step(&complex);
}

#[test]
fn an_edge_added_twice_or_backwards_changes_nothing() {
    let mut complex = built(vec![0, 1, 2], &[(0, 1), (1, 2)]);
    let before = all_simplices(&complex);
    complex.add(vec![0, 1]);
    assert_eq!(all_simplices(&complex), before);
    complex.add(vec![1, 0]);
    assert_eq!(all_simplices(&complex), before);
    assert!(!complex.contains(&vec![1, 0]));
    assert_in_step(&complex);
}

#[test]
fn triangle_closure() {
    let complex = built(vec![0, 1, 2], &[(0, 1), (1, 2), (0, 2)]);
    assert_eq!(complex.simplex_counts(), vec![3, 3, 1]);
    assert!(complex.contains(&vec![0, 1, 2]));
    assert_eq!(all_simplices(&complex)[2], vec![vec![0, 1, 2]]);
    assert_eq!(complex.boundary_matrices[0].nrows(), 3);
    assert_eq!(complex.boundary_matrices[0].ncols(), 3);
    assert_eq!(rank(&complex.boundary_matrices[0]), 2);
    assert_eq!(rank(&complex.boundary_matrices[1]), 1);
    // the triangle is filled: no hole
    assert_eq!(complex.betti_numbers(), vec![0, 0]);
    assert_in_step(&complex);
}

#[test]
fn triangle_closure_in_any_order_of_its_edges() {
    let orders: [[(usize, usize); 3]; 6] = [
        [(0, 1), (1, 2), (0, 2)],
        [(0, 1), (0, 2), (1, 2)],
        [(1, 2), (0, 1), (0, 2)],
        [(1, 2), (0, 2), (0, 1)],
        [(0, 2), (0, 1), (1, 2)],
        [(0, 2), (1, 2), (0, 1)],
    ];
    for order in orders.iter() {
        let complex = built(vec![0, 1, 2], order);
        assert_eq!(complex.simplex_counts(), vec![3, 3, 1]);
        assert!(complex.contains(&vec![0, 1, 2]));
        assert_in_step(&complex);
    }
}

#[test]
fn a_cycle_of_three_edges_bounds_no_triangle() {
    let complex = built(vec![0, 1, 2], &[(0, 1), (1, 2), (2, 0)]);
    assert_eq!(complex.simplex_counts(), vec![3, 3]);
    assert!(!complex.contains(&vec![0, 1, 2]));
    assert!(!complex.contains(&vec![1, 2, 0]));
    assert!(!complex.contains(&vec![2, 0, 1]));
    assert_eq!(complex.boundary_matrices[0].nrows(), 3);
    assert_eq!(complex.boundary_matrices[0].ncols(), 3);
    assert_eq!(rank(&complex.boundary_matrices[0]), 2);
    // the hollow triangle has one hole
    assert_eq!(complex.betti_numbers(), vec![1]);
    assert_in_step(&complex);
}

#[test]
fn cascading_removal() {
    let mut complex = built(vec![0, 1, 2], &[(0, 1), (1, 2), (0, 2)]);
    complex.remove(vec![0, 1]);
    assert_eq!(complex.simplex_counts(), vec![3, 2]);
    assert!(!complex.contains(&vec![0, 1, 2]));
    assert!(!complex.contains(&vec![0, 1]));
    assert!(complex.contains(&vec![1, 2]));
    assert!(complex.contains(&vec![0, 2]));
    let all = all_simplices(&complex);
    assert_eq!(all[1].len(), 2);
    assert!(all[2].is_empty());
    assert_in_step(&complex);
}

#[test]
fn cascading_removal_from_the_cycle() {
    let mut complex = built(vec![0, 1, 2], &[(0, 1), (1, 2), (2, 0)]);
    complex.remove(vec![0, 1]);
    assert_eq!(complex.simplex_counts(), vec![3, 2]);
    assert!(complex.contains(&vec![1, 2]));
    assert!(complex.contains(&vec![2, 0]));
    assert!(!complex.contains(&vec![0, 1]));
    assert_in_step(&complex);
}

#[test]
fn insert_then_remove_gives_the_counts_back() {
    let edges = [(0, 1), (1, 2), (0, 2), (2, 3), (1, 3)];
    let mut complex = built(vec![0, 1, 2, 3], &edges);
    let counts = complex.simplex_counts();
    let mut simplices = all_simplices(&complex);
    // (0, 3) completes the tetrahedron [0, 1, 2, 3] and two triangles
    complex.add(vec![0, 3]);
    assert_eq!(complex.simplex_counts(), vec![4, 6, 4, 1]);
    assert_in_step(&complex);
    complex.remove(vec![0, 3]);
    assert_eq!(complex.simplex_counts(), counts);
    let mut after = all_simplices(&complex);
    for level in simplices.iter_mut().chain(after.iter_mut()) {
        level.sort();
    }
    after.truncate(simplices.len());
    assert_eq!(after, simplices);
    assert_in_step(&complex);
}

#[test]
fn a_tetrahedron_closes_in_any_order() {
    let edges = [(0, 1), (0, 2), (0, 3), (1, 2), (1, 3), (2, 3)];
    for shift in 0..edges.len() {
        let mut order = edges.to_vec();
        order.rotate_left(shift);
        let complex = built(vec![0, 1, 2, 3], &order);
        assert_eq!(complex.simplex_counts(), vec![4, 6, 4, 1]);
        assert!(complex.contains(&vec![0, 1, 2, 3]));
        assert_eq!(complex.betti_numbers(), vec![0, 0, 0]);
        assert_in_step(&complex);
    }
}

#[test]
fn a_path_has_no_holes() {
    let complex = built(vec![0, 1, 2, 3, 4], &[(0, 1), (1, 2), (2, 3), (3, 4)]);
    assert_eq!(complex.simplex_counts(), vec![5, 4]);
    assert_eq!(complex.betti_numbers(), vec![0]);
    assert_in_step(&complex);
}

#[test]
fn a_square_has_one_hole() {
    let complex = built(vec![0, 1, 2, 3], &[(0, 1), (0, 2), (1, 3), (2, 3)]);
    assert_eq!(complex.simplex_counts(), vec![4, 4]);
    assert_eq!(complex.betti_numbers(), vec![1]);
}

#[test]
fn a_hollow_tetrahedron_has_one_void() {
    let mut complex =
        built(vec![0, 1, 2, 3], &[(0, 1), (0, 2), (0, 3), (1, 2), (1, 3), (2, 3)]);
    // take the solid out, keep its four triangles
    complex.delete_simplex(&vec![0, 1, 2, 3]);
    assert_eq!(complex.simplex_counts(), vec![4, 6, 4]);
    assert_eq!(complex.betti_numbers(), vec![0, 1]);
    assert_in_step(&complex);
}

#[test]
fn removal_moves_the_later_slots_up() {
    let mut complex = built(vec![0, 1, 2, 3], &[(0, 1), (1, 2), (2, 3)]);
    assert_eq!(all_simplices(&complex)[1], vec![vec![0, 1], vec![1, 2], vec![2, 3]]);
    complex.remove(vec![0, 1]);
    assert_eq!(all_simplices(&complex)[1], vec![vec![1, 2], vec![2, 3]]);
    assert_in_step(&complex);
}

#[test]
fn renumbering_dense_slots_changes_nothing() {
    let mut complex = built(vec![0, 1, 2], &[(0, 1), (1, 2), (0, 2)]);
    let before = all_simplices(&complex);
    complex.update_simplex_indices(0);
    complex.update_simplex_indices(1);
    complex.update_simplex_indices(2);
    assert_eq!(all_simplices(&complex), before);
    assert_in_step(&complex);
}

#[test]
fn try_insert_refuses_what_lacks_a_facet() {
    let mut complex = built(vec![0, 1, 2], &[(0, 1), (1, 2)]);
    assert!(!complex.try_insert(&vec![0, 1, 2]));
    assert!(!complex.try_insert(&vec![0, 1]));
    assert!(!complex.try_insert(&vec![1, 0]));
    assert!(complex.try_insert(&vec![0, 2]));
    assert!(complex.try_insert(&vec![0, 1, 2]));
    assert!(!complex.try_insert(&vec![0, 1, 2]));
    assert_in_step(&complex);
}

#[test]
fn extension_set_and_coface() {
    let complex = built(vec![0, 1, 2, 3], &[(0, 1), (1, 2), (0, 2), (2, 3)]);
    let mut ext = complex.extension_set(&vec![0, 1]);
    ext.sort();
    assert_eq!(ext, vec![2]);
    assert_eq!(complex.extension_set(&vec![2, 3]), Vec::<usize>::new());
    assert_eq!(complex.coface_with(&vec![0, 2], 1), vec![0, 1, 2]);
    assert_eq!(complex.coface_with(&vec![1, 2], 0), vec![0, 1, 2]);
    assert_eq!(complex.coface_with(&vec![0, 1], 2), vec![0, 1, 2]);
    assert_eq!(complex.first_coface(1, 0), Some(0));
    assert_eq!(complex.first_coface(1, 3), None);
}

#[test]
fn many_edges_keep_the_stores_in_step() {
    // a fixed pseudo-random walk over the pairs of eight vertices
    let mut complex = SimplicialComplex::new((0..8).collect());
    let mut present: Vec<(usize, usize)> = Vec::new();
    let mut state: u64 = 12345;
    for round in 0..120 {
        state = state.wrapping_mul(6364136223846793005).wrapping_add(1442695040888963407);
        let a = ((state >> 33) % 8) as usize;
        let b = ((state >> 40) % 8) as usize;
        if a == b {
            continue;
        }
        let (u, v) = if a < b { (a, b) } else { (b, a) };
        if let Some(at) = present.iter().position(|&e| e == (u, v)) {
            present.remove(at);
            complex.remove(vec![u, v]);
        } else {
            present.push((u, v));
            complex.add(vec![u, v]);
        }
        let all = all_simplices(&complex);
        assert_eq!(all[1].len(), present.len(), "round {}", round);
        // the complex is the clique complex of its edges
        for level in all.iter().skip(2) {
            for simplex in level {
                for i in 0..simplex.len() {
                    for j in i + 1..simplex.len() {
                        assert!(present.contains(&(simplex[i], simplex[j])));
                    }
                }
            }
        }
        let triangles = (0..8usize)
            .flat_map(|x| (0..8usize).flat_map(move |y| (0..8usize).map(move |z| (x, y, z))))
            .filter(|&(x, y, z)| {
                present.contains(&(x, y)) && present.contains(&(y, z)) && present.contains(&(x, z))
            })
            .count();
        let held = if all.len() > 2 { all[2].len() } else { 0 };
        assert_eq!(held, triangles, "round {}", round);
        assert_in_step(&complex);
    }
}

#[test]
fn a_path_built_along_its_vertices_has_no_holes() {
    for n in 1..7usize {
        let path: Vec<usize> = (0..n).map(|i| 10 + 3 * i).collect();
        let complex = SimplicialComplex::along(&path);
        if n == 1 {
            assert_eq!(complex.simplex_counts(), vec![1]);
            assert_eq!(complex.betti_numbers(), Vec::<i64>::new());
        } else {
            assert_eq!(complex.simplex_counts(), vec![n, n - 1]);
            assert_eq!(complex.betti_numbers(), vec![0]);
            assert_eq!(rank(&complex.boundary_matrices[0]), n - 1);
        }
        for i in 0..n {
            assert!(complex.contains(&vec![path[i]]));
            if i + 1 < n {
                assert!(complex.holds_edge(path[i], path[i + 1]));
                assert!(!complex.holds_edge(path[i + 1], path[i]));
            }
        }
        assert_in_step(&complex);
    }
}

#[test]
fn a_path_in_any_order_of_its_edges_has_no_holes() {
    let complex = built(vec![9, 0, 1, 2, 3, 4], &[(2, 3), (0, 1), (3, 4), (1, 2)]);
    assert_eq!(complex.simplex_counts(), vec![6, 4]);
    assert_eq!(complex.betti_numbers(), vec![0]);
}

#[test]
fn betti_numbers_asked_twice_are_the_same() {
    let complex = built(vec![0, 1, 2, 3], &[(0, 1), (1, 2), (2, 0), (2, 3), (0, 3)]);
    let first = complex.betti_numbers();
    let second = complex.betti_numbers();
    assert_eq!(first, second);
    assert_eq!(first, vec![1, 0]);
}

#[test]
fn no_betti_number_is_negative() {
    let mut complex = SimplicialComplex::new((0..7).collect());
    let mut present: Vec<(usize, usize)> = Vec::new();
    let mut state: u64 = 987654321;
    for _ in 0..90 {
        state = state.wrapping_mul(6364136223846793005).wrapping_add(1442695040888963407);
        let a = ((state >> 33) % 7) as usize;
        let b = ((state >> 41) % 7) as usize;
        if a == b {
            continue;
        }
        if let Some(at) = present.iter().position(|&e| e == (a, b)) {
            present.remove(at);
            assert!(complex.remove_edge(a, b));
        } else if !present.contains(&(b, a)) {
            present.push((a, b));
            assert!(complex.insert_edge(a, b));
        }
        let numbers = complex.betti_numbers();
        assert_eq!(numbers.len() + 1, complex.simplex_counts().len().max(1));
        assert!(numbers.iter().all(|&n| n >= 0), "{:?}", numbers);
    }
}
