use connectome_model::simplex::{
    combine_simplices, copy_of, faces, facet, places_before, position, precedes,
};

#[test]
fn faces_of_a_triangle() {
    let result = faces(&vec![1, 2, 3]);
    assert_eq!(result, vec![vec![2, 3], vec![1, 3], vec![1, 2]]);
}

#[test]
fn faces_of_an_edge_are_its_ends() {
    assert_eq!(faces(&vec![5, 6]), vec![vec![6], vec![5]]);
}

#[test]
fn faces_of_a_vertex_and_of_nothing() {
    assert_eq!(faces(&vec![7]), vec![Vec::<usize>::new()]);
    assert_eq!(faces(&Vec::new()), Vec::<Vec<usize>>::new());
}

#[test]
fn faces_keep_the_order_of_the_rest() {
    let result = faces(&vec![9, 4, 7, 1]);
    assert_eq!(result.len(), 4);
    assert_eq!(result[0], vec![4, 7, 1]);
    assert_eq!(result[1], vec![9, 7, 1]);
    assert_eq!(result[2], vec![9, 4, 1]);
    assert_eq!(result[3], vec![9, 4, 7]);
}

#[test]
fn facet_leaves_one_vertex_out() {
    assert_eq!(facet(&vec![3, 1, 2], 1), vec![3, 2]);
    assert_eq!(copy_of(&vec![3, 1, 2]), vec![3, 1, 2]);
}

#[test]
fn position_finds_the_first_occurrence() {
    assert_eq!(position(&vec![4, 5, 6], 5), Some(1));
    assert_eq!(position(&vec![4, 5, 6], 7), None);
    assert_eq!(position(&Vec::new(), 7), None);
}

#[test]
fn places_before_follows_the_sequence() {
    assert!(places_before(&vec![4, 5, 6], 4, 6));
    assert!(!places_before(&vec![4, 5, 6], 6, 4));
    assert!(!places_before(&vec![4, 5, 6], 4, 4));
    assert!(!places_before(&vec![4, 5, 6], 4, 9));
}

#[test]
fn precedes_asks_every_simplex() {
    let subs = vec![vec![1, 2], vec![0, 2], vec![0, 1]];
    assert!(precedes(&subs, 0, 1));
    assert!(precedes(&subs, 1, 2));
    assert!(precedes(&subs, 0, 2));
    assert!(!precedes(&subs, 2, 0));
    assert!(!precedes(&subs, 1, 0));
}

#[test]
fn combine_recovers_a_triangle_from_its_edges() {
    let subs = vec![vec![1, 2], vec![0, 2], vec![0, 1]];
    assert_eq!(combine_simplices(&subs), vec![0, 1, 2]);
}

#[test]
fn combine_does_not_depend_on_the_order_of_the_facets() {
    let subs = vec![vec![0, 1], vec![1, 2], vec![0, 2]];
    assert_eq!(combine_simplices(&subs), vec![0, 1, 2]);
    let subs = vec![vec![0, 2], vec![0, 1], vec![1, 2]];
    assert_eq!(combine_simplices(&subs), vec![0, 1, 2]);
}

#[test]
fn combine_follows_the_order_not_the_numbers() {
    // the simplex [7, 3, 9]
    let subs = vec![vec![3, 9], vec![7, 9], vec![7, 3]];
    assert_eq!(combine_simplices(&subs), vec![7, 3, 9]);
}

#[test]
fn combine_recovers_a_tetrahedron_from_three_facets() {
    // facets of [4, 2, 8, 6]
    let subs = vec![vec![2, 8, 6], vec![4, 8, 6], vec![4, 2, 6]];
    assert_eq!(combine_simplices(&subs), vec![4, 2, 8, 6]);
}

#[test]
fn combine_takes_every_facet_back() {
    let simplex = vec![5, 1, 4, 2, 3];
    let all = faces(&simplex);
    assert_eq!(combine_simplices(&all), simplex);
}

fn is_subsequence(part: &[usize], whole: &[usize]) -> bool {
    let mut at = 0;
    for v in whole {
        if at < part.len() && part[at] == *v {
            at += 1;
        }
    }
    at == part.len()
}

fn assert_combined(subs: &Vec<Vec<usize>>, vertices: &[usize]) {
    let result = combine_simplices(subs);
    let mut sorted = result.clone();
    sorted.sort();
    let mut expected = vertices.to_vec();
    expected.sort();
    assert_eq!(sorted, expected, "{:?}", result);
    for sub in subs {
        assert!(is_subsequence(sub, &result), "{:?} is out of order in {:?}", sub, result);
    }
}

#[test]
fn combine_puts_two_facets_of_a_triangle_together() {
    assert_combined(&vec![vec![1, 2], vec![0, 2]], &[0, 1, 2]);
    assert_combined(&vec![vec![0, 2], vec![1, 2]], &[0, 1, 2]);
    assert_combined(&vec![vec![0, 1], vec![0, 2]], &[0, 1, 2]);
    // the two facets that do order all three vertices
    assert_eq!(combine_simplices(&vec![vec![0, 1], vec![1, 2]]), vec![0, 1, 2]);
    assert_eq!(combine_simplices(&vec![vec![1, 2], vec![0, 1]]), vec![0, 1, 2]);
}

#[test]
fn combine_puts_two_facets_of_larger_simplices_together() {
    // facets of [4, 2, 8, 6]
    assert_combined(&vec![vec![2, 8, 6], vec![4, 8, 6]], &[2, 4, 6, 8]);
    assert_combined(&vec![vec![4, 2, 8], vec![4, 2, 6]], &[2, 4, 6, 8]);
    assert_eq!(combine_simplices(&vec![vec![4, 2, 8], vec![2, 8, 6]]), vec![4, 2, 8, 6]);
    let simplex = vec![5, 1, 4, 2, 3];
    let all = faces(&simplex);
    for i in 0..all.len() {
        for j in 0..all.len() {
            if i != j {
                assert_combined(&vec![all[i].clone(), all[j].clone()], &simplex);
            }
        }
    }
}

#[test]
fn combine_puts_two_vertices_together() {
    assert_combined(&vec![vec![7], vec![3]], &[3, 7]);
}

#[test]
fn combine_takes_faces_of_any_size() {
    // faces of [1, 2, 3, 4]; only the first two give the vertices
    assert_eq!(
        combine_simplices(&vec![vec![1, 3], vec![2, 3], vec![1, 2, 4]]),
        vec![1, 2, 3]
    );
    assert_eq!(combine_simplices(&vec![vec![1, 2, 3], vec![1, 2, 3]]), vec![1, 2, 3]);
}
