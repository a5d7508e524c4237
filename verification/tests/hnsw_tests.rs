use hnsw_index::hnsw::{EntryPoint, HNSW};
use hnsw_index::vector::Vector;
use rand::Rng;

/// Lattice units per unit of length.
const SCALE: f64 = 16.0;

/// The vector at the given point.
fn vector(values: &[f64]) -> Vector {
    Vector::new(values.iter().map(|c| (c * SCALE).round() as i32).collect())
}

/// A birth layer drawn for the level multiplier `ml`.
fn random_layer(ml: usize) -> usize {
    let mut rng = rand::thread_rng();
    let random_num: f64 = rng.gen();
    (-random_num.ln() * ml as f64) as usize
}

fn five_vectors() -> Vec<Vector> {
    vec![
        vector(&[0.0, 0.0]),
        vector(&[1.0, 1.0]),
        vector(&[8.0, 8.0]),
        vector(&[10.0, 10.0]),
        vector(&[12.0, 12.0]),
    ]
}

fn setup_hnsw() -> (HNSW, Vec<Vector>) {
    let mut hnsw = HNSW::new();
    let vectors = five_vectors();

    for vector in &vectors {
        hnsw.insert(vector.clone(), 16, 32, 200, random_layer(4));
    }
    (hnsw, vectors)
}

/// An index holding `vectors`, inserted in order at the given layers.
fn index_at_layers(vectors: &[Vector], layers: &[usize], m: usize, m_max: usize) -> HNSW {
    let mut hnsw = HNSW::new();
    for (vector, layer) in vectors.iter().zip(layers) {
        hnsw.insert(vector.clone(), m, m_max, 200, *layer);
    }
    hnsw
}

#[test]
fn test_hnsw_insert() {
    let mut hnsw = HNSW::new();
    let vectors = vec![
        vector(&[0.0, 0.0]),
        vector(&[1.0, 1.0]),
        vector(&[2.0, 2.0]),
        vector(&[3.0, 3.0]),
        vector(&[4.0, 4.0]),
    ];

    for vector in &vectors {
        hnsw.insert(vector.clone(), 2, 4, 3, random_layer(1));
    }

    assert_eq!(hnsw.top_layer_num() >= 0, true);
    assert!(hnsw.entry_id().is_some());
}

#[test]
fn test_hnsw_search() {
    let mut hnsw = HNSW::new();
    let vectors = vec![
        vector(&[0.0, 0.0]),
        vector(&[1.0, 1.0]),
        vector(&[2.0, 2.0]),
        vector(&[3.0, 3.0]),
        vector(&[4.0, 4.0]),
    ];

    for vector in &vectors {
        hnsw.insert(vector.clone(), 2, 4, 3, random_layer(1));
    }

    let query = vector(&[0.5, 0.5]);
    let results = hnsw.search(query, 2, 2);
    println!("{:?}", results);

    assert_eq!(results.len(), 2);
}

#[test]
fn test_insert_creates_entry_point() {
    let (hnsw, _) = setup_hnsw();
    assert!(
        hnsw.entry_id().is_some(),
        "HNSW should have an entry point after insertion."
    );
}

#[test]
fn test_search_returns_correct_neighbors() {
    let (hnsw, _) = setup_hnsw();
    let query = vector(&[0.5, 0.5]);

    let k = 2;
    let results = hnsw.search(query, k, 100);

    assert_eq!(results.len(), k, "Search should return k results.");

    let expected_neighbor_1 = vector(&[0.0, 0.0]);
    let expected_neighbor_2 = vector(&[1.0, 1.0]);

    assert!(
        results.contains(&expected_neighbor_1),
        "Results should contain the nearest neighbor."
    );
    assert!(
        results.contains(&expected_neighbor_2),
        "Results should contain the second nearest neighbor."
    );
}

#[test]
fn test_search_for_exact_match() {
    let (hnsw, _) = setup_hnsw();

    let query = vector(&[8.0, 8.0]);

    let k = 1;
    let results = hnsw.search(query.clone(), k, 100);

    assert_eq!(results.len(), k);

    assert_eq!(
        results[0], query,
        "The first result should be the exact match."
    );
}

#[test]
fn test_search_on_empty_index() {
    let hnsw = HNSW::new();
    let query = vector(&[1.0, 1.0]);
    let results = hnsw.search(query, 5, 100);

    assert!(
        results.is_empty(),
        "Search on an empty HNSW should return no results."
    );
}

#[test]
fn test_search_with_k_larger_than_dataset() {
    let (hnsw, vectors) = setup_hnsw();
    let query = vector(&[0.5, 0.5]);

    let k = vectors.len() + 5;
    let results = hnsw.search(query, k, 100);

    assert_eq!(
        results.len(),
        vectors.len(),
        "Should return all elements if k > dataset size."
    );
}

#[test]
fn new_index_is_empty() {
    let hnsw = HNSW::new();
    assert_eq!(hnsw.len(), 0);
    assert!(hnsw.is_empty());
    assert_eq!(hnsw.entry_point(), None);
    assert_eq!(hnsw.entry_id(), None);
    assert_eq!(hnsw.top_layer_num(), 0);
    assert_eq!(hnsw.dimension(), None);
    assert!(hnsw.node(0).is_none());
}

#[test]
fn search_on_empty_index_for_any_arguments() {
    let hnsw = HNSW::new();
    for k in [0usize, 1, 7] {
        for ef in [0usize, 1, 50] {
            assert!(hnsw.search(Vector::new(vec![3, 4, 5]), k, ef).is_empty());
            assert!(hnsw.search(Vector::new(vec![]), k, ef).is_empty());
        }
    }
}

#[test]
fn first_insert_becomes_entry_point() {
    let mut hnsw = HNSW::new();
    hnsw.insert(Vector::new(vec![4, 4]), 16, 32, 200, 3);
    assert_eq!(hnsw.len(), 1);
    assert!(!hnsw.is_empty());
    assert_eq!(hnsw.entry_point(), Some(EntryPoint { id: 0, layer: 3 }));
    assert_eq!(hnsw.top_layer_num(), 3);
    assert_eq!(hnsw.dimension(), Some(2));
    let node = hnsw.node(0).unwrap();
    assert_eq!(node.id(), 0);
    assert_eq!(node.vector(), &Vector::new(vec![4, 4]));
    assert_eq!(node.layer_count(), 4);
    for layer in 0..4 {
        assert_eq!(node.neighbor_ids(layer), Some(&vec![]));
    }
    assert_eq!(node.neighbor_ids(4), None);
}

#[test]
fn entry_point_moves_only_to_a_higher_layer() {
    let mut hnsw = HNSW::new();
    hnsw.insert(Vector::new(vec![0, 0]), 4, 8, 10, 1);
    assert_eq!(hnsw.entry_point(), Some(EntryPoint { id: 0, layer: 1 }));
    hnsw.insert(Vector::new(vec![5, 5]), 4, 8, 10, 1);
    assert_eq!(hnsw.entry_point(), Some(EntryPoint { id: 0, layer: 1 }));
    hnsw.insert(Vector::new(vec![9, 9]), 4, 8, 10, 0);
    assert_eq!(hnsw.entry_point(), Some(EntryPoint { id: 0, layer: 1 }));
    hnsw.insert(Vector::new(vec![2, 2]), 4, 8, 10, 4);
    assert_eq!(hnsw.entry_point(), Some(EntryPoint { id: 3, layer: 4 }));
    assert_eq!(hnsw.top_layer_num(), 4);
    assert_eq!(hnsw.len(), 4);
}

#[test]
fn insert_links_both_ways_on_each_shared_layer() {
    let mut hnsw = HNSW::new();
    hnsw.insert(Vector::new(vec![0, 0]), 4, 8, 10, 2);
    hnsw.insert(Vector::new(vec![3, 0]), 4, 8, 10, 1);
    let first = hnsw.node(0).unwrap();
    let second = hnsw.node(1).unwrap();
    assert_eq!(first.neighbor_ids(0), Some(&vec![1]));
    assert_eq!(first.neighbor_ids(1), Some(&vec![1]));
    assert_eq!(first.neighbor_ids(2), Some(&vec![]));
    assert_eq!(second.neighbor_ids(0), Some(&vec![0]));
    assert_eq!(second.neighbor_ids(1), Some(&vec![0]));
    assert_eq!(second.neighbor_ids(2), None);
}

#[test]
fn exact_layer_structure_on_a_line() {
    // Points on a line, all on the base layer, two neighbours each.
    let mut hnsw = HNSW::new();
    let list = |hnsw: &HNSW, id: usize| hnsw.node(id).unwrap().neighbor_ids(0).cloned();

    hnsw.insert(Vector::new(vec![0]), 2, 2, 200, 0);
    hnsw.insert(Vector::new(vec![10]), 2, 2, 200, 0);
    assert_eq!(list(&hnsw, 0), Some(vec![1]));
    assert_eq!(list(&hnsw, 1), Some(vec![0]));

    // 20 finds both. 10 is nearest; 0 is closer to 10 than to 20, so it is
    // set aside, and then fills the second place.
    hnsw.insert(Vector::new(vec![20]), 2, 2, 200, 0);
    assert_eq!(list(&hnsw, 2), Some(vec![1, 0]));
    assert_eq!(list(&hnsw, 1), Some(vec![0, 2]));
    assert_eq!(list(&hnsw, 0), Some(vec![1, 2]));

    // 30 finds all three: 20 is nearest, 10 and 0 are set aside, and 10
    // fills the second place.
    hnsw.insert(Vector::new(vec![30]), 2, 2, 200, 0);
    assert_eq!(list(&hnsw, 3), Some(vec![2, 1]));
    // 20 held [10, 0] and got 30, one too many. Seen from 20, 10 and 30 are
    // equally near and 10 has the lower identifier; 30 is farther from 10
    // than from 20, so it is taken too, and 0 leaves.
    assert_eq!(list(&hnsw, 2), Some(vec![1, 3]));
    // 10 held [0, 20] and got 30. Seen from 10, 0 and 20 are equally near
    // and far from each other, so they stay, and 30 leaves.
    assert_eq!(list(&hnsw, 1), Some(vec![0, 2]));
    // 30 did not choose 0.
    assert_eq!(list(&hnsw, 0), Some(vec![1, 2]));
}

#[test]
fn nearest_two_for_every_insertion_order() {
    let vectors = five_vectors();
    let orders: [[usize; 5]; 6] = [
        [0, 1, 2, 3, 4],
        [4, 3, 2, 1, 0],
        [2, 0, 4, 1, 3],
        [1, 3, 0, 4, 2],
        [3, 4, 0, 2, 1],
        [2, 1, 0, 3, 4],
    ];
    let layerings: [[usize; 5]; 4] =
        [[0, 0, 0, 0, 0], [2, 0, 1, 0, 0], [0, 1, 2, 3, 4], [5, 0, 0, 3, 1]];
    for order in orders {
        for layers in layerings {
            let mut hnsw = HNSW::new();
            for (slot, pick) in order.iter().enumerate() {
                hnsw.insert(vectors[*pick].clone(), 16, 32, 200, layers[slot]);
            }
            let results = hnsw.search(vector(&[0.5, 0.5]), 2, 100);
            assert_eq!(results.len(), 2);
            assert!(results.contains(&vector(&[0.0, 0.0])));
            assert!(results.contains(&vector(&[1.0, 1.0])));
            let exact = hnsw.search(vector(&[8.0, 8.0]), 1, 100);
            assert_eq!(exact, vec![vector(&[8.0, 8.0])]);
        }
    }
}

#[test]
fn results_come_nearest_first() {
    let vectors = five_vectors();
    let hnsw = index_at_layers(&vectors, &[1, 0, 2, 0, 1], 16, 32);
    let results = hnsw.search(vector(&[9.0, 9.0]), 5, 100);
    assert_eq!(
        results,
        vec![
            vector(&[8.0, 8.0]),
            vector(&[10.0, 10.0]),
            vector(&[12.0, 12.0]),
            vector(&[1.0, 1.0]),
            vector(&[0.0, 0.0]),
        ]
    );
}

#[test]
fn equal_distances_come_in_order_of_insertion() {
    let mut hnsw = HNSW::new();
    hnsw.insert(Vector::new(vec![1, 0]), 16, 32, 200, 0);
    hnsw.insert(Vector::new(vec![0, 1]), 16, 32, 200, 0);
    hnsw.insert(Vector::new(vec![-1, 0]), 16, 32, 200, 0);
    hnsw.insert(Vector::new(vec![0, -1]), 16, 32, 200, 0);
    let results = hnsw.search(Vector::new(vec![0, 0]), 4, 10);
    assert_eq!(
        results,
        vec![
            Vector::new(vec![1, 0]),
            Vector::new(vec![0, 1]),
            Vector::new(vec![-1, 0]),
            Vector::new(vec![0, -1]),
        ]
    );
    assert_eq!(
        hnsw.search(Vector::new(vec![0, 0]), 2, 10),
        vec![Vector::new(vec![1, 0]), Vector::new(vec![0, 1])]
    );
}

#[test]
fn result_count_is_the_smaller_of_k_and_size() {
    let vectors = five_vectors();
    let hnsw = index_at_layers(&vectors, &[0, 2, 1, 0, 3], 16, 32);
    for k in 0..9 {
        let results = hnsw.search(vector(&[6.0, 6.0]), k, 100);
        assert_eq!(results.len(), k.min(vectors.len()));
    }
}

#[test]
fn window_bounds_the_results() {
    let vectors = five_vectors();
    let hnsw = index_at_layers(&vectors, &[0, 0, 0, 0, 0], 16, 32);
    assert_eq!(hnsw.search(vector(&[6.0, 6.0]), 5, 3).len(), 3);
    // A window of none still holds the one nearest node it has met.
    assert_eq!(hnsw.search(vector(&[6.0, 6.0]), 5, 0).len(), 1);
    assert_eq!(hnsw.search(vector(&[6.0, 6.0]), 5, 1).len(), 1);
    assert!(hnsw.search(vector(&[6.0, 6.0]), 0, 3).is_empty());
}

#[test]
fn searching_twice_gives_the_same() {
    let vectors = five_vectors();
    let hnsw = index_at_layers(&vectors, &[1, 0, 0, 2, 0], 2, 3);
    for k in [1usize, 2, 5] {
        for ef in [1usize, 2, 100] {
            let query = vector(&[7.0, 2.0]);
            let first = hnsw.search(query.clone(), k, ef);
            let second = hnsw.search(query, k, ef);
            assert_eq!(first, second);
        }
    }
}

#[test]
fn degree_never_exceeds_the_cap() {
    let mut hnsw = HNSW::new();
    let m = 3;
    let m_max = 4;
    let mut count = 0;
    for x in 0..7 {
        for y in 0..7 {
            hnsw.insert(Vector::new(vec![x * 3 - y, y * 5 + x]), m, m_max, 20, (x as usize + y as usize) % 3);
            count += 1;
            for id in 0..count {
                let node = hnsw.node(id).unwrap();
                for layer in 0..node.layer_count() {
                    assert!(node.neighbor_ids(layer).unwrap().len() <= m_max);
                }
            }
        }
    }
    assert_eq!(hnsw.len(), 49);
}

#[test]
fn neighbours_are_nodes_of_the_same_layer() {
    let mut hnsw = HNSW::new();
    for i in 0..40i32 {
        hnsw.insert(Vector::new(vec![(i * 37) % 101, (i * 53) % 89]), 3, 5, 10, (i as usize * 7) % 4);
    }
    for id in 0..hnsw.len() {
        let node = hnsw.node(id).unwrap();
        assert_eq!(node.id(), id);
        for layer in 0..node.layer_count() {
            for neighbour in node.neighbor_ids(layer).unwrap() {
                let other = hnsw.node(*neighbour).unwrap();
                assert!(layer < other.layer_count());
            }
        }
        assert!(node.layer_count() <= hnsw.top_layer_num() + 1);
    }
    let top = hnsw.entry_point().unwrap();
    assert_eq!(hnsw.node(top.id).unwrap().layer_count(), top.layer + 1);
}

#[test]
fn every_node_is_found_with_a_large_window() {
    let mut hnsw = HNSW::new();
    let mut all = Vec::new();
    for i in 0..12i32 {
        let v = Vector::new(vec![i * i, 30 - i, i % 5]);
        all.push(v.clone());
        hnsw.insert(v, 16, 32, 50, (i as usize) % 3);
    }
    let results = hnsw.search(Vector::new(vec![0, 0, 0]), 100, 100);
    assert_eq!(results.len(), all.len());
    for v in &all {
        assert!(results.contains(v));
    }
}

#[test]
fn no_neighbours_wanted() {
    let mut hnsw = HNSW::new();
    hnsw.insert(Vector::new(vec![0]), 0, 4, 10, 1);
    hnsw.insert(Vector::new(vec![5]), 0, 4, 10, 1);
    hnsw.insert(Vector::new(vec![9]), 0, 4, 10, 0);
    for id in 0..3 {
        let node = hnsw.node(id).unwrap();
        for layer in 0..node.layer_count() {
            assert_eq!(node.neighbor_ids(layer), Some(&vec![]));
        }
    }
    // Nothing leads away from the entry point.
    assert_eq!(hnsw.search(Vector::new(vec![9]), 3, 10), vec![Vector::new(vec![0])]);
}

#[test]
fn same_vector_twice() {
    let mut hnsw = HNSW::new();
    hnsw.insert(Vector::new(vec![2, 2]), 4, 4, 10, 0);
    hnsw.insert(Vector::new(vec![2, 2]), 4, 4, 10, 0);
    assert_eq!(hnsw.len(), 2);
    let results = hnsw.search(Vector::new(vec![2, 2]), 5, 10);
    assert_eq!(results, vec![Vector::new(vec![2, 2]), Vector::new(vec![2, 2])]);
}

#[test]
fn layer_search_returns_the_window_nearest_first() {
    let vectors: Vec<Vector> = [0, 10, 20, 30, 40].iter().map(|x| Vector::new(vec![*x])).collect();
    let hnsw = index_at_layers(&vectors, &[0, 0, 0, 0, 0], 2, 4);
    let query = Vector::new(vec![31]);
    assert_eq!(hnsw.search_layer(&query, 0, 10, 0), vec![3, 4, 2, 1, 0]);
    assert_eq!(hnsw.search_layer(&query, 0, 5, 0), vec![3, 4, 2, 1, 0]);
    assert_eq!(hnsw.search_layer(&query, 0, 2, 0), vec![3, 4]);
    assert_eq!(hnsw.search_layer(&query, 0, 1, 0), vec![3]);
    assert_eq!(hnsw.search_layer(&query, 4, 3, 0), vec![3, 4, 2]);
    // A window of none keeps the one nearest node met.
    assert_eq!(hnsw.search_layer(&query, 0, 0, 0), vec![3]);
}

#[test]
fn layer_search_stays_on_its_layer() {
    let vectors: Vec<Vector> = [0, 10, 20, 30].iter().map(|x| Vector::new(vec![*x])).collect();
    let hnsw = index_at_layers(&vectors, &[1, 0, 1, 0], 4, 8);
    let query = Vector::new(vec![30]);
    // Only the first and the third node exist on layer 1.
    assert_eq!(hnsw.search_layer(&query, 0, 10, 1), vec![2, 0]);
    assert_eq!(hnsw.search_layer(&query, 0, 10, 0), vec![3, 2, 1, 0]);
}

#[test]
fn layer_search_returns_only_the_entry_where_nothing_leads_on() {
    let mut hnsw = HNSW::new();
    hnsw.insert(Vector::new(vec![5, 5]), 4, 8, 10, 2);
    let query = Vector::new(vec![0, 0]);
    for layer in 0..3 {
        for ef in [0usize, 1, 9] {
            assert_eq!(hnsw.search_layer(&query, 0, ef, layer), vec![0]);
        }
    }
}

#[test]
fn layer_search_stops_at_a_local_minimum() {
    // A chain 0 - 1 - 2 in which the way from the entry to the node nearest
    // to the query leads through a node that is farther away.
    let mut hnsw = HNSW::new();
    hnsw.insert(Vector::new(vec![0, 0]), 1, 2, 10, 0);
    hnsw.insert(Vector::new(vec![0, 100]), 1, 2, 10, 0);
    hnsw.insert(Vector::new(vec![100, 80]), 1, 2, 10, 0);
    let list = |id: usize| hnsw.node(id).unwrap().neighbor_ids(0).cloned().unwrap();
    assert_eq!(list(0), vec![1]);
    assert_eq!(list(1), vec![0, 2]);
    assert_eq!(list(2), vec![1]);
    // The query is 10000 from node 0, 20000 from node 1, 6400 from node 2.
    let query = Vector::new(vec![100, 0]);
    // With a window of one the walk ends at the entry: its only neighbour is
    // farther from the query and the window is full.
    assert_eq!(hnsw.search_layer(&query, 0, 1, 0), vec![0]);
    // A window of two takes node 1 in, which leads to node 2; node 1 then
    // leaves the window as the farthest of three.
    assert_eq!(hnsw.search_layer(&query, 0, 2, 0), vec![2, 0]);
    assert_eq!(hnsw.search_layer(&query, 0, 4, 0), vec![2, 0, 1]);
    assert_eq!(hnsw.search(query.clone(), 1, 1), vec![Vector::new(vec![0, 0])]);
    assert_eq!(hnsw.search(query, 1, 2), vec![Vector::new(vec![100, 80])]);
}

#[test]
fn selection_prefers_spread_over_nearness() {
    let mut hnsw = HNSW::new();
    // Two nodes close together on one side of the origin, one on the other.
    hnsw.insert(Vector::new(vec![10, 0]), 0, 8, 10, 0);
    hnsw.insert(Vector::new(vec![11, 0]), 0, 8, 10, 0);
    hnsw.insert(Vector::new(vec![-20, 0]), 0, 8, 10, 0);
    let query = Vector::new(vec![0, 0]);
    let all = vec![0, 1, 2];
    // 11 is closer to 10 than to the query, so it is set aside.
    assert_eq!(hnsw.select_neighbors(&query, &all, 2, 0, false, false), vec![0, 2]);
    assert_eq!(hnsw.select_neighbors(&query, &all, 3, 0, false, false), vec![0, 2]);
    // Kept candidates come after the diverse ones.
    assert_eq!(hnsw.select_neighbors(&query, &all, 3, 0, false, true), vec![0, 2, 1]);
    assert_eq!(hnsw.select_neighbors(&query, &all, 2, 0, false, true), vec![0, 2]);
    assert_eq!(hnsw.select_neighbors(&query, &all, 1, 0, false, true), vec![0]);
    assert_eq!(hnsw.select_neighbors(&query, &all, 0, 0, false, true), Vec::<usize>::new());
    assert_eq!(hnsw.select_neighbors(&query, &vec![1, 2], 5, 0, false, false), vec![1, 2]);
    assert_eq!(hnsw.select_neighbors(&query, &vec![], 5, 0, true, true), Vec::<usize>::new());
    // The order and repetition of the candidates do not matter.
    assert_eq!(hnsw.select_neighbors(&query, &vec![2, 1, 0, 1], 3, 0, false, true), vec![0, 2, 1]);
}

#[test]
fn selection_accepts_a_candidate_as_far_from_the_selected_as_from_the_query() {
    let mut hnsw = HNSW::new();
    hnsw.insert(Vector::new(vec![6, 0]), 0, 8, 10, 0);
    hnsw.insert(Vector::new(vec![3, 6]), 0, 8, 10, 0);
    hnsw.insert(Vector::new(vec![4, 6]), 0, 8, 10, 0);
    let query = Vector::new(vec![0, 0]);
    // Node 0 is 36 from the query and comes first. Node 1 is 45 from the
    // query and 45 from node 0: it passes. Node 2 is 52 from the query and
    // 40 from node 0: it is set aside.
    assert_eq!(hnsw.select_neighbors(&query, &vec![0, 1, 2], 3, 0, false, false), vec![0, 1]);
    assert_eq!(hnsw.select_neighbors(&query, &vec![0, 2], 3, 0, false, false), vec![0]);
    assert_eq!(hnsw.select_neighbors(&query, &vec![0, 2], 3, 0, false, true), vec![0, 2]);
    assert_eq!(hnsw.select_neighbors(&query, &vec![1, 2], 3, 0, false, false), vec![1]);

    let mut line = HNSW::new();
    line.insert(Vector::new(vec![-10]), 0, 8, 10, 0);
    line.insert(Vector::new(vec![10]), 0, 8, 10, 0);
    line.insert(Vector::new(vec![-30]), 0, 8, 10, 0);
    // From 0: node 0 first; node 1 is 400 from node 0 and 100 from the
    // query: diverse; node 2 is 400 from node 0 and 900 from the query: not.
    assert_eq!(
        line.select_neighbors(&Vector::new(vec![0]), &vec![0, 1, 2], 3, 0, false, false),
        vec![0, 1]
    );
    // From -20: nodes 0 and 2 are both 100 away; node 0 comes first by its
    // identifier, and node 2, 400 from node 0, is diverse.
    assert_eq!(
        line.select_neighbors(&Vector::new(vec![-20]), &vec![2, 0], 3, 0, false, false),
        vec![0, 2]
    );
}

#[test]
fn selection_widens_the_pool_by_the_neighbours() {
    let vectors: Vec<Vector> = [0, 10, 20, 30].iter().map(|x| Vector::new(vec![*x])).collect();
    let hnsw = index_at_layers(&vectors, &[0, 0, 0, 0], 1, 2);
    let list = |id: usize| hnsw.node(id).unwrap().neighbor_ids(0).cloned().unwrap();
    assert_eq!(list(0), vec![1]);
    assert_eq!(list(1), vec![0, 2]);
    assert_eq!(list(2), vec![1, 3]);
    assert_eq!(list(3), vec![2]);
    let query = Vector::new(vec![31]);
    // From node 1 alone, the pool grows by nodes 0 and 2, not by node 3.
    assert_eq!(hnsw.select_neighbors(&query, &vec![1], 4, 0, true, true), vec![2, 1, 0]);
    assert_eq!(hnsw.select_neighbors(&query, &vec![1], 4, 0, false, true), vec![1]);
    assert_eq!(hnsw.select_neighbors(&query, &vec![2], 4, 0, true, true), vec![3, 2, 1]);
    assert_eq!(hnsw.select_neighbors(&query, &vec![2], 4, 0, true, false), vec![3]);
    assert_eq!(hnsw.select_neighbors(&query, &vec![2], 2, 0, true, true), vec![3, 2]);
}

#[test]
fn joining_without_pruning_keeps_every_node_in_reach() {
    let mut hnsw = HNSW::new();
    let count = 9usize;
    for i in 0..count {
        let x = (i * i) as i32 % 17;
        let y = (i * 5) as i32 % 11;
        hnsw.insert(Vector::new(vec![x, y]), 2, 32, 4, i % 2);
        // From whichever node a search of the base layer starts, a window
        // larger than the index finds every node.
        for entry in 0..=i {
            let mut found = hnsw.search_layer(&Vector::new(vec![0, 0]), entry, count + 1, 0);
            found.sort();
            assert_eq!(found, (0..=i).collect::<Vec<usize>>());
        }
    }
}

#[test]
fn pruning_can_cut_a_node_off() {
    // With a cap of one neighbour, the second node keeps its nearer
    // neighbour when the third node links to it, and nothing leads to the
    // third node any more.
    let mut hnsw = HNSW::new();
    hnsw.insert(Vector::new(vec![0]), 1, 1, 10, 0);
    hnsw.insert(Vector::new(vec![10]), 1, 1, 10, 0);
    hnsw.insert(Vector::new(vec![25]), 1, 1, 10, 0);
    let list = |id: usize| hnsw.node(id).unwrap().neighbor_ids(0).cloned().unwrap();
    assert_eq!(list(0), vec![1]);
    assert_eq!(list(1), vec![0]);
    assert_eq!(list(2), vec![1]);
    assert_eq!(hnsw.search_layer(&Vector::new(vec![25]), 0, 10, 0), vec![1, 0]);
    assert_eq!(
        hnsw.search(Vector::new(vec![25]), 3, 10),
        vec![Vector::new(vec![10]), Vector::new(vec![0])]
    );
    // From the third node itself every node is reached.
    assert_eq!(hnsw.search_layer(&Vector::new(vec![25]), 2, 10, 0), vec![2, 1, 0]);
}

#[test]
fn layer_search_keeps_the_entry_when_nothing_is_closer() {
    let vectors: Vec<Vector> = [0, 10, 20, 30, 40].iter().map(|x| Vector::new(vec![*x])).collect();
    let hnsw = index_at_layers(&vectors, &[0, 0, 0, 0, 0], 2, 4);
    // Seen from -5, the first node is the nearest of all.
    let query = Vector::new(vec![-5]);
    for ef in 0..7 {
        let found = hnsw.search_layer(&query, 0, ef, 0);
        assert_eq!(found[0], 0);
        assert_eq!(found.len(), ef.clamp(1, 5));
        assert_eq!(found, (0..found.len()).collect::<Vec<usize>>());
    }
}
