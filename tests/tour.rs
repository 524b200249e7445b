use aco_tsp::deposit::{deposit_diff, tour_edge_indices};
use aco_tsp::graph::UndirectedGraph;
use aco_tsp::pair::{encode, num_pairs};
use aco_tsp::schedule::{draw_start_nodes, worker_ants};
use aco_tsp::tour::{strongest_candidate, AntPath, AntWalk};

fn square() -> UndirectedGraph {
    let lines = vec![
        "A,x,B,x,1000",
        "A,x,C,x,4000",
        "A,x,D,x,4000",
        "B,x,C,x,1000",
        "B,x,D,x,4000",
        "C,x,D,x,1000",
    ];
    UndirectedGraph::load_graph(&lines, 4).ok().unwrap()
}

fn pentagon() -> UndirectedGraph {
    let names = ["a", "b", "c", "d", "e"];
    let mut lines = Vec::new();
    for i in 0..5 {
        for j in (i + 1)..5 {
            lines.push(format!("{},x,{},x,2", names[i], names[j]));
        }
    }
    let refs: Vec<&str> = lines.iter().map(|s| s.as_str()).collect();
    UndirectedGraph::load_graph(&refs, 5).ok().unwrap()
}

fn assert_is_tour(ids: &[i32], n: i32) {
    assert_eq!(ids.len(), (n + 1) as usize);
    assert_eq!(ids[0], ids[n as usize]);
    let mut seen = vec![false; n as usize];
    for &v in &ids[..n as usize] {
        assert!(v >= 0 && v < n);
        assert!(!seen[v as usize]);
        seen[v as usize] = true;
    }
}

#[test]
fn walk_offers_other_nodes_in_increasing_order() {
    let g = square();
    let walk = AntWalk::new(&g, 2);
    assert_eq!(walk.current(), 2);
    assert_eq!(walk.candidates(), &vec![0, 1, 3]);
    assert!(!walk.is_complete());
}

#[test]
fn walk_first_candidate_each_step() {
    let g = square();
    let mut walk = AntWalk::new(&g, 0);
    while !walk.is_complete() {
        walk.step(&g, 0);
    }
    let path = walk.finish(&g);
    assert_eq!(path.node_ids, vec![0, 1, 2, 3, 0]);
    assert_eq!(path.length, 1000 + 1000 + 1000 + 4000);
}

#[test]
fn walk_step_removes_chosen_candidate() {
    let g = square();
    let mut walk = AntWalk::new(&g, 1);
    walk.step(&g, 2);
    assert_eq!(walk.current(), 3);
    assert_eq!(walk.candidates(), &vec![0, 2]);
    walk.step(&g, 1);
    walk.step(&g, 0);
    let path = walk.finish(&g);
    assert_eq!(path.node_ids, vec![1, 3, 2, 0, 1]);
    assert_eq!(path.length, 4000 + 1000 + 4000 + 1000);
}

#[test]
fn every_choice_sequence_gives_a_tour() {
    let g = pentagon();
    for start in 0..5 {
        for seed in 0..24usize {
            let mut walk = AntWalk::new(&g, start);
            let mut s = seed;
            while !walk.is_complete() {
                let k = walk.candidates().len();
                walk.step(&g, s % k);
                s /= k;
            }
            let path = walk.finish(&g);
            assert_is_tour(&path.node_ids, 5);
            assert_eq!(path.node_ids[0], start);
            assert_eq!(path.length, 10);
        }
    }
}

#[test]
fn two_node_tour() {
    let lines = vec!["A,x,B,x,7"];
    let g = UndirectedGraph::load_graph(&lines, 2).ok().unwrap();
    let mut walk = AntWalk::new(&g, 1);
    walk.step(&g, 0);
    let path = walk.finish(&g);
    assert_eq!(path.node_ids, vec![1, 0, 1]);
    assert_eq!(path.length, 14);
}

#[test]
fn tour_edge_indices_follow_the_tour() {
    let path = AntPath::new(vec![0, 2, 4, 1, 3, 0], 10);
    let edges = tour_edge_indices(&path, 5);
    assert_eq!(edges, vec![encode(0, 2, 5), encode(2, 4, 5), encode(4, 1, 5), encode(1, 3, 5), encode(3, 0, 5)]);
    let mut sorted = edges.clone();
    sorted.sort();
    sorted.dedup();
    assert_eq!(sorted.len(), 5);
}

#[test]
fn single_tour_deposits_on_exactly_its_edges() {
    let path = AntPath::new(vec![0, 1, 2, 3, 4, 0], 10);
    let reward = 2000.0 / 10f64.powi(6);
    let diff = deposit_diff(&path, 5, 0.0, reward);
    assert_eq!(diff.len(), num_pairs(5));
    let on: Vec<usize> = vec![encode(0, 1, 5), encode(1, 2, 5), encode(2, 3, 5), encode(3, 4, 5), encode(4, 0, 5)];
    let mut deposited = 0;
    for (k, v) in diff.iter().enumerate() {
        if on.contains(&k) {
            assert_eq!(*v, 0.002);
            deposited += 1;
        } else {
            assert_eq!(*v, 0.0);
        }
    }
    assert_eq!(deposited, 5);
}

#[test]
fn deposit_diff_two_nodes_single_edge() {
    let path = AntPath::new(vec![0, 1, 0], 4);
    let diff = deposit_diff(&path, 2, 0u32, 9u32);
    assert_eq!(diff, vec![9]);
}

#[test]
fn worker_ants_round_robin() {
    assert_eq!(worker_ants(0, 3, 10), vec![0, 3, 6, 9]);
    assert_eq!(worker_ants(1, 3, 10), vec![1, 4, 7]);
    assert_eq!(worker_ants(2, 3, 10), vec![2, 5, 8]);
    assert_eq!(worker_ants(5, 8, 4), Vec::<i32>::new());
    assert_eq!(worker_ants(0, 1, 0), Vec::<i32>::new());
}

#[test]
fn workers_cover_every_ant_once() {
    for threads in 1..10 {
        for ants in 0..40 {
            let mut count = vec![0; ants as usize];
            for w in 0..threads {
                for a in worker_ants(w, threads, ants) {
                    count[a as usize] += 1;
                }
            }
            assert!(count.iter().all(|c| *c == 1));
        }
    }
}

#[test]
fn worker_ants_near_the_top_of_the_range() {
    let v = worker_ants(i32::MAX - 1, i32::MAX, i32::MAX);
    assert_eq!(v, vec![i32::MAX - 1]);
}

#[test]
fn start_nodes_are_in_range() {
    let starts = draw_start_nodes(500, 7);
    assert_eq!(starts.len(), 500);
    assert!(starts.iter().all(|s| *s >= 0 && *s < 7));
    assert!(starts.iter().any(|s| *s != starts[0]));
    assert_eq!(draw_start_nodes(0, 3).len(), 0);
    assert_eq!(draw_start_nodes(-4, 3).len(), 0);
    assert!(draw_start_nodes(50, 1).iter().all(|s| *s == 0));
}

#[test]
fn strongest_candidate_first_of_equal_maxima() {
    assert_eq!(strongest_candidate(&vec![3, 9, 2, 9, 1]), 1);
    assert_eq!(strongest_candidate(&vec![0, 0, 0]), 0);
    assert_eq!(strongest_candidate(&vec![7]), 0);
    assert_eq!(strongest_candidate(&vec![1, 2, 3]), 2);
}

#[test]
fn strongest_candidate_orders_non_negative_float_bits() {
    let values = [0.5f64, 1.0e-300, 2.25, 2.0, 0.0];
    let keys: Vec<u64> = values.iter().map(|v| v.to_bits()).collect();
    assert_eq!(strongest_candidate(&keys), 2);
}
