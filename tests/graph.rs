use aco_tsp::graph::{LoadError, UndirectedGraph};
use aco_tsp::record::parse_record;

fn square_lines() -> Vec<&'static str> {
    vec![
        "A,x,B,x,1000",
        "A,x,C,x,4000",
        "A,x,D,x,4000",
        "B,x,C,x,1000",
        "B,x,D,x,4000",
        "C,x,D,x,1000",
    ]
}

#[test]
fn parse_record_reads_fields_one_three_five() {
    let r = parse_record("Berlin,DE,Paris,FR,1054000").ok().unwrap();
    assert_eq!(r.origin, "Berlin");
    assert_eq!(r.destination, "Paris");
    assert_eq!(r.meters, 1054000);
}

#[test]
fn parse_record_ignores_extra_fields() {
    let r = parse_record("a,,b,,7,extra,more").ok().unwrap();
    assert_eq!(r.origin, "a");
    assert_eq!(r.destination, "b");
    assert_eq!(r.meters, 7);
}

#[test]
fn parse_record_missing_field() {
    assert!(matches!(parse_record("a,x,b,x"), Err(LoadError::MissingField)));
    assert!(matches!(parse_record(""), Err(LoadError::MissingField)));
}

#[test]
fn parse_record_invalid_distance() {
    assert!(matches!(parse_record("a,x,b,x,12km"), Err(LoadError::InvalidDistance)));
    assert!(matches!(parse_record("a,x,b,x,"), Err(LoadError::InvalidDistance)));
    assert!(matches!(parse_record("a,x,b,x,-5"), Err(LoadError::InvalidDistance)));
    assert!(matches!(parse_record("a,x,b,x,2147483648"), Err(LoadError::InvalidDistance)));
    assert_eq!(parse_record("a,x,b,x,2147483647").ok().unwrap().meters, 2147483647);
}

#[test]
fn load_graph_assigns_indices_in_order_of_first_appearance() {
    let g = UndirectedGraph::load_graph(&square_lines(), 4).ok().unwrap();
    assert_eq!(g.num_of_nodes(), 4);
    assert_eq!(g.label_count(), 4);
    assert_eq!(g.get_name(0), "A");
    assert_eq!(g.get_name(1), "B");
    assert_eq!(g.get_name(2), "C");
    assert_eq!(g.get_name(3), "D");
}

#[test]
fn load_graph_weights_are_symmetric() {
    let g = UndirectedGraph::load_graph(&square_lines(), 4).ok().unwrap();
    assert_eq!(g.get_edge_value(0, 1), 1000);
    assert_eq!(g.get_edge_value(1, 0), 1000);
    assert_eq!(g.get_edge_value(0, 2), 4000);
    assert_eq!(g.get_edge_value(3, 0), 4000);
    assert_eq!(g.get_edge_value(2, 1), 1000);
    assert_eq!(g.get_edge_value(3, 2), 1000);
}

#[test]
fn load_graph_later_record_replaces_earlier() {
    let lines = vec!["A,x,B,x,10", "B,x,A,x,20"];
    let g = UndirectedGraph::load_graph(&lines, 2).ok().unwrap();
    assert_eq!(g.get_edge_value(0, 1), 20);
}

#[test]
fn load_graph_unlisted_pairs_are_zero() {
    let lines = vec!["A,x,B,x,10"];
    let g = UndirectedGraph::load_graph(&lines, 3).ok().unwrap();
    assert_eq!(g.get_edge_value(0, 2), 0);
    assert_eq!(g.label_count(), 2);
}

#[test]
fn load_graph_errors() {
    let too_many = vec!["A,x,B,x,1", "C,x,A,x,1"];
    assert!(matches!(UndirectedGraph::load_graph(&too_many, 2), Err(LoadError::TooManyNodes)));
    let self_loop = vec!["A,x,A,x,1"];
    assert!(matches!(UndirectedGraph::load_graph(&self_loop, 2), Err(LoadError::SelfLoop)));
    let bad = vec!["A,x,B,x,1", "A,x,B"];
    assert!(matches!(UndirectedGraph::load_graph(&bad, 2), Err(LoadError::MissingField)));
    let bad_distance = vec!["A,x,B,x,one"];
    assert!(matches!(UndirectedGraph::load_graph(&bad_distance, 2), Err(LoadError::InvalidDistance)));
}

#[test]
fn new_graph_is_all_zero() {
    let g = UndirectedGraph::new(5);
    assert_eq!(g.num_of_nodes(), 5);
    assert_eq!(g.label_count(), 0);
    for a in 0..5 {
        for b in 0..5 {
            if a != b {
                assert_eq!(g.get_edge_value(a, b), 0);
            }
        }
    }
}
