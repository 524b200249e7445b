use aco_tsp::pair::{encode, num_pairs};

#[test]
fn encode_four_nodes_row_by_row() {
    assert_eq!(encode(0, 1, 4), 0);
    assert_eq!(encode(0, 2, 4), 1);
    assert_eq!(encode(0, 3, 4), 2);
    assert_eq!(encode(1, 2, 4), 3);
    assert_eq!(encode(1, 3, 4), 4);
    assert_eq!(encode(2, 3, 4), 5);
}

#[test]
fn encode_is_symmetric() {
    for n in 2..9 {
        for a in 0..n {
            for b in 0..n {
                if a != b {
                    assert_eq!(encode(a, b, n), encode(b, a, n));
                }
            }
        }
    }
}

#[test]
fn encode_is_a_bijection_onto_the_pairs() {
    for n in 2..12 {
        let count = num_pairs(n);
        assert_eq!(count, (n * (n - 1) / 2) as usize);
        let mut seen = vec![false; count];
        for a in 0..n {
            for b in (a + 1)..n {
                let k = encode(a, b, n);
                assert!(k < count);
                assert!(!seen[k]);
                seen[k] = true;
            }
        }
        assert!(seen.iter().all(|s| *s));
    }
}

#[test]
fn encode_two_nodes() {
    assert_eq!(num_pairs(2), 1);
    assert_eq!(encode(1, 0, 2), 0);
}

#[test]
fn encode_large_graph_does_not_overflow() {
    let n = 100_000;
    assert_eq!(encode(n - 2, n - 1, n), num_pairs(n) - 1);
    assert_eq!(encode(n - 1, 0, n), (n - 2) as usize);
}
