use znlp::fixed::SCALE;
use znlp::graph::{Entry, UndirectWeightedGraph};

fn score_of(r: &[(String, i128)], key: &str) -> i128 {
    for (k, v) in r.iter() {
        if k == key {
            return *v;
        }
    }
    panic!("missing key");
}

#[test]
fn create_entry() {
    let entry = Entry::new("我", "喜欢", 3);
    assert_eq!(entry.start, String::from("我"));
    assert_eq!(entry.weight, 3);
}

#[test]
fn undirect_weighted_graph_default() {
    let graph = UndirectWeightedGraph::default();
    assert_eq!(graph.d, 850);
}

#[test]
fn graph_add_edge() {
    let mut g = UndirectWeightedGraph::default();
    let entry = Entry::new("我", "喜欢", 3);
    g = g.add_edge(entry.clone());
    assert_eq!(g.len(), 2);
    assert_eq!(g.get("我"), Some(&[entry].to_vec()));
}

#[test]
fn graph_rank() {
    let mut g = UndirectWeightedGraph::default();
    let entry = Entry::new("我", "喜欢", 3);
    g = g.add_edge(entry);
    let entry = Entry::new("喜欢", "你", 5);
    g = g.add_edge(entry);
    let ranked = g.rank();
    let unit = SCALE as f64;
    assert!(score_of(&ranked, "我") as f64 / unit - 0.409 < 0.1);
    assert!(score_of(&ranked, "喜欢") as f64 / unit - 1.0 < 0.1);
    assert!(score_of(&ranked, "你") as f64 / unit - 0.659 < 0.1);
}

#[test]
fn entry_equality_is_by_triple() {
    assert_eq!(Entry::new("a", "b", 1), Entry::new("a", "b", 1));
    assert_ne!(Entry::new("a", "b", 1), Entry::new("a", "b", 2));
    assert_ne!(Entry::new("a", "b", 1), Entry::new("b", "a", 1));
}

#[test]
fn size_counts_distinct_nodes() {
    let mut g = UndirectWeightedGraph::new(850);
    assert_eq!(g.len(), 0);
    g = g.add_edge(Entry::new("a", "b", 1));
    g = g.add_edge(Entry::new("b", "c", 2));
    g = g.add_edge(Entry::new("a", "c", 3));
    // Three distinct identifiers over three edges.
    assert_eq!(g.len(), 3);
    // A duplicate edge adds no node, only adjacency entries.
    g = g.add_edge(Entry::new("a", "b", 1));
    assert_eq!(g.len(), 3);
    assert_eq!(g.get("a").unwrap().len(), 3);
}

#[test]
fn add_edge_makes_both_endpoints_keys() {
    let mut g = UndirectWeightedGraph::new(850);
    let e = Entry::new("left", "right", 7);
    g = g.add_edge(e.clone());
    let under_left = g.get("left").unwrap();
    let under_right = g.get("right").unwrap();
    assert!(under_left.contains(&e));
    assert!(under_right.contains(&e));
    assert!(g.get("absent").is_none());
}

#[test]
fn rank_empty_graph_is_empty() {
    let g = UndirectWeightedGraph::default();
    let ranked = g.rank();
    assert!(ranked.is_empty());
}

#[test]
fn rank_reports_keys_in_lexicographic_order() {
    let mut g = UndirectWeightedGraph::default();
    g = g.add_edge(Entry::new("我", "喜欢", 3));
    g = g.add_edge(Entry::new("喜欢", "你", 5));
    let ranked = g.rank();
    let keys: Vec<&str> = ranked.iter().map(|p| p.0.as_str()).collect();
    // Code-point order of the three identifiers.
    assert_eq!(keys, vec!["你", "喜欢", "我"]);
    // In-place updates make this order load-bearing: these are the exact
    // fixed-point scores of the lexicographic processing order.
    assert_eq!(score_of(&ranked, "你"), 658930);
    assert_eq!(score_of(&ranked, "喜欢"), 1000000);
    assert_eq!(score_of(&ranked, "我"), 409387);
}

#[test]
fn rank_twice_is_bit_identical() {
    let mut g = UndirectWeightedGraph::default();
    g = g.add_edge(Entry::new("x", "y", 2));
    g = g.add_edge(Entry::new("y", "z", 9));
    g = g.add_edge(Entry::new("z", "x", 4));
    let first = g.rank();
    let second = g.rank();
    assert_eq!(first, second);
}

#[test]
fn rank_self_loop_does_not_crash() {
    let mut g = UndirectWeightedGraph::default();
    g = g.add_edge(Entry::new("X", "X", 5));
    // The self-loop is appended twice to the single adjacency list.
    assert_eq!(g.len(), 1);
    assert_eq!(g.get("X").unwrap().len(), 2);
    let ranked = g.rank();
    assert_eq!(ranked.len(), 1);
    assert_eq!(score_of(&ranked, "X"), SCALE);
}

#[test]
fn rank_zero_weight_does_not_crash() {
    let mut g = UndirectWeightedGraph::default();
    g = g.add_edge(Entry::new("a", "b", 0));
    let ranked = g.rank();
    assert_eq!(ranked.len(), 2);
    assert_eq!(score_of(&ranked, "a"), SCALE);
    assert_eq!(score_of(&ranked, "b"), SCALE);
}

#[test]
fn insert_runs() {
    znlp::insert();
}
