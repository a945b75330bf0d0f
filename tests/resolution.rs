use trident_resolver::{Graph, Node, Version, Vote};

fn node(id: &str, version: &str, artifact: i128, votes: Vec<Vote>) -> Node {
    Node { id: id.to_string(), version: Version::parse(version), artifact_score: artifact, votes }
}

fn sample_graph() -> Graph {
    let mut g = Graph::new();
    g.add_node(node("A", "1.0.0-stable", 950_000_000_000_000_000, vec![Vote::Yes, Vote::Yes, Vote::Nil]));
    g.add_node(node("B1", "2.0.0-stable", 900_000_000_000_000_000, vec![Vote::Yes, Vote::Yes, Vote::Yes, Vote::No]));
    g.add_node(node("B2", "1.5.2-experimental", 700_000_000_000_000_000, vec![Vote::Yes, Vote::Nil, Vote::No, Vote::No]));
    g.add_node(node("C1", "3.0.0-stable", 920_000_000_000_000_000, vec![Vote::Yes, Vote::Yes]));
    g.add_node(node("C2", "2.9.9-legacy", 850_000_000_000_000_000, vec![Vote::Yes, Vote::Nil]));
    g.add_edge("A", "B1");
    g.add_edge("A", "B2");
    g.add_edge("B1", "C1");
    g.add_edge("B2", "C2");
    g
}

#[test]
fn sample_graph_resolves_through_best_branch() {
    let g = sample_graph();
    let b1 = g.node("B1").unwrap().combined_score();
    let b2 = g.node("B2").unwrap().combined_score();
    assert_eq!(b1, 778_333_333_333_333_333);
    assert_eq!(b2, 469_880_952_380_952_380);
    assert!(b1 > b2);
    assert_eq!(g.resolve_best_path("A"), vec!["A", "B1", "C1"]);
}

#[test]
fn resolving_twice_gives_same_path() {
    let g = sample_graph();
    let first = g.resolve_best_path("A");
    let second = g.resolve_best_path("A");
    assert_eq!(first, second);
    assert_eq!(g.resolve_best_path("B2"), g.resolve_best_path("B2"));
}

#[test]
fn self_loop_stops_at_start() {
    let mut g = Graph::new();
    g.add_node(node("X", "1.0.0", 500_000_000_000_000_000, vec![Vote::Yes]));
    g.add_edge("X", "X");
    assert_eq!(g.resolve_best_path("X"), vec!["X"]);
}

#[test]
fn two_node_cycle_is_not_repeated() {
    let mut g = Graph::new();
    g.add_node(node("P", "1.0.0", 500_000_000_000_000_000, vec![]));
    g.add_node(node("Q", "1.0.0", 500_000_000_000_000_000, vec![]));
    g.add_edge("P", "Q");
    g.add_edge("Q", "P");
    assert_eq!(g.resolve_best_path("P"), vec!["P", "Q"]);
}

#[test]
fn dangling_only_child_is_a_leaf() {
    let mut g = Graph::new();
    g.add_node(node("A", "1.0.0", 500_000_000_000_000_000, vec![]));
    g.add_edge("A", "missing");
    assert_eq!(g.resolve_best_path("A"), vec!["A"]);
}

#[test]
fn dangling_child_is_skipped_beside_a_real_one() {
    let mut g = Graph::new();
    g.add_node(node("A", "1.0.0", 500_000_000_000_000_000, vec![]));
    g.add_node(node("B", "1.0.0", 100_000_000_000_000_000, vec![Vote::No]));
    g.add_edge("A", "missing");
    g.add_edge("A", "B");
    assert_eq!(g.resolve_best_path("A"), vec!["A", "B"]);
}

#[test]
fn absent_start_gives_single_element_path() {
    let g = Graph::new();
    assert_eq!(g.resolve_best_path("nowhere"), vec!["nowhere"]);
    let g = sample_graph();
    assert_eq!(g.resolve_best_path("Z"), vec!["Z"]);
}

#[test]
fn start_with_no_children_is_a_leaf() {
    let g = sample_graph();
    assert_eq!(g.resolve_best_path("C1"), vec!["C1"]);
}

#[test]
fn near_tie_prefers_greater_version_over_held_child() {
    // Q scores 0.3 millionths above P, within the tie tolerance; P has the greater triple.
    let mut g = Graph::new();
    g.add_node(node("R", "1.0.0", 0, vec![]));
    g.add_node(node("P", "5.0.0", 500_000_000_000_000_000, vec![]));
    g.add_node(node("Q", "4.0.0", 522_223_222_222_222_222, vec![]));
    assert_eq!(
        g.node("Q").unwrap().combined_score() - g.node("P").unwrap().combined_score(),
        300_000_000_000
    );
    g.add_edge("R", "Q");
    g.add_edge("R", "P");
    assert_eq!(g.resolve_best_path("R"), vec!["R", "P"]);
}

#[test]
fn near_tie_depends_on_child_order() {
    let mut g = Graph::new();
    g.add_node(node("R", "1.0.0", 0, vec![]));
    g.add_node(node("P", "5.0.0", 500_000_000_000_000_000, vec![]));
    g.add_node(node("Q", "4.0.0", 522_223_222_222_222_222, vec![]));
    g.add_edge("R", "P");
    g.add_edge("R", "Q");
    assert_eq!(g.resolve_best_path("R"), vec!["R", "Q"]);
}

#[test]
fn full_tie_keeps_first_child() {
    let mut g = Graph::new();
    g.add_node(node("R", "1.0.0", 0, vec![]));
    g.add_node(node("S1", "2.0.0", 500_000_000_000_000_000, vec![Vote::Yes]));
    g.add_node(node("S2", "2.0.0", 500_000_000_000_000_000, vec![Vote::Yes]));
    g.add_edge("R", "S2");
    g.add_edge("R", "S1");
    assert_eq!(g.resolve_best_path("R"), vec!["R", "S2"]);
}

#[test]
fn add_node_replaces_same_id() {
    let mut g = Graph::new();
    g.add_node(node("A", "1.0.0", 100, vec![]));
    g.add_node(node("A", "2.0.0", 200, vec![Vote::No]));
    let a = g.node("A").unwrap();
    assert_eq!(a.version.major, 2);
    assert_eq!(a.artifact_score, 200);
    assert!(g.node("B").is_none());
}

#[test]
fn add_edge_keeps_order_and_duplicates() {
    let mut g = Graph::new();
    assert!(g.children("A").is_none());
    g.add_edge("A", "B");
    g.add_edge("A", "C");
    g.add_edge("A", "B");
    g.add_edge("D", "A");
    assert_eq!(g.children("A").unwrap(), &vec!["B".to_string(), "C".to_string(), "B".to_string()]);
    assert_eq!(g.children("D").unwrap(), &vec!["A".to_string()]);
}
