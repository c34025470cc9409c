//! Graph ranking and document search on concrete values.

use page_rank_from_scratch::graph_rank::ConnectionGraph;
use page_rank_from_scratch::matrix::Matrix;
use page_rank_from_scratch::page_rank::PageRanker;
use page_rank_from_scratch::rational::Rat;
use page_rank_from_scratch::vector::Vector;
use page_rank_from_scratch::registry::{SiteKey, SiteLog};
use page_rank_from_scratch::RankError;

fn r(n: i64, d: i64) -> Rat {
    Rat::new(n, d).expect("rational")
}

fn approx(x: Rat) -> f64 {
    x.numer() as f64 / x.denom() as f64
}

/// The three-node example graph: A keeps half its walkers, B keeps
/// four fifths, C sends everything away.
fn example_graph() -> ConnectionGraph<()> {
    let mut graph: ConnectionGraph<()> = ConnectionGraph::new();

    let a = graph.register();
    let b = graph.register();
    let c = graph.register();

    graph.connect(a, a, r(5, 10));
    graph.connect(a, b, r(25, 100));
    graph.connect(a, c, r(25, 100));

    graph.connect(b, b, r(8, 10));
    graph.connect(b, c, r(2, 10));

    graph.connect(c, a, r(35, 100));
    graph.connect(c, b, r(65, 100));

    graph
}

#[test]
fn graph_generates_proper_stochastic() {
    let graph = example_graph();

    let matrix = graph.matrix_representation(3).expect("representation");
    let stochastic_representation = matrix.stochastic_matrix().expect("Stochastic matrix");

    let expected = Matrix::from_vectors(vec![
        Vector::from_data(vec![r(5, 10), r(25, 100), r(25, 100)]),
        Vector::from_data(vec![r(0, 1), r(8, 10), r(2, 10)]),
        Vector::from_data(vec![r(35, 100), r(65, 100), r(0, 1)]),
    ])
    .expect("columns")
    .stochastic_matrix()
    .expect("Stochastic");

    assert_eq!(stochastic_representation, expected);

    // columns are the nodes' outgoing distributions
    assert_eq!(stochastic_representation.get(0, 0), r(1, 2));
    assert_eq!(stochastic_representation.get(1, 0), r(1, 4));
    assert_eq!(stochastic_representation.get(2, 0), r(1, 4));
    assert_eq!(stochastic_representation.get(0, 1), r(0, 1));
    assert_eq!(stochastic_representation.get(1, 1), r(4, 5));
    assert_eq!(stochastic_representation.get(2, 1), r(1, 5));
    assert_eq!(stochastic_representation.get(0, 2), r(7, 20));
    assert_eq!(stochastic_representation.get(1, 2), r(13, 20));
    assert_eq!(stochastic_representation.get(2, 2), r(0, 1));
}

#[test]
fn get_rank_from_graph() {
    let graph = example_graph();

    let rank = graph.get_rank_vector(3).expect("Create stochastic matrix from graph");

    let expected = [0.18777283, 0.6173722, 0.19485497];
    for i in 0..3 {
        assert!((approx(rank.get(i)) - expected[i]).abs() < 1e-6);
    }

    // the damped rank vector sums to exactly one
    let mut total = Rat::zero();
    for i in 0..3 {
        total = total.checked_add(&rank.get(i)).expect("sum");
    }
    assert!(total.is_one());
}

#[test]
fn undamped_steady_state() {
    let graph = example_graph();

    let raw = graph.matrix_representation(3).expect("representation");
    let stochastic = raw.stochastic_matrix().expect("Stochastic");
    let steady = stochastic.steady_state_solution().expect("steady state");

    let expected = [0.120, 0.708, 0.172];
    for i in 0..3 {
        assert!((approx(steady.get(i)) - expected[i]).abs() < 5e-4);
    }

    let mut total = Rat::zero();
    for i in 0..3 {
        total = total.checked_add(&steady.get(i)).expect("sum");
    }
    assert!(total.is_one());
}

#[test]
fn get_total_rankings() {
    let mut graph: ConnectionGraph<()> = ConnectionGraph::new();

    let a = graph.register();
    let b = graph.register();
    let c = graph.register();

    graph.connect(a, a, r(5, 10));
    graph.connect(a, b, r(25, 100));
    graph.connect(a, c, r(25, 100));

    graph.connect(b, b, r(8, 10));
    graph.connect(b, c, r(2, 10));

    graph.connect(c, a, r(35, 100));
    graph.connect(c, b, r(65, 100));

    let rankings = graph.get_rankings(3).expect("Create stochastic matrix from graph");

    assert_eq!(rankings, vec![b, c, a])
}

#[test]
fn undamped_rankings_order_is_the_same() {
    // the undamped steady state also orders the nodes b, c, a
    let graph = example_graph();
    let raw = graph.matrix_representation(3).expect("representation");
    let steady = raw
        .stochastic_matrix()
        .expect("Stochastic")
        .steady_state_solution()
        .expect("steady state");
    let (pa, pb, pc) = (steady.get(0), steady.get(1), steady.get(2));
    assert!(pc.lt(&pb));
    assert!(pa.lt(&pc));
}

#[test]
fn later_edge_overrides_earlier_edge() {
    let mut graph: ConnectionGraph<()> = ConnectionGraph::new();
    let a = graph.register();
    let b = graph.register();
    graph.connect(a, b, r(3, 10));
    graph.connect(a, b, r(1, 1));
    graph.connect(b, a, r(1, 1));
    let m = graph.matrix_representation(2).expect("representation");
    assert_eq!(m.get(1, 0), r(1, 1));
    assert_eq!(m.get(0, 0), r(0, 1));
}

#[test]
fn capacity_exceeded_is_reported() {
    let graph = example_graph();
    assert_eq!(
        graph.matrix_representation(2).unwrap_err(),
        RankError::CapacityExceeded
    );
    assert_eq!(
        graph.get_rank_vector(2).unwrap_err(),
        RankError::CapacityExceeded
    );
}

#[test]
fn unregistered_slots_make_the_walk_leak() {
    // two registered nodes in a three-slot matrix: the empty column
    // keeps the damped matrix from being stochastic
    let mut graph: ConnectionGraph<()> = ConnectionGraph::new();
    let a = graph.register();
    let b = graph.register();
    graph.connect(a, b, r(1, 1));
    graph.connect(b, a, r(1, 1));
    assert_eq!(
        graph.get_rank_vector(3).unwrap_err(),
        RankError::NotColumnStochastic
    );
}

fn site(url: &str, title: &str, connections: Vec<SiteKey>) -> SiteLog {
    SiteLog { url: url.to_string(), title: title.to_string(), connections }
}

fn example_registry() -> Vec<SiteLog> {
    vec![
        site("https://example.com/a", "Rusty gears", vec![SiteKey::new(1)]),
        site("https://example.com/b", "Gears of iron", vec![]),
        site("https://example.com/c", "A quiet page", vec![SiteKey::new(2)]),
    ]
}

#[test]
fn search_with_no_match_reports_empty() {
    let ranker = PageRanker::from_registry(example_registry());
    assert_eq!(
        ranker.search("zeppelin", 4).unwrap_err(),
        RankError::EmptyMatchSet
    );
}

#[test]
fn search_with_one_match_returns_it() {
    let ranker = PageRanker::from_registry(example_registry());
    let results = ranker.search("quiet", 4).expect("one match");
    assert_eq!(results.len(), 1);
    assert_eq!(results[0].url, "https://example.com/c");
    assert_eq!(results[0].title, "A quiet page");
}

#[test]
fn search_is_case_insensitive() {
    // fails if lowercasing returned its argument unchanged
    let ranker = PageRanker::from_registry(example_registry());
    let results = ranker.search("RUSTY", 4).expect("case-insensitive match");
    assert_eq!(results.len(), 1);
    assert_eq!(results[0].title, "Rusty gears");
}

#[test]
fn search_ranks_linked_page_first() {
    // both gear pages match; the first links to the second, which
    // keeps its walkers, so the second page outranks the first
    let ranker = PageRanker::from_registry(example_registry());
    let results = ranker.search("gears", 4).expect("two matches");
    assert_eq!(results.len(), 2);
    assert_eq!(results[0].title, "Gears of iron");
    assert_eq!(results[1].title, "Rusty gears");
}

#[test]
fn search_truncates_to_capacity() {
    let sites = vec![
        site("https://example.com/1", "news one", vec![]),
        site("https://example.com/2", "news two", vec![]),
        site("https://example.com/3", "news three", vec![]),
    ];
    let ranker = PageRanker::from_registry(sites);
    let results = ranker.search("news", 2).expect("capped matches");
    assert_eq!(results.len(), 2);
}
