//! Statistics tests: N50, base composition, the length histogram, degree
//! distributions, path totals and connected components.

use pgtools::gfa::GfaGraph;
use pgtools::components::compute_connected_components;
use pgtools::stats::{
    compute_degree_distributions, compute_gc_counts, compute_length_histogram, compute_n50,
    compute_path_totals,
};

fn create_test_graph() -> GfaGraph {
    let gfa_content = "H\tVN:Z:1.0\nS\ts1\tACGTACGT\nS\ts2\tGGGGGGGG\nS\ts3\tTTTTTTTT\nL\ts1\t+\ts2\t+\t0M\nL\ts2\t+\ts3\t+\t0M\nP\tpath1\ts1+,s2+,s3+\t*\n";
    GfaGraph::parse(gfa_content.as_bytes()).unwrap()
}

#[test]
fn test_basic_stats() {
    let graph = create_test_graph();

    assert_eq!(graph.segment_count(), 3);
    assert_eq!(graph.link_count(), 2);
    assert_eq!(graph.path_count(), 1);
    assert_eq!(graph.total_sequence_length(), 24);
}

#[test]
fn test_gc_content() {
    let graph = create_test_graph();
    // s1: ACGTACGT -> 4 GC of 8; s2: GGGGGGGG -> 8 of 8; s3: TTTTTTTT -> 0 of 8
    let (gc, acgt) = compute_gc_counts(&graph);
    assert_eq!(gc, 12);
    assert_eq!(acgt, 24);
}

#[test]
fn test_n50() {
    let lengths = vec![10, 20, 30, 40, 50];
    let n50 = compute_n50(&lengths);
    // total = 150, half = 75; sorted descending 50, 40, ...; 50 + 40 = 90 >= 75
    assert_eq!(n50, 40);
}

#[test]
fn test_n50_empty_and_single() {
    assert_eq!(compute_n50(&[]), 0);
    assert_eq!(compute_n50(&[7]), 7);
    assert_eq!(compute_n50(&[1, 1, 1]), 1);
}

#[test]
fn test_n50_odd_total_uses_ceiling() {
    // total = 7, threshold = 4; descending 3, 2, ...: 3 < 4, 3 + 2 = 5 >= 4
    assert_eq!(compute_n50(&[3, 2, 2]), 2);
}

#[test]
fn test_total_sequence_length_excludes_placeholder() {
    let graph = GfaGraph::parse(b"S\ts1\t*\n").unwrap();
    assert_eq!(graph.total_sequence_length(), 0);
    let graph = GfaGraph::parse(b"S\ts1\t*\nS\ts2\tACGT\n").unwrap();
    assert_eq!(graph.total_sequence_length(), 4);
}

#[test]
fn test_connected_components() {
    let graph = create_test_graph();
    assert_eq!(compute_connected_components(&graph), 1);
}

#[test]
fn test_connected_components_isolated_and_split() {
    let gfa_content = "S\ta\tAA\nS\tb\tCC\nS\tc\tGG\nS\td\tTT\nL\ta\t+\tb\t+\t0M\n";
    let graph = GfaGraph::parse(gfa_content.as_bytes()).unwrap();
    // a-b joined; c and d are isolated singletons
    assert_eq!(compute_connected_components(&graph), 3);
}

#[test]
fn test_connected_components_ignores_undefined_endpoints() {
    let gfa_content = "S\ta\tAA\nS\tb\tCC\nL\ta\t+\tmissing\t+\t0M\n";
    let graph = GfaGraph::parse(gfa_content.as_bytes()).unwrap();
    // the dangling link joins nothing: a and b stay separate
    assert_eq!(compute_connected_components(&graph), 2);
}

#[test]
fn test_length_histogram() {
    let lengths = vec![5, 50, 120, 800, 3000, 750000, 2000000];
    let hist = compute_length_histogram(&lengths);
    assert_eq!(hist.len(), 10);
    assert_eq!(hist[0], ("0-100".to_string(), 2));
    assert_eq!(hist[1], ("100-500".to_string(), 1));
    assert_eq!(hist[2], ("500-1K".to_string(), 1));
    assert_eq!(hist[3], ("1K-5K".to_string(), 1));
    assert_eq!(hist[4], ("5K-10K".to_string(), 0));
    assert_eq!(hist[8], ("500K-1M".to_string(), 1));
    assert_eq!(hist[9], (">1M".to_string(), 1));
}

#[test]
fn test_length_histogram_top_bucket_unbounded() {
    let hist = compute_length_histogram(&[usize::MAX]);
    assert_eq!(hist[9], (">1M".to_string(), 1));
}

#[test]
fn test_degree_distributions() {
    let graph = create_test_graph();
    let (in_dist, out_dist) = compute_degree_distributions(&graph);
    // in-degrees: s1 -> 0, s2 -> 1, s3 -> 1; rows in ascending degree order
    assert_eq!(in_dist, vec![(0, 1), (1, 2)]);
    // out-degrees: s1 -> 1, s2 -> 1, s3 -> 0
    assert_eq!(out_dist, vec![(0, 1), (1, 2)]);
}

#[test]
fn test_degree_distributions_count_undefined_endpoints() {
    let gfa_content = "S\ta\tAA\nL\ta\t+\tghostling\t+\t0M\n";
    let graph = GfaGraph::parse(gfa_content.as_bytes()).unwrap();
    let (in_dist, out_dist) = compute_degree_distributions(&graph);
    // the undefined endpoint gets its own in-degree entry of 1;
    // the in-degree table sees a (segment) and ghostling (endpoint)
    assert!(in_dist.contains(&(0, 1)));
    assert!(in_dist.contains(&(1, 1)));
    // out-degrees: a -> 1 only (ghostling never occurs as a from endpoint)
    assert_eq!(out_dist, vec![(1, 1)]);
}

#[test]
fn test_degree_sum_equals_link_count() {
    let graph = create_test_graph();
    let (in_dist, out_dist) = compute_degree_distributions(&graph);
    let in_sum: u64 = in_dist.iter().map(|(d, c)| d * (*c as u64)).sum();
    let out_sum: u64 = out_dist.iter().map(|(d, c)| d * (*c as u64)).sum();
    assert_eq!(in_sum, graph.link_count() as u64);
    assert_eq!(out_sum, graph.link_count() as u64);
}

#[test]
fn test_path_totals() {
    let graph = create_test_graph();
    let (steps, seq_len) = compute_path_totals(&graph);
    assert_eq!(steps, 3);
    assert_eq!(seq_len, 24);
}

#[test]
fn test_path_totals_missing_segment_counts_zero() {
    let gfa_content = "S\ts1\tACGT\nP\tp\ts1+,nope+\t*\n";
    let graph = GfaGraph::parse(gfa_content.as_bytes()).unwrap();
    let (steps, seq_len) = compute_path_totals(&graph);
    assert_eq!(steps, 2);
    assert_eq!(seq_len, 4);
}
