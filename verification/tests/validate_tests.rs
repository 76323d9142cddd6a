//! Validation tests, and the worked end-to-end example: parse, count,
//! index, and query one small graph.

use pgtools::components::compute_connected_components;
use pgtools::gfa::GfaGraph;
use pgtools::index::{GfaIndex, IndexType};
use pgtools::validate::{validate_graph, ValidationIssue, ValidationWarning};

#[test]
fn test_validate_clean_graph() {
    let gfa_content = "S\ts1\tACGT\nS\ts2\tGGGG\nL\ts1\t+\ts2\t+\t0M\nP\tp\ts1+,s2+\t*\n";
    let graph = GfaGraph::parse(gfa_content.as_bytes()).unwrap();
    let (errors, warnings) = validate_graph(&graph);
    assert!(errors.is_empty());
    assert!(warnings.is_empty());
}

#[test]
fn test_validate_reports_one_error_per_undefined_endpoint() {
    // one link with two undefined endpoints, one with one
    let gfa_content = "S\ts1\tACGT\nL\tghost1\t+\tghost2\t+\t0M\nL\ts1\t+\tghost3\t+\t0M\n";
    let graph = GfaGraph::parse(gfa_content.as_bytes()).unwrap();
    let (errors, _) = validate_graph(&graph);
    assert_eq!(errors.len(), 3);
    for e in &errors {
        assert!(matches!(e, ValidationIssue::UndefinedLinkSegment { .. }));
    }
    // validation does not block statistics over the same graph
    assert_eq!(compute_connected_components(&graph), 1);
    assert_eq!(graph.total_sequence_length(), 4);
}

#[test]
fn test_validate_reports_undefined_path_steps() {
    let gfa_content = "S\ts1\tACGT\nP\tp\ts1+,ghost+\t*\n";
    let graph = GfaGraph::parse(gfa_content.as_bytes()).unwrap();
    let (errors, _) = validate_graph(&graph);
    assert_eq!(errors.len(), 1);
    match &errors[0] {
        ValidationIssue::UndefinedPathSegment { path, name } => {
            assert_eq!(path, &b"p".to_vec());
            assert_eq!(name, &b"ghost".to_vec());
        },
        _ => panic!("expected a path-step error"),
    }
}

#[test]
fn test_validate_warns_on_blank_sequences() {
    let gfa_content = "S\ts1\t*\nS\ts2\tACGT\n";
    let graph = GfaGraph::parse(gfa_content.as_bytes()).unwrap();
    let (errors, warnings) = validate_graph(&graph);
    assert!(errors.is_empty());
    assert_eq!(warnings.len(), 1);
    match &warnings[0] {
        ValidationWarning::EmptySequence { name } => assert_eq!(name, &b"s1".to_vec()),
    }
}

#[test]
fn test_worked_example() {
    let input = "H\tVN:Z:1.0\nS\ts1\tACGT\nS\ts2\tGGGG\nL\ts1\t+\ts2\t+\t0M\nP\tpath1\ts1+,s2+\t*\n";
    let graph = GfaGraph::parse(input.as_bytes()).unwrap();
    assert_eq!(graph.segment_count(), 2);
    assert_eq!(graph.link_count(), 1);
    assert_eq!(graph.path_count(), 1);
    assert_eq!(graph.total_sequence_length(), 8);

    let index = GfaIndex::build(&graph, b"example.gfa", IndexType::Full);
    assert_eq!(
        index.query_position(b"path1", 3).unwrap().segment_name,
        b"s1".to_vec()
    );
    assert_eq!(
        index.query_position(b"path1", 5).unwrap().segment_name,
        b"s2".to_vec()
    );
    assert!(index.query_position(b"path1", 8).is_none());
}
