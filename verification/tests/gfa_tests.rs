//! Parser tests: record kinds, orientations, paths, walks, and the parse
//! errors the format calls for.

use pgtools::error::PgToolsError;
use pgtools::gfa::{GfaGraph, Orientation};

#[test]
fn test_parse_simple_gfa() {
    let gfa_content = "H\tVN:Z:1.0\nS\ts1\tACGT\nS\ts2\tGGGG\nL\ts1\t+\ts2\t+\t0M\nP\tpath1\ts1+,s2+\t*\n";
    let graph = GfaGraph::parse(gfa_content.as_bytes()).unwrap();

    assert_eq!(graph.header.version, Some(b"Z:1.0".to_vec()));
    assert_eq!(graph.segment_count(), 2);
    assert_eq!(graph.link_count(), 1);
    assert_eq!(graph.path_count(), 1);
    assert_eq!(graph.total_sequence_length(), 8);
}

#[test]
fn test_parse_segment() {
    let gfa_content = "S\tnode1\tACGTACGT\n";
    let graph = GfaGraph::parse(gfa_content.as_bytes()).unwrap();

    let segment = graph.get_segment(b"node1").unwrap();
    assert_eq!(segment.name, b"node1".to_vec());
    assert_eq!(segment.sequence, b"ACGTACGT".to_vec());
}

#[test]
fn test_parse_link() {
    let gfa_content = "S\ts1\tACGT\nS\ts2\tGGGG\nL\ts1\t+\ts2\t-\t2M\n";
    let graph = GfaGraph::parse(gfa_content.as_bytes()).unwrap();

    assert_eq!(graph.links.len(), 1);
    let link = &graph.links[0];
    assert_eq!(link.from_segment, b"s1".to_vec());
    assert_eq!(link.from_orient, Orientation::Forward);
    assert_eq!(link.to_segment, b"s2".to_vec());
    assert_eq!(link.to_orient, Orientation::Reverse);
    assert_eq!(link.overlap, b"2M".to_vec());
}

#[test]
fn test_parse_path() {
    let gfa_content = "S\ts1\tACGT\nS\ts2\tGGGG\nS\ts3\tTTTT\nP\tmypath\ts1+,s2-,s3+\t*\n";
    let graph = GfaGraph::parse(gfa_content.as_bytes()).unwrap();

    assert_eq!(graph.paths.len(), 1);
    let path = &graph.paths[0];
    assert_eq!(path.name, b"mypath".to_vec());
    assert_eq!(path.steps.len(), 3);
    assert_eq!(path.steps[0].segment, b"s1".to_vec());
    assert_eq!(path.steps[0].orientation, Orientation::Forward);
    assert_eq!(path.steps[1].segment, b"s2".to_vec());
    assert_eq!(path.steps[1].orientation, Orientation::Reverse);
}

#[test]
fn test_orientation_display() {
    assert_eq!(Orientation::Forward.to_string(), "+");
    assert_eq!(Orientation::Reverse.to_string(), "-");
}

#[test]
fn test_parse_walk() {
    let gfa_content = "S\ta\tAAAA\nS\tb\tCCCC\nW\tsample\t1\tchr1\t0\t8\t>a<b\n";
    let graph = GfaGraph::parse(gfa_content.as_bytes()).unwrap();

    assert_eq!(graph.paths.len(), 1);
    let path = &graph.paths[0];
    assert_eq!(path.name, b"sample#1#chr1".to_vec());
    assert_eq!(path.steps.len(), 2);
    assert_eq!(path.steps[0].segment, b"a".to_vec());
    assert_eq!(path.steps[0].orientation, Orientation::Forward);
    // the final token takes the orientation of the marker that opened it
    assert_eq!(path.steps[1].segment, b"b".to_vec());
    assert_eq!(path.steps[1].orientation, Orientation::Reverse);
}

#[test]
fn test_parse_segment_too_short() {
    let gfa_content = "S\ts1\nS\ts2\tACGT\n";
    let err = GfaGraph::parse(gfa_content.as_bytes()).unwrap_err();
    match err {
        PgToolsError::GfaParse { line, .. } => assert_eq!(line, 1),
        _ => panic!("expected a parse error with a line number"),
    }
}

#[test]
fn test_parse_bad_orientation() {
    let gfa_content = "S\ts1\tACGT\nS\ts2\tGGGG\nL\ts1\tx\ts2\t+\t0M\n";
    let err = GfaGraph::parse(gfa_content.as_bytes()).unwrap_err();
    assert!(matches!(err, PgToolsError::InvalidInput(_)));
}

#[test]
fn test_parse_orientation_field_must_be_exact() {
    // a field merely beginning with '+' is not an orientation
    let gfa_content = "L\ta\t+x\tb\t+\t0M\n";
    let err = GfaGraph::parse(gfa_content.as_bytes()).unwrap_err();
    assert!(matches!(err, PgToolsError::InvalidInput(_)));
}

#[test]
fn test_parse_gzipped_rejects_plain_bytes() {
    let not_gzip = b"S\ts1\tACGT\n".to_vec();
    let err = GfaGraph::parse_gzipped(&not_gzip).unwrap_err();
    assert!(matches!(err, PgToolsError::Io(_)));
}

#[test]
fn test_parse_path_step_without_orientation() {
    let gfa_content = "P\tp1\ts1+,s2\t*\n";
    let err = GfaGraph::parse(gfa_content.as_bytes()).unwrap_err();
    match err {
        PgToolsError::GfaParse { line, .. } => assert_eq!(line, 1),
        _ => panic!("expected a parse error with a line number"),
    }
}

#[test]
fn test_parse_skips_comments_blanks_and_unknown_records() {
    let gfa_content = "# comment\n\nS\ts1\tACGT\nX\twhatever\n";
    let graph = GfaGraph::parse(gfa_content.as_bytes()).unwrap();
    assert_eq!(graph.segment_count(), 1);
}

#[test]
fn test_parse_duplicate_segment_name_last_wins() {
    let gfa_content = "S\ts1\tAAAA\nS\ts1\tGG\n";
    let graph = GfaGraph::parse(gfa_content.as_bytes()).unwrap();
    assert_eq!(graph.segment_count(), 1);
    let segment = graph.get_segment(b"s1").unwrap();
    assert_eq!(segment.sequence, b"GG".to_vec());
}

#[test]
fn test_parse_segment_tags() {
    let gfa_content = "S\ts1\tACGT\tLN:i:4\tKC:i:10\n";
    let graph = GfaGraph::parse(gfa_content.as_bytes()).unwrap();
    let segment = graph.get_segment(b"s1").unwrap();
    assert_eq!(segment.tags.len(), 2);
    assert_eq!(segment.tags[0], (b"LN".to_vec(), b"i:4".to_vec()));
    assert_eq!(segment.tags[1], (b"KC".to_vec(), b"i:10".to_vec()));
}

#[test]
fn test_parse_gzipped_roundtrip() {
    let gfa_content = "S\ts1\tACGT\nS\ts2\tGGGG\n";
    let mut encoder =
        flate2::write::GzEncoder::new(Vec::new(), flate2::Compression::default());
    std::io::Write::write_all(&mut encoder, gfa_content.as_bytes()).unwrap();
    let compressed = encoder.finish().unwrap();

    let graph = GfaGraph::parse_gzipped(&compressed).unwrap();
    assert_eq!(graph.segment_count(), 2);
    assert_eq!(graph.get_segment(b"s1").unwrap().sequence, b"ACGT".to_vec());
}
