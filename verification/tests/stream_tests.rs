//! Streaming-statistics tests: the basic pass, the topology pass with
//! N50/L50 and degree histogram, the simple scanner, and the per-sample
//! path counts.

use pgtools::samples::sample_path_counts;
use pgtools::scan;
use pgtools::stream::{compute_basic_stats, compute_graph_stats, compute_n50, GfaError};

const SAMPLE: &str = "H\tVN:Z:1.0\n# a comment\nS\ts1\tACGTACGT\nS\ts2\tGGGGGGGG\nS\ts3\tNNNN\nL\ts1\t+\ts2\t+\t0M\nL\ts2\t+\ts3\t+\t0M\nP\tpath1\ts1+,s2+\t*\n";

#[test]
fn test_stream_basic_stats() {
    let stats = compute_basic_stats(SAMPLE.as_bytes()).unwrap();
    assert_eq!(stats.total_lines, 8);
    assert_eq!(stats.comment_lines, 1);
    assert_eq!(stats.node_count, 3);
    assert_eq!(stats.edge_count, 2);
    assert_eq!(stats.path_count, 1);
    assert_eq!(stats.other_records, 1);
    assert_eq!(stats.total_bp, 20);
    assert_eq!(stats.min_node_len, 4);
    assert_eq!(stats.max_node_len, 8);
    assert_eq!(stats.gc_bases, 12);
    assert_eq!(stats.n_bases, 4);
}

#[test]
fn test_stream_star_sequence_excluded() {
    let stats = compute_basic_stats(b"S\ts1\t*\nS\ts2\tACGT\n").unwrap();
    assert_eq!(stats.node_count, 2);
    assert_eq!(stats.total_bp, 4);
    assert_eq!(stats.min_node_len, 4);
}

#[test]
fn test_stream_min_normalized_when_no_segments() {
    let stats = compute_basic_stats(b"L\ta\t+\tb\t+\t0M\n").unwrap();
    assert_eq!(stats.node_count, 0);
    assert_eq!(stats.min_node_len, 0);
}

#[test]
fn test_stream_malformed_segment_line() {
    let err = compute_basic_stats(b"S\tonlyname\n").unwrap_err();
    assert!(matches!(err, GfaError::MalformedLine(_)));
}

#[test]
fn test_stream_graph_stats() {
    let stats = compute_graph_stats(SAMPLE.as_bytes()).unwrap();
    assert_eq!(stats.basic.node_count, 3);
    assert_eq!(stats.basic.total_bp, 20);
    // lengths 8, 8, 4; total 20, threshold 10; descending: 8, then 8 + 8 = 16 >= 10
    assert_eq!(stats.n50, 8);
    assert_eq!(stats.l50, 2);
    // total degrees: s1 -> 1, s2 -> 2, s3 -> 1
    assert_eq!(stats.branching_nodes, 0);
    assert!(stats.degree_histogram.contains(&(1, 2)));
    assert!(stats.degree_histogram.contains(&(2, 1)));
}

#[test]
fn test_stream_branching_nodes() {
    let text = "S\th\tAA\nS\ta\tCC\nS\tb\tGG\nS\tc\tTT\nL\th\t+\ta\t+\t0M\nL\th\t+\tb\t+\t0M\nL\tc\t+\th\t+\t0M\n";
    let stats = compute_graph_stats(text.as_bytes()).unwrap();
    // h has total degree 3, everything else 1
    assert_eq!(stats.branching_nodes, 1);
    assert!(stats.degree_histogram.contains(&(3, 1)));
    assert!(stats.degree_histogram.contains(&(1, 3)));
}

#[test]
fn test_stream_n50_pair() {
    // total 150, threshold 75; descending 50, 40: 90 >= 75 at rank 2
    assert_eq!(compute_n50(&[10, 20, 30, 40, 50], 150), (40, 2));
    assert_eq!(compute_n50(&[], 10), (0, 0));
    assert_eq!(compute_n50(&[5], 0), (0, 0));
    assert_eq!(compute_n50(&[5], 5), (5, 1));
    // odd total 7 rounds the threshold up to 4: 3 < 4, then 5 >= 4 at rank 2
    assert_eq!(compute_n50(&[3, 2, 2], 7), (2, 2));
}

#[test]
fn test_stream_record_kind_is_whole_first_field() {
    // a first field merely beginning with S is an unknown record
    let stats = compute_basic_stats(b"SX\tn\tACGT\nS\ts1\tGG\n").unwrap();
    assert_eq!(stats.node_count, 1);
    assert_eq!(stats.other_records, 1);
    assert_eq!(stats.total_bp, 2);
}

#[test]
fn test_stream_gzipped_round_trip() {
    let text = "S\ts1\tACGT\nL\ta\t+\tb\t+\t0M\n";
    let mut encoder =
        flate2::write::GzEncoder::new(Vec::new(), flate2::Compression::default());
    std::io::Write::write_all(&mut encoder, text.as_bytes()).unwrap();
    let compressed = encoder.finish().unwrap();

    let stats = pgtools::stream::compute_basic_stats_gzipped(&compressed).unwrap();
    assert_eq!(stats.node_count, 1);
    assert_eq!(stats.edge_count, 1);
    assert_eq!(stats.total_bp, 4);

    let gstats = pgtools::stream::compute_graph_stats_gzipped(&compressed).unwrap();
    assert_eq!(gstats.basic.node_count, 1);
    assert_eq!(gstats.n50, 4);

    let err = pgtools::stream::compute_basic_stats_gzipped(&text.as_bytes().to_vec());
    assert!(matches!(err, Err(GfaError::Io(_))));
}

#[test]
fn test_scan_counts_every_line_and_placeholder() {
    let mut stats = scan::BasicStats::new();
    stats.process_line(b"S\ts1\t*");
    stats.process_line(b"");
    stats.process_line(b"S\ts2\tACGT");
    // the scanner counts blank lines and takes the placeholder as a
    // one-byte sequence
    assert_eq!(stats.total_lines, 3);
    assert_eq!(stats.node_count, 2);
    assert_eq!(stats.total_bp, 5);
    assert_eq!(stats.min_node_len, 1);
    assert_eq!(stats.max_node_len, 4);
}

#[test]
fn test_scan_stats_whole_text() {
    let stats = scan::scan_stats(b"S\ts1\tACGT\nL\ta\t+\tb\t+\t0M\nP\tp\ts1+\t*\n");
    assert_eq!(stats.node_count, 1);
    assert_eq!(stats.edge_count, 1);
    assert_eq!(stats.path_count, 1);
    assert_eq!(stats.total_bp, 4);
}

#[test]
fn test_scan_stats_strips_carriage_returns() {
    let stats = scan::scan_stats(b"S\ts1\tACGT\r\nS\ts2\tGG\r\n");
    assert_eq!(stats.node_count, 2);
    assert_eq!(stats.total_bp, 6);
    assert_eq!(stats.min_node_len, 2);
    assert_eq!(stats.max_node_len, 4);
}

#[test]
fn test_scan_segment_without_sequence_is_skipped() {
    let mut stats = scan::BasicStats::new();
    stats.process_line(b"S\ts1");
    assert_eq!(stats.node_count, 1);
    assert_eq!(stats.total_bp, 0);
    assert_eq!(stats.min_node_len, u64::MAX);
}

#[test]
fn test_sample_path_counts() {
    let listing = b"HG002#1#chr1\nHG002#2#chr1\nHG003#1#chr1\n\nplainname\n";
    let (total, counts) = sample_path_counts(listing);
    assert_eq!(total, 4);
    assert_eq!(counts.len(), 3);
    assert!(counts.contains(&(b"HG002".to_vec(), 2)));
    assert!(counts.contains(&(b"HG003".to_vec(), 1)));
    assert!(counts.contains(&(b"plainname".to_vec(), 1)));
}
