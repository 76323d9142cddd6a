//! Index tests: building each variant, point and position queries, the
//! persisted container's round trip, and its failure modes.

use pgtools::error::PgToolsError;
use pgtools::gfa::GfaGraph;
use pgtools::index::{GfaIndex, IndexType, IndexedReader};

fn create_test_graph() -> GfaGraph {
    let gfa_content = "H\tVN:Z:1.0\nS\ts1\tACGTACGT\nS\ts2\tGGGGGGGG\nS\ts3\tTTTTTTTT\nL\ts1\t+\ts2\t+\t0M\nL\ts2\t+\ts3\t+\t0M\nP\tpath1\ts1+,s2+,s3+\t*\n";
    GfaGraph::parse(gfa_content.as_bytes()).unwrap()
}

#[test]
fn test_build_segment_index() {
    let graph = create_test_graph();
    let index = GfaIndex::build(&graph, b"test.gfa", IndexType::Segment);

    assert!(index.segment_index.is_some());
    let seg_idx = index.segment_index.unwrap();
    assert_eq!(seg_idx.entries.len(), 3);
    assert!(seg_idx.entries.iter().any(|e| e.name == b"s1".to_vec()));
}

#[test]
fn test_build_path_index() {
    let graph = create_test_graph();
    let index = GfaIndex::build(&graph, b"test.gfa", IndexType::Path);

    assert!(index.path_index.is_some());
    let path_idx = index.path_index.unwrap();
    assert_eq!(path_idx.entries.len(), 1);
    assert!(path_idx.entries.iter().any(|e| e.name == b"path1".to_vec()));
    assert_eq!(path_idx.entries[0].total_length, 24);
}

#[test]
fn test_build_position_index() {
    let graph = create_test_graph();
    let index = GfaIndex::build(&graph, b"test.gfa", IndexType::Position);

    assert!(index.position_index.is_some());
    let pos_idx = index.position_index.unwrap();

    let path1_entries = &pos_idx
        .entries
        .iter()
        .find(|g| g.0 == b"path1".to_vec())
        .unwrap()
        .1;
    assert_eq!(path1_entries.len(), 3);

    assert_eq!(path1_entries[0].start, 0);
    assert_eq!(path1_entries[0].end, 8);
    assert_eq!(path1_entries[1].start, 8);
    assert_eq!(path1_entries[1].end, 16);
}

#[test]
fn test_query_position() {
    let graph = create_test_graph();
    let index = GfaIndex::build(&graph, b"test.gfa", IndexType::Full);

    let entry = index.query_position(b"path1", 5).unwrap();
    assert_eq!(entry.segment_name, b"s1".to_vec());

    let entry = index.query_position(b"path1", 10).unwrap();
    assert_eq!(entry.segment_name, b"s2".to_vec());

    let entry = index.query_position(b"path1", 20).unwrap();
    assert_eq!(entry.segment_name, b"s3".to_vec());
}

#[test]
fn test_save_load_index() {
    let graph = create_test_graph();
    let index = GfaIndex::build(&graph, b"test.gfa", IndexType::Full);

    let bytes = index.to_bytes();
    let loaded = GfaIndex::from_bytes(bytes.as_slice()).unwrap();

    assert_eq!(loaded.source_file, b"test.gfa".to_vec());
    assert!(loaded.segment_index.is_some());
    assert!(loaded.path_index.is_some());
    assert!(loaded.position_index.is_some());
}

#[test]
fn test_index_type_parsing() {
    assert_eq!("segment".parse::<IndexType>().unwrap(), IndexType::Segment);
    assert_eq!("path".parse::<IndexType>().unwrap(), IndexType::Path);
    assert_eq!(
        "position".parse::<IndexType>().unwrap(),
        IndexType::Position
    );
    assert_eq!("full".parse::<IndexType>().unwrap(), IndexType::Full);
}

#[test]
fn test_index_type_aliases_and_case() {
    assert_eq!("SEG".parse::<IndexType>().unwrap(), IndexType::Segment);
    assert_eq!("s".parse::<IndexType>().unwrap(), IndexType::Segment);
    assert_eq!("p".parse::<IndexType>().unwrap(), IndexType::Path);
    assert_eq!("POS".parse::<IndexType>().unwrap(), IndexType::Position);
    assert_eq!("All".parse::<IndexType>().unwrap(), IndexType::Full);
    assert_eq!("f".parse::<IndexType>().unwrap(), IndexType::Full);
    assert!(matches!(
        "bogus".parse::<IndexType>(),
        Err(PgToolsError::InvalidInput(_))
    ));
}

#[test]
fn test_round_trip_preserves_contents() {
    let graph = create_test_graph();
    let index = GfaIndex::build(&graph, b"test.gfa", IndexType::Full);
    let loaded = GfaIndex::from_bytes(index.to_bytes().as_slice()).unwrap();

    let s1 = loaded.get_segment_info(b"s1").unwrap();
    assert_eq!(s1.sequence_length, 8);
    let p1 = loaded.get_path_info(b"path1").unwrap();
    assert_eq!(p1.step_count, 3);
    assert_eq!(p1.total_length, 24);
    let e = loaded.query_position(b"path1", 10).unwrap();
    assert_eq!(e.segment_name, b"s2".to_vec());
    assert_eq!(e.start, 8);
    assert_eq!(e.end, 16);
    assert_eq!(loaded.list_segments().len(), 3);
    assert_eq!(loaded.list_paths(), vec![b"path1".to_vec()]);
}

#[test]
fn test_load_rejects_bad_magic() {
    let graph = create_test_graph();
    let index = GfaIndex::build(&graph, b"test.gfa", IndexType::Segment);
    let mut bytes = index.to_bytes();
    bytes[0] ^= 0xff;
    assert!(matches!(
        GfaIndex::from_bytes(bytes.as_slice()),
        Err(PgToolsError::Index(_))
    ));
}

#[test]
fn test_load_rejects_newer_version() {
    let graph = create_test_graph();
    let index = GfaIndex::build(&graph, b"test.gfa", IndexType::Segment);
    let mut bytes = index.to_bytes();
    // the container version sits right after the 8-byte magic
    bytes[8] = 0xff;
    assert!(matches!(
        GfaIndex::from_bytes(bytes.as_slice()),
        Err(PgToolsError::Index(_))
    ));
}

#[test]
fn test_load_rejects_truncated_container() {
    let graph = create_test_graph();
    let index = GfaIndex::build(&graph, b"test.gfa", IndexType::Segment);
    let bytes = index.to_bytes();
    let cut = &bytes[0..bytes.len() - 1];
    assert!(matches!(
        GfaIndex::from_bytes(cut),
        Err(PgToolsError::Io(_))
    ));
}

#[test]
fn test_query_absent_sub_index_returns_none() {
    let graph = create_test_graph();
    let index = GfaIndex::build(&graph, b"test.gfa", IndexType::Segment);
    assert!(index.get_path_info(b"path1").is_none());
    assert!(index.query_position(b"path1", 0).is_none());
    assert!(index.list_paths().is_empty());
    assert!(index.get_segment_info(b"s1").is_some());
}

#[test]
fn test_position_query_bounds() {
    let graph = create_test_graph();
    let index = GfaIndex::build(&graph, b"test.gfa", IndexType::Full);
    // the ranges tile [0, 24): the first coordinate hits, the total misses
    assert!(index.query_position(b"path1", 0).is_some());
    assert!(index.query_position(b"path1", 23).is_some());
    assert!(index.query_position(b"path1", 24).is_none());
    assert!(index.query_position(b"path1", 1000).is_none());
    assert!(index.query_position(b"unknown", 0).is_none());
}

#[test]
fn test_indexed_reader_delegates() {
    let graph = create_test_graph();
    let index = GfaIndex::build(&graph, b"test.gfa", IndexType::Full);
    let reader = IndexedReader::new(index, b"test.gfa");

    assert_eq!(reader.get_segment(b"s2").unwrap().sequence_length, 8);
    assert_eq!(reader.get_path(b"path1").unwrap().step_count, 3);
    assert_eq!(
        reader.query_position(b"path1", 20).unwrap().segment_name,
        b"s3".to_vec()
    );
    assert_eq!(reader.list_segments().len(), 3);
    assert_eq!(reader.list_paths().len(), 1);
}

#[test]
fn test_index_summary_mentions_contents() {
    let graph = create_test_graph();
    let index = GfaIndex::build(&graph, b"test.gfa", IndexType::Full);
    let text = index.summary();
    assert!(text.contains("Version: 1"));
    assert!(text.contains("Segment index: 3 entries"));
    assert!(text.contains("Path index: 1 entries"));
    assert!(text.contains("Position index: 3 entries across 1 paths"));
}
