use deadends::gfa::{Link, is_file_gzipped, line_parts_to_link, line_parts_to_segment_name,
                    load_gfa, strand_str_to_int};
use deadends::misc::GfaError;
use std::io::Write;

/// Compresses bytes into a gzip stream, as a `.gfa.gz` file holds.
fn gz(data: &[u8]) -> Vec<u8> {
    let mut encoder = flate2::write::GzEncoder::new(Vec::new(), flate2::Compression::default());
    encoder.write_all(data).unwrap();
    encoder.finish().unwrap()
}

/// Splits a line into its tab-delimited parts, as the loader hands them
/// to the per-record functions.
fn parts(line: &str) -> Vec<&[u8]> {
    line.as_bytes().split(|&b| b == b'\t').collect()
}

const CIRCULAR: &[u8] = b"S\t1\tACGTACGACTAC\nL\t1\t+\t1\t+\t0M\n";
const LINEAR: &[u8] = b"S\t1\tACGTACGACTAC\n";
const CIRCULAR_BLANK_LINES: &[u8] = b"\nS\t1\tACGTACGACTAC\n\nL\t1\t+\t1\t+\t0M\n\n";
const FASTA: &[u8] = b">seq\nACGTACGTACGT\n";
const FASTQ: &[u8] = b"@seq\nACGTACGTACGT\n+\nIIIIIIIIIIII\n";

#[test]
fn test_load_gfa() {
    let (segments, links) = load_gfa(CIRCULAR).unwrap();
    assert_eq!(segments.len(), 1);
    assert_eq!(links.len(), 1);

    let (segments, links) = load_gfa(&gz(CIRCULAR)).unwrap();
    assert_eq!(segments.len(), 1);
    assert_eq!(links.len(), 1);

    let (segments, links) = load_gfa(LINEAR).unwrap();
    assert_eq!(segments.len(), 1);
    assert_eq!(links.len(), 0);

    let (segments, links) = load_gfa(&gz(LINEAR)).unwrap();
    assert_eq!(segments.len(), 1);
    assert_eq!(links.len(), 0);

    let (segments, links) = load_gfa(b"").unwrap();
    assert_eq!(segments.len(), 0);
    assert_eq!(links.len(), 0);

    let (segments, links) = load_gfa(FASTA).unwrap();
    assert_eq!(segments.len(), 0);
    assert_eq!(links.len(), 0);

    let (segments, links) = load_gfa(FASTQ).unwrap();
    assert_eq!(segments.len(), 0);
    assert_eq!(links.len(), 0);

    let (segments, links) = load_gfa(CIRCULAR_BLANK_LINES).unwrap();
    assert_eq!(segments.len(), 1);
    assert_eq!(links.len(), 1);
}

#[test]
fn test_line_parts_to_segment_name() {
    let name = line_parts_to_segment_name(&parts("abc\tACGTACGACTAC")).unwrap();
    assert_eq!(name, b"abc".to_vec());

    let name = line_parts_to_segment_name(&parts("def\tACGTACGACTAC\tLN:i:12")).unwrap();
    assert_eq!(name, b"def".to_vec());
}

#[test]
fn test_line_parts_to_link() {
    let link = line_parts_to_link(&parts("a\t+\tb\t+\t0M")).unwrap();
    assert_eq!(link, Link { name_a: b"a".to_vec(), strand_a: 1,
                            name_b: b"b".to_vec(), strand_b: 1 });

    let link = line_parts_to_link(&parts("c\t-\td\t+\t0M")).unwrap();
    assert_eq!(link, Link { name_a: b"c".to_vec(), strand_a: -1,
                            name_b: b"d".to_vec(), strand_b: 1 });

    let link = line_parts_to_link(&parts("e\t+\tf\t-\t0M")).unwrap();
    assert_eq!(link, Link { name_a: b"e".to_vec(), strand_a: 1,
                            name_b: b"f".to_vec(), strand_b: -1 });

    let link = line_parts_to_link(&parts("g\t-\th\t-\t0M")).unwrap();
    assert_eq!(link, Link { name_a: b"g".to_vec(), strand_a: -1,
                            name_b: b"h".to_vec(), strand_b: -1 });
}

#[test]
fn test_strand_str_to_int() {
    assert_eq!(strand_str_to_int(b"+"), 1);
    assert_eq!(strand_str_to_int(b"-"), -1);
    assert_eq!(strand_str_to_int(b"a"), 0);
    assert_eq!(strand_str_to_int(b"b"), 0);
}

#[test]
fn test_segment_line_without_name_is_an_error() {
    assert_eq!(line_parts_to_segment_name(&[]), Err(GfaError::MissingSegmentName));
    assert_eq!(load_gfa(b"S\n"), Err(GfaError::MissingSegmentName));
}

#[test]
fn test_truncated_link_line_is_an_error() {
    assert_eq!(line_parts_to_link(&parts("a\t+\tb")), Err(GfaError::MissingLinkField));
    assert_eq!(load_gfa(b"S\t1\tACGT\nL\t1\t+\t1\n"), Err(GfaError::MissingLinkField));
}

#[test]
fn test_invalid_strand_is_an_error() {
    assert_eq!(line_parts_to_link(&parts("a\t*\tb\t+\t0M")), Err(GfaError::InvalidStrand));
    assert_eq!(line_parts_to_link(&parts("a\t+\tb\t\t0M")), Err(GfaError::InvalidStrand));
    assert_eq!(load_gfa(b"S\t1\tACGT\nL\t1\t*\t1\t+\t0M\n"), Err(GfaError::InvalidStrand));
}

#[test]
fn test_corrupt_gzip_stream_is_an_error() {
    let mut corrupt = gz(CIRCULAR);
    corrupt.truncate(4);
    assert_eq!(load_gfa(&corrupt), Err(GfaError::BadGzip));
}

#[test]
fn test_is_file_gzipped() {
    assert!(is_file_gzipped(&gz(LINEAR)));
    assert!(!is_file_gzipped(LINEAR));
    assert!(!is_file_gzipped(b""));
    assert!(!is_file_gzipped(b"\x1f"));
}

#[test]
fn test_windows_line_endings_are_tolerated() {
    let (segments, links) = load_gfa(b"S\t1\tACGT\r\nL\t1\t+\t1\t+\t0M\r\n").unwrap();
    assert_eq!(segments, vec![b"1".to_vec()]);
    assert_eq!(links.len(), 1);
}

#[test]
fn test_segment_names_come_in_input_order() {
    let (segments, links) = load_gfa(b"S\tfirst\tA\nH\tVN:Z:1.0\nS\tsecond\tC\n").unwrap();
    assert_eq!(segments, vec![b"first".to_vec(), b"second".to_vec()]);
    assert_eq!(links.len(), 0);
}
