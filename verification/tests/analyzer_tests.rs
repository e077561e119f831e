use deadends::analyzer::count_dead_ends;
use deadends::gfa::{Link, load_gfa};
use std::io::Write;

/// Compresses bytes into a gzip stream, as a `.gfa.gz` file holds.
fn gz(data: &[u8]) -> Vec<u8> {
    let mut encoder = flate2::write::GzEncoder::new(Vec::new(), flate2::Compression::default());
    encoder.write_all(data).unwrap();
    encoder.finish().unwrap()
}

/// Loads GFA bytes and counts the dead ends, as the command-line tool
/// does for a file.
fn count(data: &[u8]) -> usize {
    let (segments, links) = load_gfa(data).unwrap();
    assert!(segments.len() <= usize::MAX / 2);
    count_dead_ends(&segments, &links)
}

fn link(name_a: &[u8], strand_a: i32, name_b: &[u8], strand_b: i32) -> Link {
    Link {
        name_a: name_a.to_vec(),
        strand_a,
        name_b: name_b.to_vec(),
        strand_b,
    }
}

const CIRCULAR: &[u8] = b"S\t1\tACGTACGACTAC\nL\t1\t+\t1\t+\t0M\n";
const LINEAR: &[u8] = b"S\t1\tACGTACGACTAC\n";
const CIRCULAR_BLANK_LINES: &[u8] = b"\nS\t1\tACGTACGACTAC\n\nL\t1\t+\t1\t+\t0M\n\n";
const FASTA: &[u8] = b">seq\nACGTACGTACGT\n";
const FASTQ: &[u8] = b"@seq\nACGTACGTACGT\n+\nIIIIIIIIIIII\n";

#[test]
fn test_count_dead_ends() {
    assert_eq!(count(CIRCULAR), 0);
    assert_eq!(count(&gz(CIRCULAR)), 0);
    assert_eq!(count(CIRCULAR_BLANK_LINES), 0);
    assert_eq!(count(LINEAR), 2);
    assert_eq!(count(&gz(LINEAR)), 2);
    assert_eq!(count(FASTA), 0);
    assert_eq!(count(FASTQ), 0);
}

#[test]
fn test_empty_file_counts_zero() {
    assert_eq!(count(b""), 0);
}

#[test]
fn test_count_is_at_most_two_per_segment() {
    let (segments, links) = load_gfa(b"S\ta\tA\nS\tb\tC\nS\tc\tG\nL\ta\t+\tb\t+\t0M\n").unwrap();
    let n = count_dead_ends(&segments, &links);
    assert!(n <= 2 * segments.len());
    assert_eq!(n, 4);
}

#[test]
fn test_unlinked_segment_contributes_two() {
    let without = count(b"S\ta\tA\nL\ta\t+\ta\t+\t0M\n");
    let with = count(b"S\ta\tA\nS\tb\tC\nL\ta\t+\ta\t+\t0M\n");
    assert_eq!(without, 0);
    assert_eq!(with, without + 2);
}

#[test]
fn test_applying_a_link_twice_changes_nothing() {
    let once = count(b"S\ta\tA\nS\tb\tC\nL\ta\t+\tb\t+\t0M\n");
    let twice = count(b"S\ta\tA\nS\tb\tC\nL\ta\t+\tb\t+\t0M\nL\ta\t+\tb\t+\t0M\n");
    assert_eq!(once, 2);
    assert_eq!(twice, once);
}

#[test]
fn test_link_order_does_not_matter() {
    let one_way = count(b"S\ta\tA\nS\tb\tC\nL\ta\t+\tb\t+\t0M\nL\tb\t+\ta\t+\t0M\n");
    let other_way = count(b"S\ta\tA\nS\tb\tC\nL\tb\t+\ta\t+\t0M\nL\ta\t+\tb\t+\t0M\n");
    assert_eq!(one_way, other_way);
    assert_eq!(one_way, 0);
}

#[test]
fn test_rerunning_gives_the_same_count() {
    let first = count(CIRCULAR_BLANK_LINES);
    let second = count(CIRCULAR_BLANK_LINES);
    assert_eq!(first, second);
}

#[test]
fn test_gzip_matches_uncompressed() {
    for data in [CIRCULAR, LINEAR, CIRCULAR_BLANK_LINES, FASTA, FASTQ, b""] {
        assert_eq!(count(&gz(data)), count(data));
    }
}

#[test]
fn test_strand_rule_resolves_extremities() {
    // A `+` first endpoint connects the end of its segment; the start
    // stays dead, so one extremity of `a` remains.
    let segments = vec![b"a".to_vec()];
    assert_eq!(count_dead_ends(&segments, &vec![link(b"a", 1, b"x", 1)]), 1);
    // A `-` first endpoint connects the start instead.
    assert_eq!(count_dead_ends(&segments, &vec![link(b"a", -1, b"x", 1)]), 1);
    // A `+` second endpoint connects the start of its segment.
    assert_eq!(count_dead_ends(&segments, &vec![link(b"x", 1, b"a", 1)]), 1);
    // A `-` second endpoint connects the end instead.
    assert_eq!(count_dead_ends(&segments, &vec![link(b"x", 1, b"a", -1)]), 1);
    // Both extremities of `a` connected: no dead end is left.
    let both = vec![link(b"a", 1, b"x", 1), link(b"a", -1, b"x", 1)];
    assert_eq!(count_dead_ends(&segments, &both), 0);
}

#[test]
fn test_links_to_unknown_segments_are_harmless() {
    // The link names no segment record; removal is a no-op.
    assert_eq!(count(b"S\ta\tA\nL\tx\t+\ty\t+\t0M\n"), 2);
}

#[test]
fn test_duplicate_segment_names_collapse() {
    // Duplicate names are inserted and removed together, with no
    // distinction between the two records.
    assert_eq!(count(b"S\ta\tA\nS\ta\tA\n"), 2);
}
