use std::collections::BTreeSet;

use hashcrack::wordlist::{partition_starts, split_lines};

fn b(s: &str) -> Vec<u8> {
    s.as_bytes().to_vec()
}

#[test]
fn splits_simple_lines() {
    assert_eq!(split_lines(&b("a\nbb\nccc"), 0), vec![b("a"), b("bb"), b("ccc")]);
}

#[test]
fn trailing_newline_adds_no_candidate() {
    assert_eq!(split_lines(&b("a\nbb\n"), 0), vec![b("a"), b("bb")]);
}

#[test]
fn strips_carriage_returns() {
    assert_eq!(split_lines(&b("a\r\nbb\r\n"), 0), vec![b("a"), b("bb")]);
}

#[test]
fn keeps_empty_lines() {
    assert_eq!(split_lines(&b("a\n\nb"), 0), vec![b("a"), b(""), b("b")]);
}

#[test]
fn empty_file_has_no_candidates() {
    assert_eq!(split_lines(&b(""), 0), Vec::<Vec<u8>>::new());
}

#[test]
fn mid_line_start_skips_the_fragment() {
    // offset 1 lands inside "alpha": the fragment is discarded and the
    // partition begins at the next line start.
    assert_eq!(split_lines(&b("alpha\nbravo\ncharlie"), 1), vec![b("bravo"), b("charlie")]);
}

#[test]
fn start_at_line_boundary_keeps_the_line() {
    // offset 6 is the byte right after the first newline: "bravo" is kept.
    assert_eq!(split_lines(&b("alpha\nbravo\ncharlie"), 6), vec![b("bravo"), b("charlie")]);
}

#[test]
fn start_in_last_line_yields_nothing() {
    assert_eq!(split_lines(&b("alpha\nbravo"), 7), Vec::<Vec<u8>>::new());
}

#[test]
fn start_past_the_end_yields_nothing() {
    assert_eq!(split_lines(&b("alpha"), 99), Vec::<Vec<u8>>::new());
}

#[test]
fn partition_starts_are_offsets_of_equal_stride() {
    assert_eq!(partition_starts(10, 3), vec![0, 3, 6]);
    assert_eq!(partition_starts(10, 1), vec![0]);
    assert_eq!(partition_starts(0, 4), vec![0, 0, 0, 0]);
    assert_eq!(partition_starts(3, 8), vec![0, 0, 0, 0, 0, 0, 0, 0]);
}

#[test]
fn partitions_cover_the_whole_wordlist() {
    // the union of all partitions' candidates is the full candidate set
    let file = b("alpha\nbravo\ncharlie\ndelta\necho");
    let all: BTreeSet<Vec<u8>> = split_lines(&file, 0).into_iter().collect();
    assert_eq!(all.len(), 5);
    for workers in 1..8usize {
        let mut union: BTreeSet<Vec<u8>> = BTreeSet::new();
        for start in partition_starts(file.len(), workers) {
            let part = split_lines(&file, start);
            for candidate in part {
                // no partition invents a candidate
                assert!(all.contains(&candidate));
                union.insert(candidate);
            }
        }
        // and together they drop none
        assert_eq!(union, all);
    }
}

#[test]
fn first_partition_is_the_whole_wordlist() {
    let file = b("one\ntwo\nthree\n");
    let starts = partition_starts(file.len(), 4);
    assert_eq!(starts[0], 0);
    assert_eq!(split_lines(&file, starts[0]), vec![b("one"), b("two"), b("three")]);
}
