//! Tests for the match locator and the replacer.

use sr::replace::{apply_matches, group_by_file, matches_applicable, replace_in_content,
    stamp_replacement};
use sr::search_replace::{get_line, locate};
use sr::Match;

#[test]
fn test_get_byte_indices_with_multibyte_chars() {
    let m = Match::new(
        String::from("test.rs"),
        0,
        1,
        7,
        8,
        String::from(""),
        String::from("Hello, 😀 world!"),
        0,
    );

    let (byte_start, byte_end) = m.get_byte_indices();
    // The start index should be 7
    assert_eq!(byte_start, 7);
    // the end index should be 11 not 8, because "😀" takes 4 bytes.
    assert_eq!(byte_end, 11);
}

#[test]
fn test_get_line_valid_index() {
    let contents = "Hello\nWorld\n!";
    let (line_start, line) = get_line(contents, 6).unwrap();
    assert_eq!(line_start, 6);
    assert_eq!(line, "World");
}

#[test]
fn test_get_line_index_out_of_bounds() {
    let contents = "Hello\nWorld\n!";
    let result = get_line(contents, 50);
    assert!(result.is_err());
}

#[test]
fn test_get_line_at_newline() {
    let contents = "Hello\nWorld\n!";
    let (line_start, line) = get_line(contents, 5).unwrap();
    assert_eq!(line_start, 0);
    assert_eq!(line, "Hello");
}

#[test]
fn test_locate_fields() {
    let contents = "Hello, world!\nsecond world line";
    let ms = locate(contents, "world", "a.txt");
    assert_eq!(ms.len(), 2);
    assert_eq!(ms[0].get_filepath(), "a.txt");
    assert_eq!(ms[0].get_file_index_start(), 7);
    assert_eq!(ms[0].get_match_length(), 5);
    assert_eq!(ms[0].get_start_on_line(), 7);
    assert_eq!(ms[0].get_end_on_line(), 12);
    assert_eq!(ms[0].get_line(), "Hello, world!");
    assert_eq!(ms[0].get_line_num(), 0);
    assert_eq!(ms[0].get_replacement(), "");
    assert_eq!(ms[1].get_file_index_start(), 21);
    assert_eq!(ms[1].get_line(), "second world line");
    assert_eq!(ms[1].get_line_num(), 1);
    assert_eq!(ms[1].get_start_on_line(), 7);
    assert_eq!(ms[1].get_end_on_line(), 12);
}

#[test]
fn test_locate_multibyte_offsets() {
    // "世界" is two 3-byte characters: byte offsets and character offsets
    // disagree on this line.
    let contents = "世界Hello, 世界world!";
    let ms = locate(contents, "world", "u.txt");
    assert_eq!(ms.len(), 1);
    assert_eq!(ms[0].get_file_index_start(), 19);
    assert_eq!(ms[0].get_match_length(), 5);
    assert_eq!(ms[0].get_start_on_line(), 11);
    assert_eq!(ms[0].get_end_on_line(), 16);
    let (bs, be) = ms[0].get_byte_indices();
    assert_eq!(bs, 19);
    assert_eq!(be, 24);
}

#[test]
fn test_locate_ascending_non_overlapping() {
    // Adjacent repeats: the greedy scan takes them left to right without
    // overlap.
    let ms = locate("aaaa", "aa", "b.txt");
    assert_eq!(ms.len(), 2);
    assert_eq!(ms[0].get_file_index_start(), 0);
    assert_eq!(ms[1].get_file_index_start(), 2);
    assert!(ms[0].get_file_index_start() + ms[0].get_match_length() <= ms[1].get_file_index_start());
}

#[test]
fn test_locate_greedy_skips_matched_bytes() {
    // A self-overlapping pattern: the scan matches greedily and resumes
    // after the matched bytes, so "aa" occurs once in "aaa".
    let ms = locate("aaa", "aa", "i.txt");
    assert_eq!(ms.len(), 1);
    assert_eq!(ms[0].get_file_index_start(), 0);
}

#[test]
fn test_get_byte_indices_out_of_range_fallbacks() {
    // A start offset past the last character falls back to byte 0; an end
    // offset past the last character falls back to the byte length.
    let m = Match::new(
        String::from("test.rs"),
        0,
        1,
        99,
        99,
        String::from(""),
        String::from("abc"),
        0,
    );
    let (byte_start, byte_end) = m.get_byte_indices();
    assert_eq!(byte_start, 0);
    assert_eq!(byte_end, 3);
}

#[test]
fn test_locate_match_length_is_pattern_byte_length() {
    let ms = locate("xx世界xx世界", "世界", "c.txt");
    assert_eq!(ms.len(), 2);
    assert_eq!(ms[0].get_match_length(), "世界".len());
    assert_eq!(ms[1].get_match_length(), 6);
}

#[test]
fn test_locate_empty_pattern_finds_nothing() {
    let ms = locate("anything at all", "", "d.txt");
    assert_eq!(ms.len(), 0);
}

#[test]
fn test_replace_simple() {
    let out = replace_in_content("Hello, world! Hello, world!", "world", "Rust");
    assert_eq!(out, "Hello, Rust! Hello, Rust!");
}

#[test]
fn test_replace_adjacent_overlapping_matches() {
    let out = replace_in_content("hehe world, hehehehehe world", "hehe", "Rust");
    assert_eq!(out, "Rust world, RustRusthe world");
}

#[test]
fn test_replace_multibyte() {
    let out = replace_in_content("Hello, 世界!", "世界", "😀");
    assert_eq!(out, "Hello, 😀!");
}

#[test]
fn test_replace_empty_pattern_is_no_op() {
    let out = replace_in_content("Hello, world!", "", "anything");
    assert_eq!(out, "Hello, world!");
}

#[test]
fn test_replace_then_search_finds_nothing() {
    let out = replace_in_content("hehe world, hehehehehe world", "hehe", "Rust");
    let ms = locate(&out, "hehe", "e.txt");
    assert_eq!(ms.len(), 0);
}

#[test]
fn test_replace_single_byte_with_empty() {
    // A one-byte pattern disappears even when deleted outright.
    let out = replace_in_content("banana", "a", "");
    assert_eq!(out, "bnn");
    assert_eq!(locate(&out, "a", "j.txt").len(), 0);
}

#[test]
fn test_stamp_replacement() {
    let mut ms = locate("one two one", "one", "f.txt");
    assert_eq!(ms.len(), 2);
    stamp_replacement(&mut ms, "three");
    assert_eq!(ms[0].get_replacement(), "three");
    assert_eq!(ms[1].get_replacement(), "three");
    // Nothing else changed.
    assert_eq!(ms[0].get_file_index_start(), 0);
    assert_eq!(ms[1].get_file_index_start(), 8);
}

#[test]
fn test_apply_matches_descending_splice() {
    let contents = "Hello, world!world!世界\nHello, 😀world!world!";
    let mut ms = locate(contents, "world", "g.txt");
    stamp_replacement(&mut ms, "Rust");
    assert!(matches_applicable(contents, &ms));
    let out = apply_matches(contents, &ms);
    assert_eq!(out, "Hello, Rust!Rust!世界\nHello, 😀Rust!Rust!");
}

#[test]
fn test_matches_applicable_rejects_stale_offsets() {
    // Located against a longer text, then held against a shorter one: the
    // offsets no longer fit and must be rejected before splicing.
    let long = "Hello, world! Hello, world!";
    let ms = locate(long, "world", "h.txt");
    let short = "Hello, world!";
    assert!(!matches_applicable(short, &ms));
    assert!(matches_applicable(long, &ms));
}

#[test]
fn test_group_by_file_batch_replace() {
    // A multi-file batch: matches from all files are grouped by path, and
    // each file's contents are rewritten only from its own group.
    let files = [
        ("test_file1.txt", "Hello, world!\nHello, world!\n世界Hello, 世界world!"),
        ("test_file2.txt", "Hello, world!world!世界\nHello, 😀world!world!"),
        ("test_file3.txt", "Hello, 世界!\nHello, 世界!"),
    ];
    let mut all: Vec<Match> = Vec::new();
    for (path, contents) in files.iter() {
        let mut ms = locate(contents, "world", path);
        stamp_replacement(&mut ms, "Rust");
        all.append(&mut ms);
    }
    let groups = group_by_file(all);
    assert_eq!(groups.len(), 2);

    let expected = [
        ("test_file1.txt", "Hello, Rust!\nHello, Rust!\n世界Hello, 世界Rust!"),
        ("test_file2.txt", "Hello, Rust!Rust!世界\nHello, 😀Rust!Rust!"),
        ("test_file3.txt", "Hello, 世界!\nHello, 世界!"),
    ];
    for (path, want) in expected.iter() {
        let contents = files.iter().find(|f| &f.0 == path).unwrap().1;
        match groups.iter().find(|g| g.0 == *path) {
            Some(group) => {
                assert!(matches_applicable(contents, &group.1));
                let out = apply_matches(contents, &group.1);
                assert_eq!(&out, want);
            }
            None => {
                // No match in this file: its contents stay as they are.
                assert_eq!(*path, "test_file3.txt");
                assert_eq!(contents, *want);
            }
        }
    }
}

#[test]
fn test_group_keeps_files_apart() {
    let a = locate("zz", "z", "left.txt");
    let b = locate("z", "z", "right.txt");
    let mut all = a;
    all.extend(b);
    let groups = group_by_file(all);
    assert_eq!(groups.len(), 2);
    let left = groups.iter().find(|g| g.0 == "left.txt").unwrap();
    let right = groups.iter().find(|g| g.0 == "right.txt").unwrap();
    assert_eq!(left.1.len(), 2);
    assert_eq!(right.1.len(), 1);
}
