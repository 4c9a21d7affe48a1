use gzcsv_filter::line_filter;

#[test]
fn empty_needle_matches_every_line() {
    assert!(line_filter::matches(b"id,val\n", b""));
    assert!(line_filter::matches(b"\n", b""));
    assert!(line_filter::matches(b"", b""));
}

#[test]
fn needle_is_found_anywhere_in_the_line() {
    assert!(line_filter::matches(b"x,9\n", b"x"));
    assert!(line_filter::matches(b"a,b,needle\n", b"needle"));
    assert!(line_filter::matches(b"a,needle,b\n", b"needle"));
    assert!(line_filter::matches(b"needle", b"needle"));
}

#[test]
fn line_without_the_needle_does_not_match() {
    assert!(!line_filter::matches(b"id,val\n", b"x"));
    assert!(!line_filter::matches(b"", b"x"));
    assert!(!line_filter::matches(b"nee,dle\n", b"needle"));
}

#[test]
fn needle_longer_than_the_line_does_not_match() {
    assert!(!line_filter::matches(b"ab", b"abc"));
}

#[test]
fn match_is_case_sensitive() {
    assert!(!line_filter::matches(b"Error: disk\n", b"error"));
    assert!(line_filter::matches(b"Error: disk\n", b"Error"));
}

#[test]
fn needle_is_taken_literally() {
    assert!(!line_filter::matches(b"abc\n", b"a.c"));
    assert!(line_filter::matches(b"a.c\n", b"a.c"));
    assert!(!line_filter::matches(b"aaa\n", b"a*"));
}

#[test]
fn needle_may_hold_the_terminator() {
    assert!(line_filter::matches(b"x,9\n", b"9\n"));
    assert!(!line_filter::matches(b"x,9", b"9\n"));
}

#[test]
fn partial_occurrence_before_a_full_one_is_passed_over() {
    assert!(line_filter::matches(b"aab\n", b"ab"));
    assert!(line_filter::matches(b"ababac\n", b"abac"));
}

#[test]
fn bytes_that_are_not_text_are_compared_as_they_are() {
    assert!(line_filter::matches(&[0xff, 0x00, 0xfe, 10], &[0x00, 0xfe]));
    assert!(!line_filter::matches(&[0xff, 0x00, 0xfe, 10], &[0xfe, 0x00]));
}
