use regatta::search::find_matches;

fn search(content: &str, pattern: &str) -> Vec<u8> {
    let mut output = Vec::new();
    find_matches(content, pattern, &mut output);
    output
}

#[test]
fn t_find_matches() {
    let mut output = Vec::new();
    let _result = find_matches("lorem ipsum\ndolor sit amet", "lorem", &mut output);
    assert_eq!(output, b"lorem ipsum\n");
}

#[test]
fn matches_keep_their_order() {
    let content = "one apple\ntwo pears\nthree apples\nfour\n";
    assert_eq!(search(content, "apple"), b"one apple\nthree apples\n");
}

#[test]
fn the_last_line_needs_no_newline() {
    assert_eq!(search("alpha\nbeta", "beta"), b"beta\n");
    assert_eq!(search("alpha\nbeta\n", "beta"), b"beta\n");
}

#[test]
fn crlf_line_endings_are_dropped() {
    assert_eq!(search("foo\r\nbar\r\n", "o"), b"foo\n");
    assert_eq!(search("foo\r\nbar\r\n", "bar"), b"bar\n");
}

#[test]
fn carriage_return_without_newline_stays_in_the_last_line() {
    assert_eq!(search("foo\nbaz\r", "baz"), b"baz\r\n");
}

#[test]
fn carriage_return_is_not_part_of_a_terminated_line() {
    // The `'\r'` before the newline was removed, so it cannot be matched.
    assert_eq!(search("ab\r\ncd", "b\r"), b"");
    assert_eq!(search("a\rb\ncd", "a\rb"), b"a\rb\n");
}

#[test]
fn empty_content_writes_nothing() {
    assert_eq!(search("", "x"), b"");
    assert_eq!(search("", ""), b"");
}

#[test]
fn empty_lines_are_lines() {
    assert_eq!(search("\n\nx\n", ""), b"\n\nx\n");
    assert_eq!(search("a\n\nb", ""), b"a\n\nb\n");
}

#[test]
fn no_occurrence_writes_nothing() {
    assert_eq!(search("lorem ipsum\ndolor sit amet\n", "xyz"), b"");
}

#[test]
fn pattern_longer_than_every_line() {
    assert_eq!(search("ab\ncd\n", "abcd"), b"");
}

#[test]
fn pattern_does_not_span_lines() {
    assert_eq!(search("ab\ncd\n", "b\nc"), b"");
}

#[test]
fn pattern_at_the_end_of_a_line() {
    assert_eq!(search("xxab\nab\nba\n", "ab"), b"xxab\nab\n");
}

#[test]
fn partial_overlaps_are_not_matches() {
    assert_eq!(search("aab\naaa\n", "aab"), b"aab\n");
    assert_eq!(search("abab\naba\n", "abb"), b"");
}

#[test]
fn unicode_lines_are_written_whole() {
    let content = "grüße\nnaïve café\nplain\n";
    assert_eq!(search(content, "é"), "naïve café\n".as_bytes());
    assert_eq!(search(content, "ü"), "grüße\n".as_bytes());
}

#[test]
fn output_is_appended_to_what_the_writer_holds() {
    let mut output = b"head:".to_vec();
    find_matches("x1\ny\nx2", "x", &mut output);
    assert_eq!(output, b"head:x1\nx2\n");
}

#[test]
fn same_lines_with_and_without_final_line_ending() {
    for (with, without) in [("a\nbc\n", "a\nbc"), ("a\r\nbc\r\n", "a\r\nbc")] {
        assert_eq!(search(with, ""), search(without, ""));
    }
}

#[test]
fn searching_in_two_pieces_writes_the_same() {
    let first = "red fish\nblue fish\n";
    let second = "one fish\ntwo\n";
    let whole = format!("{}{}", first, second);
    let mut pieces = search(first, "fish");
    pieces.extend(search(second, "fish"));
    assert_eq!(search(&whole, "fish"), pieces);
}

#[test]
fn longer_pattern_selects_fewer_lines() {
    let content = "apple pie\napricot\nan apple\nmap\n";
    assert_eq!(search(content, "ap"), b"apple pie\napricot\nan apple\nmap\n");
    assert_eq!(search(content, "apple"), b"apple pie\nan apple\n");
    let narrowed = search(std::str::from_utf8(&search(content, "ap")).unwrap(), "apple");
    assert_eq!(narrowed, search(content, "apple"));
}
