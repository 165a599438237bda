use repo_recommender::framing::{is_space_byte, record_spans};

#[test]
fn five_bytes_are_white_space() {
    for byte in 0..=255u8 {
        assert_eq!(is_space_byte(byte), byte.is_ascii_whitespace());
    }
    assert!(is_space_byte(b' '));
    assert!(is_space_byte(b'\t'));
    assert!(is_space_byte(b'\n'));
    assert!(is_space_byte(0x0c));
    assert!(is_space_byte(b'\r'));
    assert!(!is_space_byte(0x0b));
    assert!(!is_space_byte(0));
}

#[test]
fn records_are_the_runs_between_white_space() {
    assert_eq!(record_spans(b"  {a}\n{b}\t\t{c}"), vec![(2, 5), (6, 9), (11, 14)]);
}

#[test]
fn a_file_without_white_space_is_one_record() {
    assert_eq!(record_spans(b"{\"type\":\"WatchEvent\"}"), vec![(0, 21)]);
}

#[test]
fn white_space_at_the_ends_separates_nothing() {
    assert_eq!(record_spans(b"\r\n a \r\n"), vec![(3, 4)]);
    assert_eq!(record_spans(b"a "), vec![(0, 1)]);
    assert_eq!(record_spans(b" a"), vec![(1, 2)]);
}

#[test]
fn an_empty_file_has_no_records() {
    assert_eq!(record_spans(b""), Vec::<(usize, usize)>::new());
}

#[test]
fn a_file_of_white_space_has_no_records() {
    assert_eq!(record_spans(b" \t\n\x0c\r "), Vec::<(usize, usize)>::new());
}

#[test]
fn a_vertical_tab_separates_nothing() {
    assert_eq!(record_spans(b"a\x0bb"), vec![(0, 3)]);
}

#[test]
fn bytes_beyond_ascii_belong_to_records() {
    let text = "caf\u{e9} \u{4e2d}\u{6587}\n";
    let spans = record_spans(text.as_bytes());
    assert_eq!(spans, vec![(0, 5), (6, 12)]);
    assert_eq!(&text[spans[0].0..spans[0].1], "caf\u{e9}");
    assert_eq!(&text[spans[1].0..spans[1].1], "\u{4e2d}\u{6587}");
}

#[test]
fn spans_agree_with_splitting_on_white_space() {
    let text = "  one two\tthree\n\nfour\r\nfive \x0c six";
    let spans = record_spans(text.as_bytes());
    let words: Vec<&str> = spans.iter().map(|&(start, end)| &text[start..end]).collect();
    assert_eq!(words, text.split_ascii_whitespace().collect::<Vec<&str>>());
    assert_eq!(words, vec!["one", "two", "three", "four", "five", "six"]);
}
