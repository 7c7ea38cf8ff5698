use tiered_vec::log_parse::{parse_log, parse_u64_or_zero, split_on, LogEntry};

fn lines(texts: &[&str]) -> Vec<Vec<u8>> {
    texts.iter().map(|t| t.as_bytes().to_vec()).collect()
}

fn tag_strings(entry: &LogEntry) -> Vec<String> {
    entry.tags.iter().map(|t| String::from_utf8(t.clone()).unwrap()).collect()
}

#[test]
fn parses_a_timestamped_line_with_tags() {
    let entries = parse_log(&lines(&["1625097600,tag1, tag2"]));
    assert_eq!(entries.len(), 1);
    assert_eq!(entries[0].timestamp, 1625097600);
    assert_eq!(tag_strings(&entries[0]), vec!["tag1".to_string(), " tag2".to_string()]);
}

#[test]
fn skips_lines_with_fewer_than_two_fields() {
    let entries = parse_log(&lines(&["no comma here", "", "7,kept"]));
    assert_eq!(entries.len(), 1);
    assert_eq!(entries[0].timestamp, 7);
    assert_eq!(tag_strings(&entries[0]), vec!["kept".to_string()]);
}

#[test]
fn bad_timestamps_fall_back_to_zero() {
    let entries = parse_log(&lines(&[
        "12x,a",
        "99999999999999999999,b",
        ",c",
        "+42,d",
    ]));
    assert_eq!(entries.len(), 4);
    assert_eq!(entries[0].timestamp, 0);
    assert_eq!(entries[1].timestamp, 0);
    assert_eq!(entries[2].timestamp, 0);
    assert_eq!(entries[3].timestamp, 42);
}

#[test]
fn split_keeps_empty_fields() {
    let parts = split_on(&b",a,,b,".to_vec(), b',');
    let texts: Vec<&[u8]> = parts.iter().map(|p| p.as_slice()).collect();
    assert_eq!(texts, vec![b"" as &[u8], b"a", b"", b"b", b""]);
}

#[test]
fn split_without_separator_is_the_whole_line() {
    let parts = split_on(&b"alone".to_vec(), b',');
    assert_eq!(parts.len(), 1);
    assert_eq!(parts[0], b"alone".to_vec());
}

#[test]
fn numeric_reading_matches_std_parse() {
    for text in ["0", "1", "42", "18446744073709551615", "18446744073709551616", "007", "-1", "+9", " 3", "3 ", ""] {
        let expected = text.parse::<u64>().unwrap_or(0);
        assert_eq!(parse_u64_or_zero(&text.as_bytes().to_vec()), expected);
    }
}
