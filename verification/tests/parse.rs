use breachcheck::parse_results;

#[test]
fn single_valid_line() {
    let text = "1E4C9B93F3F0682250B6CF8331B7EE68FD7:5";
    let candidates = parse_results(text);
    assert_eq!(candidates.len(), 1);
    assert_eq!(candidates[0].0, "1E4C9B93F3F0682250B6CF8331B7EE68FD7");
    assert_eq!(candidates[0].1, 5);
}

#[test]
fn line_without_colon_is_dropped() {
    let candidates = parse_results("ABCDEF\n0123:7");
    assert_eq!(candidates.len(), 1);
    assert_eq!(candidates[0].0, "0123");
    assert_eq!(candidates[0].1, 7);
}

#[test]
fn non_numeric_count_is_dropped() {
    assert_eq!(parse_results("AB:x").len(), 0);
    assert_eq!(parse_results("AB:").len(), 0);
    assert_eq!(parse_results("AB:12 ").len(), 0);
    assert_eq!(parse_results("AB:-3").len(), 0);
}

#[test]
fn blank_lines_are_dropped() {
    let candidates = parse_results("\n\nAB:1\n\nCD:2\n\n");
    assert_eq!(candidates.len(), 2);
    assert_eq!(candidates[0], ("AB", 1));
    assert_eq!(candidates[1], ("CD", 2));
}

#[test]
fn carriage_returns_are_stripped() {
    let candidates = parse_results("AB:1\r\nCD:2\r\n");
    assert_eq!(candidates.len(), 2);
    assert_eq!(candidates[0], ("AB", 1));
    assert_eq!(candidates[1], ("CD", 2));
}

#[test]
fn plus_sign_parses_as_radix_ten_does() {
    let candidates = parse_results("AB:+7");
    assert_eq!(candidates.len(), 1);
    assert_eq!(candidates[0].1, 7);
}

#[test]
fn count_at_the_limit_is_kept_and_beyond_is_dropped() {
    let kept = parse_results("AB:18446744073709551615");
    assert_eq!(kept.len(), 1);
    assert_eq!(kept[0].1, u64::MAX);
    assert_eq!(parse_results("AB:18446744073709551616").len(), 0);
}

#[test]
fn order_and_duplicates_are_kept() {
    let candidates = parse_results("AB:1\nCD:2\nAB:3");
    assert_eq!(candidates.len(), 3);
    assert_eq!(candidates[0], ("AB", 1));
    assert_eq!(candidates[1], ("CD", 2));
    assert_eq!(candidates[2], ("AB", 3));
}

#[test]
fn split_happens_at_the_first_colon() {
    assert_eq!(parse_results("A:B:2").len(), 0);
    let candidates = parse_results(":2");
    assert_eq!(candidates.len(), 1);
    assert_eq!(candidates[0], ("", 2));
}

#[test]
fn empty_input_yields_nothing() {
    assert_eq!(parse_results("").len(), 0);
}
