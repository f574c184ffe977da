use merkle_block::line::longer;
use merkle_block::line::LineRef;

#[test]
fn longer_test() {
    let line = LineRef::new("hello world");
    assert_eq!(line.as_str(), line.line);
}

#[test]
fn longer_picks_greater_byte_length() {
    assert_eq!(longer("aa", "b"), "aa");
    assert_eq!(longer("a", "bb"), "bb");
}

#[test]
fn longer_prefers_second_on_tie() {
    assert_eq!(longer("ab", "cd"), "cd");
}
