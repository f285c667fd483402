use yaml_from_env::framing::frame_document;

#[test]
fn strips_the_leading_separator() {
    assert_eq!(frame_document("---\nfoo: bar"), "\nfoo: bar\n---");
}

#[test]
fn strips_repeated_leading_separators() {
    assert_eq!(frame_document("------x"), "x\n---");
}

#[test]
fn leaves_text_without_separator_alone() {
    assert_eq!(frame_document("foo: bar"), "foo: bar\n---");
}

#[test]
fn frames_the_empty_document() {
    assert_eq!(frame_document(""), "\n---");
}

#[test]
fn a_partial_separator_is_not_stripped() {
    assert_eq!(frame_document("--x"), "--x\n---");
    assert_eq!(frame_document("--"), "--\n---");
}

#[test]
fn only_leading_separators_are_stripped() {
    assert_eq!(frame_document("a---b"), "a---b\n---");
    assert_eq!(frame_document("---a---"), "a---\n---");
}
