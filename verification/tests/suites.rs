use terrace_helm::suites::{as_written, moved_lines, normalised};

#[test]
fn line_endings_are_compared_normalised() {
    assert_eq!(normalised("a\r\nb\r\n"), "a\nb\n");
    assert_eq!(normalised("a\nb"), "a\nb");
}

#[test]
fn a_suite_is_written_back_in_the_convention_the_committed_copy_uses() {
    assert_eq!(as_written("a\nb\n", Some("x\r\ny"), false), "a\r\nb\r\n");
    assert_eq!(as_written("a\r\nb\n", Some("x\ny"), true), "a\nb\n");
    assert_eq!(as_written("a\nb", None, true), "a\r\nb");
    assert_eq!(as_written("a\r\nb", None, false), "a\nb");
}

#[test]
fn only_the_lines_that_moved_are_listed() {
    assert_eq!(moved_lines("a\r\nb\r\nc\r\n", "a\nB\nc\n"), "  -b\n  +B\n");
    assert_eq!(moved_lines("same\n", "same\r\n"), "");
}
