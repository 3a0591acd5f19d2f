use via::normalize::process_terminal_output;

#[test]
fn ansi_sequences_are_stripped() {
    let out = process_terminal_output(b"\x1b[31mRED\x1b[0m");
    assert_eq!(out, "RED");
}

#[test]
fn carriage_return_keeps_last_segment() {
    let out = process_terminal_output(b"abc\rdef");
    assert_eq!(out, "def");
}

#[test]
fn control_bytes_are_removed() {
    let out = process_terminal_output(b"a\x07b\x08c");
    assert_eq!(out, "abc");
}

#[test]
fn delete_byte_is_removed() {
    let out = process_terminal_output(b"x\x7fy");
    assert_eq!(out, "xy");
}

#[test]
fn trailing_whitespace_is_stripped() {
    let out = process_terminal_output(b"hi   \t");
    assert_eq!(out, "hi");
}

#[test]
fn newlines_are_preserved() {
    let out = process_terminal_output(b"a\nb");
    assert_eq!(out, "a\nb");
}

#[test]
fn empty_input_gives_empty_text() {
    let out = process_terminal_output(b"");
    assert_eq!(out, "");
}

#[test]
fn invalid_utf8_is_replaced_not_fatal() {
    let out = process_terminal_output(b"ok\xff");
    assert_eq!(out, "ok\u{fffd}");
}

#[test]
fn normalize_twice_equals_normalize_once() {
    let inputs: Vec<&[u8]> = vec![
        b"\x1b[32mOK\x1b[0m  \rdone \x07",
        b"plain text",
        b"tail\rhead\x08  ",
        b"\x1b[1;31mbold red\x1b[m\n",
        b"",
    ];
    for input in inputs {
        let once = process_terminal_output(input);
        let twice = process_terminal_output(once.as_bytes());
        assert_eq!(twice, once);
    }
}

#[test]
fn overlapping_escapes_can_splice_a_new_sequence() {
    // Stripping `ESC [ ESC [ 3 1 m m` removes the inner sequence and leaves
    // `ESC [ m`, itself a complete sequence: a second pass removes it.  This
    // is the one shape of input on which a single pass is not a fixpoint.
    let once = process_terminal_output(b"\x1b[\x1b[31mm");
    assert_eq!(once, "\u{1b}[m");
    let twice = process_terminal_output(once.as_bytes());
    assert_eq!(twice, "");
}

#[test]
fn incomplete_escape_is_kept() {
    let out = process_terminal_output(b"a\x1b[12");
    assert_eq!(out, "a\u{1b}[12");
}

#[test]
fn carriage_return_at_end_leaves_empty_line() {
    let out = process_terminal_output(b"abc\r");
    assert_eq!(out, "");
}
