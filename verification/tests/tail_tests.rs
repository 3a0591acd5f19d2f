use via::cli::{parse_command, parse_tail_args, parse_usize, Command, TailArgsError, TailMode};
use via::tail::{last_n_lines, tail_delim, tail_since, tail_start_offset};

fn window(lines: &[&str]) -> Vec<String> {
    lines.iter().map(|l| l.to_string()).collect()
}

#[test]
fn tail_since_returns_from_last_occurrence() {
    let w = window(&["a", "PROMPT> ls", "out1", "out2", "PROMPT> "]);
    let r = tail_since(&w, "PROMPT>");
    assert_eq!(r, window(&["PROMPT> "]));
}

#[test]
fn tail_since_empty_without_occurrence() {
    let w = window(&["a", "b"]);
    let r = tail_since(&w, "PROMPT>");
    assert!(r.is_empty());
}

#[test]
fn tail_delim_returns_stanza_between_last_two_occurrences() {
    let w = window(&["a", "PROMPT> ls", "out1", "out2", "PROMPT> "]);
    let r = tail_delim(&w, "PROMPT>");
    assert_eq!(r, window(&["PROMPT> ls", "out1", "out2"]));
}

#[test]
fn tail_delim_single_occurrence_returns_rest() {
    let w = window(&["x", "PROMPT> y", "z"]);
    let r = tail_delim(&w, "PROMPT>");
    assert_eq!(r, window(&["PROMPT> y", "z"]));
}

#[test]
fn tail_delim_empty_without_occurrence() {
    let w = window(&["x", "y"]);
    let r = tail_delim(&w, "PROMPT>");
    assert!(r.is_empty());
}

#[test]
fn last_n_lines_keeps_the_tail_of_the_window() {
    let r = last_n_lines(b"l1\nl2\nl3\n", 2).unwrap();
    assert_eq!(r, window(&["l2", "l3"]));
}

#[test]
fn last_n_lines_handles_crlf_and_partial_final_line() {
    let r = last_n_lines(b"a\r\nb", 10).unwrap();
    assert_eq!(r, window(&["a", "b"]));
    let r = last_n_lines(b"a\r", 10).unwrap();
    assert_eq!(r, window(&["a\r"]));
}

#[test]
fn last_n_lines_empty_input() {
    let r = last_n_lines(b"", 5).unwrap();
    assert!(r.is_empty());
}

#[test]
fn last_n_lines_fails_on_invalid_utf8() {
    assert!(last_n_lines(b"ok\n\xff\n", 5).is_none());
}

#[test]
fn last_n_lines_decodes_multibyte_text() {
    let r = last_n_lines("caf\u{e9}\nna\u{ef}ve\n".as_bytes(), 5).unwrap();
    assert_eq!(r, window(&["caf\u{e9}", "na\u{ef}ve"]));
}

#[test]
fn tail_start_offset_estimates_eighty_bytes_per_line() {
    assert_eq!(tail_start_offset(10, 100), 0);
    assert_eq!(tail_start_offset(1, 1000), 920);
    assert_eq!(tail_start_offset(0, 5), 5);
    assert_eq!(tail_start_offset(usize::MAX, 12345), 0);
}

#[test]
fn parse_usize_accepts_digits_and_plus() {
    assert_eq!(parse_usize("42"), Some(42));
    assert_eq!(parse_usize("+7"), Some(7));
    assert_eq!(parse_usize("0"), Some(0));
}

#[test]
fn parse_usize_rejects_bad_input() {
    assert_eq!(parse_usize(""), None);
    assert_eq!(parse_usize("+"), None);
    assert_eq!(parse_usize("abc"), None);
    assert_eq!(parse_usize("-1"), None);
    assert_eq!(parse_usize("1 2"), None);
    assert_eq!(parse_usize("99999999999999999999999999"), None);
}

#[test]
fn tail_args_plain_line_count() {
    let opts = parse_tail_args(&window(&["-n", "5"])).unwrap();
    assert!(matches!(opts.mode, TailMode::Plain));
    assert_eq!(opts.lines, Some(5));
    assert!(!opts.follow);
}

#[test]
fn tail_args_since_and_delim() {
    let opts = parse_tail_args(&window(&["--since", "P>"])).unwrap();
    match opts.mode {
        TailMode::Since(p) => assert_eq!(p, "P>"),
        _ => panic!("expected since mode"),
    }
    let opts = parse_tail_args(&window(&["--delim", "P>", "-n", "30"])).unwrap();
    match opts.mode {
        TailMode::Delim(p) => assert_eq!(p, "P>"),
        _ => panic!("expected delim mode"),
    }
    assert_eq!(opts.lines, Some(30));
}

#[test]
fn tail_args_follow() {
    let opts = parse_tail_args(&window(&["-f"])).unwrap();
    assert!(opts.follow);
    assert!(opts.lines.is_none());
}

#[test]
fn tail_args_errors() {
    assert!(matches!(parse_tail_args(&window(&[])), Err(TailArgsError::NothingToDo)));
    assert!(matches!(parse_tail_args(&window(&["-n"])), Err(TailArgsError::MissingLineCount)));
    match parse_tail_args(&window(&["-n", "x"])) {
        Err(TailArgsError::InvalidLineCount(s)) => assert_eq!(s, "x"),
        _ => panic!("expected invalid line count"),
    }
    assert!(matches!(
        parse_tail_args(&window(&["--since"])),
        Err(TailArgsError::MissingSincePrompt)
    ));
    assert!(matches!(
        parse_tail_args(&window(&["--delim"])),
        Err(TailArgsError::MissingDelimPrompt)
    ));
    assert!(matches!(
        parse_tail_args(&window(&["--since", "P>", "--delim", "P>"])),
        Err(TailArgsError::ModeConflict)
    ));
    assert!(matches!(
        parse_tail_args(&window(&["-f", "--since", "P>"])),
        Err(TailArgsError::FollowModeConflict)
    ));
}

#[test]
fn tail_args_stop_at_first_unknown_word() {
    let opts = parse_tail_args(&window(&["-n", "3", "whatever"])).unwrap();
    assert_eq!(opts.lines, Some(3));
}

#[test]
fn command_grammar() {
    assert!(matches!(parse_command(&window(&[])), Command::ListSessions));
    assert!(matches!(parse_command(&window(&["--help"])), Command::Usage));
    assert!(matches!(parse_command(&window(&["-h"])), Command::Usage));
    assert!(matches!(parse_command(&window(&["--version"])), Command::Version));
    assert!(matches!(parse_command(&window(&["help"])), Command::Usage));
    match parse_command(&window(&["sh"])) {
        Command::MissingSubcommand(s) => assert_eq!(s, "sh"),
        _ => panic!("expected missing subcommand"),
    }
    match parse_command(&window(&["sh", "help"])) {
        Command::SessionHelp(s) => assert_eq!(s, "sh"),
        _ => panic!("expected session help"),
    }
    assert!(matches!(parse_command(&window(&["sh", "run", "--", "bash"])), Command::Run(_)));
    assert!(matches!(parse_command(&window(&["sh", "write", "ls"])), Command::Write(_)));
    assert!(matches!(parse_command(&window(&["sh", "tail", "-n", "5"])), Command::Tail(_)));
    assert!(matches!(parse_command(&window(&["sh", "path"])), Command::Path(_)));
    match parse_command(&window(&["sh", "P>", "ls"])) {
        Command::PromptShorthand(s, p) => {
            assert_eq!(s, "sh");
            assert_eq!(p, "P>");
        },
        _ => panic!("expected prompt shorthand"),
    }
    match parse_command(&window(&["sh", "bogus"])) {
        Command::UnknownSubcommand(s, w) => {
            assert_eq!(s, "sh");
            assert_eq!(w, "bogus");
        },
        _ => panic!("expected unknown subcommand"),
    }
}
