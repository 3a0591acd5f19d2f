use via::session::{
    base_dir_candidates, format_session_table, join_args, prompt_preview, session_path,
    sort_sessions, stdin_path, stdout_path, str_le, SessionEntry,
};

#[test]
fn paths_hang_off_the_base_directory() {
    assert_eq!(session_path("/run/via", "shell"), "/run/via/shell");
    assert_eq!(stdin_path("/run/via", "shell"), "/run/via/shell/stdin");
    assert_eq!(stdout_path("/run/via", "shell"), "/run/via/shell/stdout");
}

#[test]
fn base_dir_prefers_override_then_runtime_dir() {
    let (primary, fallback) =
        base_dir_candidates(&Some("/srv/repls".to_string()), &Some("/run/user/1".to_string()));
    assert_eq!(primary, "/srv/repls");
    assert_eq!(fallback, "/run/user/1/via");
    let (primary, fallback) = base_dir_candidates(&None, &None);
    assert_eq!(primary, "/run/via");
    assert_eq!(fallback, "/tmp/via");
}

#[test]
fn input_words_join_with_single_spaces() {
    let args: Vec<String> = vec!["echo".to_string(), "hello".to_string(), "world".to_string()];
    assert_eq!(join_args(&args), "echo hello world");
    let none: Vec<String> = Vec::new();
    assert_eq!(join_args(&none), "");
    let one: Vec<String> = vec!["ls".to_string()];
    assert_eq!(join_args(&one), "ls");
}

#[test]
fn preview_shows_the_last_line() {
    assert_eq!(prompt_preview("out\nP> "), Some("P> ".to_string()));
    assert_eq!(prompt_preview("P>"), Some("P>".to_string()));
    assert_eq!(prompt_preview("line\n"), Some("line".to_string()));
    assert_eq!(prompt_preview(""), None);
    assert_eq!(prompt_preview("a\n\n"), None);
}

#[test]
fn preview_shortens_long_lines() {
    let line = "0123456789012345678901234";
    assert_eq!(prompt_preview(line), Some("01234567890123456789...".to_string()));
    let exactly_twenty = "01234567890123456789";
    assert_eq!(prompt_preview(exactly_twenty), Some(exactly_twenty.to_string()));
}

#[test]
fn names_order_lexicographically() {
    assert!(str_le("abc", "abd"));
    assert!(str_le("ab", "abc"));
    assert!(!str_le("b", "abc"));
    assert!(str_le("same", "same"));
}

fn entry(name: &str, command: Option<&str>, cwd: Option<&str>, prompt: Option<&str>) -> SessionEntry {
    SessionEntry {
        name: name.to_string(),
        command: command.map(|s| s.to_string()),
        cwd: cwd.map(|s| s.to_string()),
        prompt: prompt.map(|s| s.to_string()),
    }
}

#[test]
fn sessions_sort_by_name() {
    let entries = vec![
        entry("zsh", None, None, None),
        entry("bash", None, None, None),
        entry("lua", None, None, None),
    ];
    let sorted = sort_sessions(entries);
    let names: Vec<&str> = sorted.iter().map(|e| e.name.as_str()).collect();
    assert_eq!(names, vec!["bash", "lua", "zsh"]);
}

#[test]
fn sort_keeps_duplicate_names() {
    let entries = vec![
        entry("b", Some("one"), None, None),
        entry("a", None, None, None),
        entry("b", Some("two"), None, None),
    ];
    let sorted = sort_sessions(entries);
    let names: Vec<&str> = sorted.iter().map(|e| e.name.as_str()).collect();
    assert_eq!(names, vec!["a", "b", "b"]);
    let commands: Vec<Option<&str>> =
        sorted.iter().map(|e| e.command.as_deref()).collect();
    assert!(commands.contains(&Some("one")));
    assert!(commands.contains(&Some("two")));
}

#[test]
fn table_is_empty_without_sessions() {
    let rows = format_session_table(&Vec::new());
    assert!(rows.is_empty());
}

#[test]
fn table_pads_columns_to_their_content() {
    let entries = vec![
        entry("sh", Some("bash\n"), Some(" /home/me \n"), Some("P> ")),
        entry("longsession", None, None, None),
    ];
    let rows = format_session_table(&entries);
    assert_eq!(rows.len(), 3);
    // Column widths: names up to 11, prompts up to the 11-wide header,
    // directories up to the 17-wide header.
    let header = format!("Session{}  Prompt Line  Working Directory  Command", " ".repeat(4));
    let row_sh = format!("sh{}  P> {}  /home/me{}  bash", " ".repeat(9), " ".repeat(8), " ".repeat(9));
    let row_long = format!("longsession  {}  {}  ", " ".repeat(11), " ".repeat(17));
    assert_eq!(rows[0], header);
    assert_eq!(rows[1], row_sh);
    assert_eq!(rows[2], row_long);
}
