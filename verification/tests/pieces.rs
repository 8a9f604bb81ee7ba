use transcript_status::render::{format_agents, format_output, format_todos, format_tools, u64_to_string};
use transcript_status::state::{AgentEntry, RunningTool, Status, TodoState, ToolState, TranscriptState};
use transcript_status::text::{basename, str_eq, str_starts_with, truncate};
use transcript_status::time::{calculate_elapsed, parse_timestamp};

#[test]
fn basename_takes_the_last_component() {
    assert_eq!(basename("/a/b/c.rs"), "c.rs");
    assert_eq!(basename("plain.txt"), "plain.txt");
    assert_eq!(basename(""), "");
}

#[test]
fn basename_handles_separators_and_dots() {
    assert_eq!(basename("/a/b/"), "b");
    assert_eq!(basename("a/b/."), "b");
    assert_eq!(basename("/"), "/");
    assert_eq!(basename("."), ".");
    assert_eq!(basename(".."), "..");
    assert_eq!(basename("a/.."), "a/..");
    assert_eq!(basename(".hidden"), ".hidden");
}

#[test]
fn truncate_keeps_short_and_cuts_long() {
    assert_eq!(truncate("short", 20), "short");
    assert_eq!(truncate("abcdefghij", 5), "ab...");
    assert_eq!(truncate("abcde", 5), "abcde");
}

#[test]
fn str_helpers() {
    assert!(str_eq("abc", "abc"));
    assert!(!str_eq("abc", "abd"));
    assert!(str_starts_with("<agent-notification> x", "<agent-notification>"));
    assert!(!str_starts_with("no marker", "<agent-notification>"));
}

#[test]
fn parse_timestamp_exact_value() {
    // ((50*365 + 1*30 + 2) * 86400) + 3*3600 + 4*60 + 5
    assert_eq!(parse_timestamp("2020-01-02T03:04:05Z"), Some(1_579_575_845));
    assert_eq!(parse_timestamp("2020-01-02T03:04:05.123Z"), Some(1_579_575_845));
    assert_eq!(parse_timestamp("not a time"), None);
    assert_eq!(parse_timestamp("2020-01-02"), None);
    assert_eq!(parse_timestamp("2020-01-02T03:04"), None);
    assert_eq!(parse_timestamp("1969-12-31T23:59:59Z"), None);
}

#[test]
fn elapsed_between_timestamps() {
    let start = Some("2024-01-01T00:00:00Z".to_string());
    let end = Some("2024-01-01T00:01:40Z".to_string());
    assert_eq!(calculate_elapsed(&start, &end, 0), 100);
    // A running agent measures against "now".
    let s2 = parse_timestamp("2024-01-01T00:00:00Z").unwrap();
    assert_eq!(calculate_elapsed(&start, &None, s2 + 7), 7);
    // An end before its start clamps at zero.
    assert_eq!(calculate_elapsed(&end, &start, 0), 0);
}

#[test]
fn decimal_rendering() {
    assert_eq!(u64_to_string(0), "0");
    assert_eq!(u64_to_string(7), "7");
    assert_eq!(u64_to_string(1234567890), "1234567890");
}

#[test]
fn todo_line_exact() {
    let t = TodoState { current: Some("Fix bug".to_string()), done: 1, total: 3 };
    let line = format_todos(&t).unwrap();
    assert_eq!(
        line,
        "\x1b[38;2;180;190;254m\u{f14a}\x1b[0m \x1b[38;2;249;226;175m\u{f110}\x1b[0m Fix bug (1/3)"
    );
    let done = TodoState { current: Some("Last".to_string()), done: 2, total: 2 };
    let line = format_todos(&done).unwrap();
    assert_eq!(
        line,
        "\x1b[38;2;180;190;254m\u{f14a}\x1b[0m \x1b[38;2;166;227;161m\u{f00c}\x1b[0m All done (2/2)"
    );
    let empty = TodoState { current: None, done: 0, total: 0 };
    assert!(format_todos(&empty).is_none());
}

#[test]
fn tools_section_orders_by_count() {
    let t = ToolState {
        running: vec![RunningTool { name: "Bash".to_string(), target: Some("ls".to_string()) }],
        completed: vec![("Read".to_string(), 1), ("Edit".to_string(), 3)],
    };
    let line = format_tools(&t).unwrap();
    let check = "\x1b[38;2;166;227;161m\u{f00c}\x1b[0m";
    let spin = "\x1b[38;2;249;226;175m\u{f110}\x1b[0m";
    let expected = format!(
        "\x1b[38;2;180;190;254m\u{f0ad}\x1b[0m {check} Edit \u{d7}3 {check} Read {spin} Bash ls"
    );
    assert_eq!(line, expected);
}

#[test]
fn empty_state_renders_nothing() {
    let state = TranscriptState {
        tools: ToolState { running: Vec::new(), completed: Vec::new() },
        agents: Vec::new(),
        skills: Vec::new(),
        todos: TodoState { current: None, done: 0, total: 0 },
    };
    assert_eq!(format_output(&state, 0), "");
}

#[test]
fn agents_section_shows_elapsed() {
    let agents = vec![AgentEntry {
        agent_type: "builder".to_string(),
        status: Status::Running,
        start_time: Some("2024-01-01T00:00:00Z".to_string()),
        end_time: None,
    }];
    let now = parse_timestamp("2024-01-01T00:00:10Z").unwrap();
    let line = format_agents(&agents, now).unwrap();
    assert_eq!(
        line,
        "\x1b[38;2;180;190;254m\u{ee0d}\x1b[0m \x1b[38;2;249;226;175m\u{f110}\x1b[0m builder (10s)"
    );
}
