use transcript_status::reduce_lines;
use transcript_status::state::Status;

fn lines(v: &[&str]) -> Vec<String> {
    v.iter().map(|s| s.to_string()).collect()
}

#[test]
fn empty_log_yields_empty_state() {
    let state = reduce_lines(&Vec::new());
    assert_eq!(state.tools.running.len(), 0);
    assert_eq!(state.tools.completed.len(), 0);
    assert_eq!(state.agents.len(), 0);
    assert_eq!(state.skills.len(), 0);
    assert_eq!(state.todos.total, 0);
    assert_eq!(state.todos.done, 0);
    assert!(state.todos.current.is_none());
}

#[test]
fn malformed_and_blank_lines_are_skipped() {
    let state = reduce_lines(&lines(&[
        "",
        "   ",
        "{not json",
        r#"{"type":"assistant","message":{"content":[{"type":"tool_use","id":"b1","name":"Bash","input":{"command":"ls"}}]}}"#,
    ]));
    assert_eq!(state.tools.running.len(), 1);
    assert_eq!(state.tools.running[0].name, "Bash");
}

#[test]
fn todo_snapshot_counts() {
    let state = reduce_lines(&lines(&[
        r#"{"type":"assistant","message":{"content":[{"type":"tool_use","id":"t1","name":"TodoWrite","input":{"todos":[{"status":"completed"},{"status":"in_progress","activeForm":"Fix bug"},{"status":"pending"}]}}]}}"#,
    ]));
    assert_eq!(state.todos.done, 1);
    assert_eq!(state.todos.total, 3);
    assert_eq!(state.todos.current, Some("Fix bug".to_string()));
}

#[test]
fn read_tool_completes_with_counter() {
    let state = reduce_lines(&lines(&[
        r#"{"type":"assistant","message":{"content":[{"type":"tool_use","id":"r1","name":"Read","input":{"file_path":"/a/b/very_long_name.rs"}}]}}"#,
        r#"{"type":"user","message":{"content":[{"type":"tool_result","tool_use_id":"r1"}]}}"#,
    ]));
    assert_eq!(state.tools.running.len(), 0);
    assert_eq!(state.tools.completed.len(), 1);
    assert_eq!(state.tools.completed[0].0, "Read");
    assert_eq!(state.tools.completed[0].1, 1);
}

#[test]
fn read_tool_target_is_basename() {
    let state = reduce_lines(&lines(&[
        r#"{"type":"assistant","message":{"content":[{"type":"tool_use","id":"r1","name":"Read","input":{"file_path":"/a/b/very_long_name.rs"}}]}}"#,
    ]));
    assert_eq!(state.tools.running.len(), 1);
    assert_eq!(state.tools.running[0].target, Some("very_long_name.rs".to_string()));
}

#[test]
fn two_bash_starts_stay_running() {
    let state = reduce_lines(&lines(&[
        r#"{"type":"assistant","message":{"content":[{"type":"tool_use","id":"b1","name":"Bash","input":{"command":"make"}},{"type":"tool_use","id":"b2","name":"Bash","input":{"command":"make test"}}]}}"#,
    ]));
    assert_eq!(state.tools.running.len(), 2);
    assert_eq!(state.tools.running[0].name, "Bash");
    assert_eq!(state.tools.running[1].name, "Bash");
}

#[test]
fn same_skill_name_deduplicates() {
    let state = reduce_lines(&lines(&[
        r#"{"type":"assistant","message":{"content":[{"type":"tool_use","id":"s1","name":"Skill","input":{"skill":"refactor"}},{"type":"tool_use","id":"s2","name":"Skill","input":{"skill":"refactor"}}]}}"#,
    ]));
    assert_eq!(state.skills.len(), 1);
    assert_eq!(state.skills[0].name, "refactor");
    assert_eq!(state.skills[0].status, Status::Running);
}

#[test]
fn unmatched_result_changes_nothing() {
    let with_noise = reduce_lines(&lines(&[
        r#"{"type":"assistant","message":{"content":[{"type":"tool_use","id":"b1","name":"Bash","input":{"command":"ls"}}]}}"#,
        r#"{"type":"user","message":{"content":[{"type":"tool_result","tool_use_id":"nope"}]}}"#,
    ]));
    assert_eq!(with_noise.tools.running.len(), 1);
    assert_eq!(with_noise.tools.completed.len(), 0);
    assert_eq!(with_noise.agents.len(), 0);
    assert_eq!(with_noise.skills.len(), 0);
}

#[test]
fn turn_reset_clears_previous_activity() {
    let state = reduce_lines(&lines(&[
        r#"{"type":"assistant","message":{"content":[{"type":"tool_use","id":"b1","name":"Bash","input":{"command":"ls"}}]}}"#,
        r#"{"type":"user","message":{"content":[{"type":"tool_result","tool_use_id":"b1"}]}}"#,
        r#"{"type":"user","message":{"content":"please do the next thing"}}"#,
        r#"{"type":"assistant","message":{"content":[]}}"#,
    ]));
    assert_eq!(state.tools.running.len(), 0);
    assert_eq!(state.tools.completed.len(), 0);
}

#[test]
fn turn_reset_keeps_running_agents_drops_finished() {
    let state = reduce_lines(&lines(&[
        r#"{"type":"assistant","timestamp":"2024-01-01T00:00:00Z","message":{"content":[{"type":"tool_use","id":"a1","name":"Task","input":{"subagent_type":"builder"}},{"type":"tool_use","id":"a2","name":"Task","input":{"subagent_type":"checker"}}]}}"#,
        r#"{"type":"user","message":{"content":[{"type":"tool_result","tool_use_id":"a2","is_error":true}]}}"#,
        r#"{"type":"user","message":{"content":"next request"}}"#,
        r#"{"type":"assistant","message":{"content":[]}}"#,
    ]));
    assert_eq!(state.agents.len(), 1);
    assert_eq!(state.agents[0].agent_type, "builder");
    assert_eq!(state.agents[0].status, Status::Running);
}

#[test]
fn synthetic_user_records_do_not_reset() {
    let state = reduce_lines(&lines(&[
        r#"{"type":"assistant","message":{"content":[{"type":"tool_use","id":"b1","name":"Bash","input":{"command":"ls"}}]}}"#,
        r#"{"type":"user","isMeta":true,"message":{"content":"injected"}}"#,
        r#"{"type":"user","sourceToolUseID":"x","message":{"content":"skill text"}}"#,
        r#"{"type":"user","message":{"content":"<agent-notification> done"}}"#,
        r#"{"type":"user","agentId":"sub","message":{"content":"real but nested"}}"#,
        r#"{"type":"assistant","message":{"content":[]}}"#,
    ]));
    assert_eq!(state.tools.running.len(), 1);
}

#[test]
fn agent_error_records_status_and_end_time() {
    let state = reduce_lines(&lines(&[
        r#"{"type":"assistant","timestamp":"2024-01-01T00:00:00Z","message":{"content":[{"type":"tool_use","id":"a1","name":"Task","input":{"subagent_type":"builder"}}]}}"#,
        r#"{"type":"user","timestamp":"2024-01-01T00:00:10Z","message":{"content":[{"type":"tool_result","tool_use_id":"a1","is_error":true}]}}"#,
    ]));
    assert_eq!(state.agents.len(), 1);
    assert_eq!(state.agents[0].status, Status::Error);
    assert_eq!(state.agents[0].start_time, Some("2024-01-01T00:00:00Z".to_string()));
    assert_eq!(state.agents[0].end_time, Some("2024-01-01T00:00:10Z".to_string()));
}

#[test]
fn running_tools_capped_at_ten_most_recent() {
    let mut v: Vec<String> = Vec::new();
    for i in 0..12 {
        v.push(format!(
            r#"{{"type":"assistant","message":{{"content":[{{"type":"tool_use","id":"t{}","name":"Tool{}","input":{{}}}}]}}}}"#,
            i, i
        ));
    }
    let state = reduce_lines(&v);
    assert_eq!(state.tools.running.len(), 10);
    assert_eq!(state.tools.running[0].name, "Tool2");
    assert_eq!(state.tools.running[9].name, "Tool11");
}

#[test]
fn skills_capped_at_three_most_recent() {
    let mut v: Vec<String> = Vec::new();
    for i in 0..5 {
        v.push(format!(
            r#"{{"type":"assistant","message":{{"content":[{{"type":"tool_use","id":"s{}","name":"Skill","input":{{"skill":"sk{}"}}}}]}}}}"#,
            i, i
        ));
    }
    let state = reduce_lines(&v);
    assert_eq!(state.skills.len(), 3);
    assert_eq!(state.skills[0].name, "sk2");
    assert_eq!(state.skills[2].name, "sk4");
}

#[test]
fn empty_id_or_name_is_ignored() {
    let state = reduce_lines(&lines(&[
        r#"{"type":"assistant","message":{"content":[{"type":"tool_use","id":"","name":"Bash","input":{}},{"type":"tool_use","id":"x","name":"","input":{}}]}}"#,
    ]));
    assert_eq!(state.tools.running.len(), 0);
}

#[test]
fn completed_counter_accumulates() {
    let state = reduce_lines(&lines(&[
        r#"{"type":"assistant","message":{"content":[{"type":"tool_use","id":"b1","name":"Bash","input":{"command":"a"}}]}}"#,
        r#"{"type":"user","message":{"content":[{"type":"tool_result","tool_use_id":"b1"}]}}"#,
        r#"{"type":"assistant","message":{"content":[{"type":"tool_use","id":"b2","name":"Bash","input":{"command":"b"}}]}}"#,
        r#"{"type":"user","message":{"content":[{"type":"tool_result","tool_use_id":"b2"}]}}"#,
    ]));
    assert_eq!(state.tools.completed.len(), 1);
    assert_eq!(state.tools.completed[0].0, "Bash");
    assert_eq!(state.tools.completed[0].1, 2);
}

#[test]
fn top_level_todos_field_updates_snapshot() {
    let state = reduce_lines(&lines(&[
        r#"{"type":"user","todos":[{"status":"completed"},{"status":"completed"}],"message":{"content":"x"}}"#,
    ]));
    assert_eq!(state.todos.done, 2);
    assert_eq!(state.todos.total, 2);
    assert!(state.todos.current.is_none());
}

#[test]
fn glob_and_bash_targets_truncate() {
    let state = reduce_lines(&lines(&[
        r#"{"type":"assistant","message":{"content":[{"type":"tool_use","id":"g1","name":"Glob","input":{"pattern":"a_very_long_glob_pattern_indeed"}},{"type":"tool_use","id":"w1","name":"WebSearch","input":{"query":"short query"}}]}}"#,
    ]));
    assert_eq!(state.tools.running.len(), 2);
    assert_eq!(state.tools.running[0].target, Some("a_very_long_glob_...".to_string()));
    assert_eq!(state.tools.running[1].target, Some("short query".to_string()));
}

#[test]
fn starts_without_input_are_ignored_for_agents_and_skills() {
    let state = reduce_lines(&lines(&[
        r#"{"type":"assistant","message":{"content":[{"type":"tool_use","id":"a1","name":"Task"},{"type":"tool_use","id":"s1","name":"Skill"},{"type":"tool_use","id":"t1","name":"TodoWrite","input":{}}]}}"#,
    ]));
    assert_eq!(state.agents.len(), 0);
    assert_eq!(state.skills.len(), 0);
    assert_eq!(state.todos.total, 0);
    assert_eq!(state.tools.running.len(), 0);
}

#[test]
fn unknown_tool_has_no_target() {
    let state = reduce_lines(&lines(&[
        r#"{"type":"assistant","message":{"content":[{"type":"tool_use","id":"u1","name":"Mystery","input":{"anything":"x"}}]}}"#,
    ]));
    assert_eq!(state.tools.running.len(), 1);
    assert_eq!(state.tools.running[0].name, "Mystery");
    assert!(state.tools.running[0].target.is_none());
}

#[test]
fn skill_finish_marks_completed() {
    let state = reduce_lines(&lines(&[
        r#"{"type":"assistant","message":{"content":[{"type":"tool_use","id":"s1","name":"Skill","input":{"skill":"tidy"}}]}}"#,
        r#"{"type":"user","message":{"content":[{"type":"tool_result","tool_use_id":"s1"}]}}"#,
    ]));
    assert_eq!(state.skills.len(), 1);
    assert_eq!(state.skills[0].status, transcript_status::state::Status::Completed);
}
