//! Data model of the transcript summary: running tools, sub-agents,
//! skills, completed-tool counters and the todo snapshot.

use vstd::prelude::*;

verus! {

/// Lifecycle of a tracked agent or skill invocation.
#[derive(Clone, Copy, PartialEq, Eq, Structural, Debug)]
pub enum Status {
    Running,
    Completed,
    Error,
}

/// A tool invocation with no matching result yet.
pub struct RunningTool {
    pub name: String,
    /// Short human-readable argument summary (a file name, a truncated
    /// command), when one could be derived from the tool's input.
    pub target: Option<String>,
}

/// Abstract value of a `RunningTool`.
pub struct ToolV {
    pub name: Seq<char>,
    pub target: Option<Seq<char>>,
}

impl View for RunningTool {
    type V = ToolV;

    open spec fn view(&self) -> ToolV {
        ToolV { name: self.name@, target: view_opt_string(self.target) }
    }
}

/// View of an optional string as an optional character sequence.
pub open spec fn view_opt_string(s: Option<String>) -> Option<Seq<char>> {
    match s {
        Some(x) => Some(x@),
        None => None,
    }
}

/// A tracked sub-agent invocation.
pub struct AgentEntry {
    pub agent_type: String,
    pub status: Status,
    pub start_time: Option<String>,
    pub end_time: Option<String>,
}

/// Abstract value of an `AgentEntry`.
pub struct AgentV {
    pub agent_type: Seq<char>,
    pub status: Status,
    pub start_time: Option<Seq<char>>,
    pub end_time: Option<Seq<char>>,
}

impl View for AgentEntry {
    type V = AgentV;

    open spec fn view(&self) -> AgentV {
        AgentV {
            agent_type: self.agent_type@,
            status: self.status,
            start_time: view_opt_string(self.start_time),
            end_time: view_opt_string(self.end_time),
        }
    }
}

/// A tracked skill invocation.
pub struct SkillEntry {
    pub name: String,
    pub status: Status,
}

/// Abstract value of a `SkillEntry`.
pub struct SkillV {
    pub name: Seq<char>,
    pub status: Status,
}

impl View for SkillEntry {
    type V = SkillV;

    open spec fn view(&self) -> SkillV {
        SkillV { name: self.name@, status: self.status }
    }
}

/// Running tools plus per-name completion counters.
pub struct ToolState {
    /// Insertion-ordered invocations with no matching result yet.
    pub running: Vec<RunningTool>,
    /// Tool name to number of completed invocations; names are unique,
    /// in first-completion order.
    pub completed: Vec<(String, u32)>,
}

/// Progress of the current todo-list snapshot.
pub struct TodoState {
    /// Label of the single in-progress item, when one exists.
    pub current: Option<String>,
    pub done: u32,
    pub total: u32,
}

/// The reducer's output: everything the renderer needs.
pub struct TranscriptState {
    pub tools: ToolState,
    pub agents: Vec<AgentEntry>,
    pub skills: Vec<SkillEntry>,
    pub todos: TodoState,
}

/// One item of a todo-list snapshot.
pub struct TodoItem {
    pub status: Option<String>,
    pub active_form: Option<String>,
}

/// Whether a todo item carries the given status label.
pub open spec fn has_status(t: TodoItem, label: Seq<char>) -> bool {
    match t.status {
        Some(s) => s@ == label,
        None => false,
    }
}

/// Number of items marked completed.
pub open spec fn count_completed(items: Seq<TodoItem>) -> nat
    decreases items.len(),
{
    if items.len() == 0 {
        0
    } else {
        count_completed(items.drop_last()) + if has_status(items.last(), "completed"@) {
            1nat
        } else {
            0nat
        }
    }
}

/// The first item marked in-progress, when one exists.
pub open spec fn first_in_progress(items: Seq<TodoItem>) -> Option<TodoItem>
    decreases items.len(),
{
    if items.len() == 0 {
        None
    } else if has_status(items.first(), "in_progress"@) {
        Some(items.first())
    } else {
        first_in_progress(items.drop_first())
    }
}

/// Label that the todo snapshot contributes as the current item: the
/// active-form label of the first in-progress item.
pub open spec fn current_label(items: Seq<TodoItem>) -> Option<Seq<char>> {
    match first_in_progress(items) {
        Some(t) => view_opt_string(t.active_form),
        None => None,
    }
}

/// No snapshot has more completed items than items.
pub proof fn lemma_count_completed_le_len(items: Seq<TodoItem>)
    ensures
        count_completed(items) <= items.len(),
    decreases items.len(),
{
    if items.len() > 0 {
        lemma_count_completed_le_len(items.drop_last());
    }
}

/// Replaces the todo snapshot wholesale: `total` becomes the list's
/// length, `done` the number of completed items, `current` the label of
/// the first in-progress item.
pub fn update_todos(state: &mut TodoState, todos: &Vec<TodoItem>)
    requires
        todos@.len() <= u32::MAX,
    ensures
        final(state).total == todos@.len(),
        final(state).done == count_completed(todos@),
        view_opt_string(final(state).current) == current_label(todos@),
        final(state).done <= final(state).total,
{
    proof {
        lemma_count_completed_le_len(todos@);
    }
    let n = todos.len();
    let mut done: u32 = 0;
    let mut current: Option<String> = None;
    let mut found_current: bool = false;
    let mut i: usize = 0;
    while i < n
        invariant
            n == todos@.len() <= u32::MAX,
            0 <= i <= n,
            done == count_completed(todos@.take(i as int)),
            found_current == (first_in_progress(todos@.take(i as int)) matches Some(_)),
            view_opt_string(current) == current_label(todos@.take(i as int)),
        decreases n - i,
    {
        proof {
            assert(todos@.take(i + 1).drop_last() =~= todos@.take(i as int));
            assert(todos@.take(i + 1).last() == todos@[i as int]);
            lemma_count_completed_le_len(todos@.take(i + 1));
            assert(todos@.take(i + 1) =~= todos@.take(i as int).push(todos@[i as int]));
            lemma_first_in_progress_extend(todos@.take(i as int), todos@[i as int]);
        }
        let item = &todos[i];
        if is_status(item, "completed") {
            done = done + 1;
        }
        if !found_current && is_status(item, "in_progress") {
            found_current = true;
            current = clone_opt_string(&item.active_form);
        }
        i = i + 1;
    }
    proof {
        assert(todos@.take(n as int) =~= todos@);
    }
    state.total = n as u32;
    state.done = done;
    state.current = current;
}

/// Extending a list on the right keeps the first in-progress item, or
/// introduces the new item as first when none was in-progress before.
proof fn lemma_first_in_progress_extend(items: Seq<TodoItem>, x: TodoItem)
    ensures
        first_in_progress(items.push(x)) == (match first_in_progress(items) {
            Some(t) => Some(t),
            None => if has_status(x, "in_progress"@) {
                Some(x)
            } else {
                None::<TodoItem>
            },
        }),
    decreases items.len(),
{
    if items.len() == 0 {
        assert(items.push(x).drop_first() =~= Seq::<TodoItem>::empty());
    } else {
        assert(items.push(x).first() == items.first());
        assert(items.push(x).drop_first() =~= items.drop_first().push(x));
        lemma_first_in_progress_extend(items.drop_first(), x);
    }
}

/// Whether the item's status equals the given label.
pub fn is_status(t: &TodoItem, label: &str) -> (r: bool)
    ensures
        r == has_status(*t, label@),
{
    match &t.status {
        Some(s) => crate::text::str_eq(s.as_str(), label),
        None => false,
    }
}

/// Copy of an optional string.
pub fn clone_opt_string(s: &Option<String>) -> (r: Option<String>)
    ensures
        view_opt_string(r) == view_opt_string(*s),
{
    match s {
        Some(x) => Some(x.clone()),
        None => None,
    }
}

} // verus!
