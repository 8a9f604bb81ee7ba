//! The decoded shape of one log record, and the event classifier: which
//! records open a new turn, which confirm one, and what a tool's short
//! display target is.

use vstd::prelude::*;
use crate::state::{view_opt_string, TodoItem};
use crate::text::{basename, basename_of, str_eq, str_starts_with, truncate, truncated};

verus! {

/// The fields of a tool invocation's structured input that target
/// resolution and routing read.
pub struct ToolInput {
    pub file_path: Option<String>,
    pub notebook_path: Option<String>,
    pub pattern: Option<String>,
    pub command: Option<String>,
    pub description: Option<String>,
    pub url: Option<String>,
    pub query: Option<String>,
    pub subagent_type: Option<String>,
    pub skill: Option<String>,
    pub todos: Option<Vec<TodoItem>>,
}

/// Abstract value of a `ToolInput`.
pub struct ToolInputV {
    pub file_path: Option<Seq<char>>,
    pub notebook_path: Option<Seq<char>>,
    pub pattern: Option<Seq<char>>,
    pub command: Option<Seq<char>>,
    pub description: Option<Seq<char>>,
    pub url: Option<Seq<char>>,
    pub query: Option<Seq<char>>,
    pub subagent_type: Option<Seq<char>>,
    pub skill: Option<Seq<char>>,
    pub todos: Option<Seq<TodoItem>>,
}

impl View for ToolInput {
    type V = ToolInputV;

    open spec fn view(&self) -> ToolInputV {
        ToolInputV {
            file_path: view_opt_string(self.file_path),
            notebook_path: view_opt_string(self.notebook_path),
            pattern: view_opt_string(self.pattern),
            command: view_opt_string(self.command),
            description: view_opt_string(self.description),
            url: view_opt_string(self.url),
            query: view_opt_string(self.query),
            subagent_type: view_opt_string(self.subagent_type),
            skill: view_opt_string(self.skill),
            todos: match self.todos {
                Some(ref v) => Some(v@),
                None => None,
            },
        }
    }
}

/// One content block of a record.
pub enum Block {
    /// A start event: a tool, agent or skill invocation begins.
    ToolUse { id: String, name: String, input: Option<ToolInput> },
    /// A finish event: the invocation with this id completes.
    ToolResult { tool_use_id: String, is_error: bool },
    /// Any other block type; carries nothing the reducer reads.
    Other,
}

/// One decoded log record, reduced to the fields the reducer reads.
pub struct Record {
    /// The record's declared type; empty when absent.
    pub rec_type: String,
    pub timestamp: Option<String>,
    /// Whether the record carries a sub-agent identifier, marking it as
    /// part of a nested sub-transcript rather than the main conversation.
    pub has_agent_id: bool,
    /// Whether the record is flagged as a meta or system-injected message.
    pub is_meta: bool,
    /// Whether the record carries a source tool-use id, marking it as
    /// skill-content injection.
    pub has_source_tool_use_id: bool,
    /// The message content when it is a plain string.
    pub content_text: Option<String>,
    /// The message content blocks when it is an array; empty otherwise.
    pub blocks: Vec<Block>,
    /// The record's top-level todo-list snapshot, when it carries one.
    pub todos: Option<Vec<TodoItem>>,
}

/// Whether some block is a finish event.
pub open spec fn has_tool_result_block(blocks: Seq<Block>) -> bool {
    exists|i: int| 0 <= i < blocks.len() && blocks[i] is ToolResult
}

/// Whether the record's content is a string bearing the reserved
/// agent-notification marker.
pub open spec fn is_agent_notification(r: Record) -> bool {
    match r.content_text {
        Some(s) => "<agent-notification>"@.is_prefix_of(s@),
        None => false,
    }
}

/// A turn-start candidate: a top-level user record that is authored
/// activity, not a synthetic message (tool result carrier, meta
/// message, skill-content injection, or agent notification).
pub open spec fn is_turn_start_candidate(r: Record) -> bool {
    &&& r.rec_type@ == "user"@
    &&& !r.has_agent_id
    &&& !has_tool_result_block(r.blocks@)
    &&& !r.is_meta
    &&& !r.has_source_tool_use_id
    &&& !is_agent_notification(r)
}

/// A turn confirmation: a top-level assistant record; a pending
/// turn-start candidate triggers the reset here.
pub open spec fn is_turn_confirmation(r: Record) -> bool {
    r.rec_type@ == "assistant"@ && !r.has_agent_id
}

/// Decides whether the record is a turn-start candidate.
pub fn check_turn_start_candidate(r: &Record) -> (b: bool)
    ensures
        b == is_turn_start_candidate(*r),
{
    if !str_eq(r.rec_type.as_str(), "user") || r.has_agent_id || r.is_meta
        || r.has_source_tool_use_id {
        return false;
    }
    if match &r.content_text {
        Some(s) => str_starts_with(s.as_str(), "<agent-notification>"),
        None => false,
    } {
        return false;
    }
    let n = r.blocks.len();
    let mut i: usize = 0;
    while i < n
        invariant
            n == r.blocks@.len(),
            0 <= i <= n,
            forall|j: int| 0 <= j < i ==> !(r.blocks@[j] is ToolResult),
        decreases n - i,
    {
        if let Block::ToolResult { .. } = &r.blocks[i] {
            return false;
        }
        i = i + 1;
    }
    true
}

/// Decides whether the record is a turn confirmation.
pub fn check_turn_confirmation(r: &Record) -> (b: bool)
    ensures
        b == is_turn_confirmation(*r),
{
    str_eq(r.rec_type.as_str(), "assistant") && !r.has_agent_id
}

/// The first of two optional values, when it exists.
pub open spec fn or_opt(a: Option<Seq<char>>, b: Option<Seq<char>>) -> Option<Seq<char>> {
    match a {
        Some(x) => Some(x),
        None => b,
    }
}

/// The short display target a tool start contributes, by tool name:
/// the basename of the edited file, or a truncated pattern, command,
/// description, URL or query; nothing for other tools.
pub open spec fn extract_target_of(name: Seq<char>, input: Option<ToolInputV>) -> Option<
    Seq<char>,
> {
    match input {
        None => None,
        Some(inp) => if name == "Read"@ || name == "Write"@ || name == "Edit"@ || name
            == "NotebookEdit"@ {
            match or_opt(inp.file_path, inp.notebook_path) {
                Some(p) => Some(basename_of(p)),
                None => None,
            }
        } else if name == "Glob"@ || name == "Grep"@ {
            match inp.pattern {
                Some(p) => Some(truncated(p, 20)),
                None => None,
            }
        } else if name == "Bash"@ {
            match inp.command {
                Some(c) => Some(truncated(c, 25)),
                None => None,
            }
        } else if name == "Task"@ {
            match inp.description {
                Some(d) => Some(truncated(d, 30)),
                None => None,
            }
        } else if name == "WebFetch"@ || name == "WebSearch"@ {
            match or_opt(inp.url, inp.query) {
                Some(u) => Some(truncated(u, 25)),
                None => None,
            }
        } else {
            None
        },
    }
}

/// Resolves the short display target for a tool start.
pub fn extract_target(name: &str, input: Option<&ToolInput>) -> (r: Option<String>)
    ensures
        view_opt_string(r) == extract_target_of(
            name@,
            match input {
                Some(inp) => Some(inp@),
                None => None,
            },
        ),
{
    let inp = match input {
        Some(inp) => inp,
        None => {
            return None;
        },
    };
    if str_eq(name, "Read") || str_eq(name, "Write") || str_eq(name, "Edit") || str_eq(
        name,
        "NotebookEdit",
    ) {
        let path = first_some(&inp.file_path, &inp.notebook_path);
        match path {
            Some(p) => Some(basename(p.as_str())),
            None => None,
        }
    } else if str_eq(name, "Glob") || str_eq(name, "Grep") {
        match &inp.pattern {
            Some(p) => Some(truncate(p.as_str(), 20)),
            None => None,
        }
    } else if str_eq(name, "Bash") {
        match &inp.command {
            Some(c) => Some(truncate(c.as_str(), 25)),
            None => None,
        }
    } else if str_eq(name, "Task") {
        match &inp.description {
            Some(d) => Some(truncate(d.as_str(), 30)),
            None => None,
        }
    } else if str_eq(name, "WebFetch") || str_eq(name, "WebSearch") {
        let u = first_some(&inp.url, &inp.query);
        match u {
            Some(s) => Some(truncate(s.as_str(), 25)),
            None => None,
        }
    } else {
        None
    }
}

/// The first of two optional strings, when one exists.
fn first_some<'a>(a: &'a Option<String>, b: &'a Option<String>) -> (r: Option<&'a String>)
    ensures
        (match r {
            Some(s) => Some(s@),
            None => None,
        }) == or_opt(view_opt_string(*a), view_opt_string(*b)),
{
    match a {
        Some(x) => Some(x),
        None => match b {
            Some(y) => Some(y),
            None => None,
        },
    }
}

} // verus!
