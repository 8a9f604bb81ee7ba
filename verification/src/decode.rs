//! Decodes one JSON log record into the plain `Record` shape the
//! reducer is specified over. Absent or differently-typed fields
//! degrade to defaults; nothing here aborts a scan.

use vstd::prelude::*;
use crate::classify::{Block, Record, ToolInput};
use crate::json::{as_array_value, as_bool_value, as_str_value, get_field, parse_json};
use crate::state::TodoItem;
use crate::text::str_eq;

verus! {

/// The string under `key`, when the object has it as a string.
fn get_str(v: &serde_json::Value, key: &str) -> Option<String> {
    match get_field(v, key) {
        Some(x) => as_str_value(x),
        None => None,
    }
}

/// One todo item: its status label and active-form label.
fn decode_todo_item(v: &serde_json::Value) -> TodoItem {
    TodoItem { status: get_str(v, "status"), active_form: get_str(v, "activeForm") }
}

/// A todo-list snapshot, when the value is an array.
fn decode_todo_list(v: &serde_json::Value) -> Option<Vec<TodoItem>> {
    match as_array_value(v) {
        Some(arr) => {
            let mut items: Vec<TodoItem> = Vec::new();
            let n = arr.len();
            let mut i: usize = 0;
            while i < n
                invariant
                    n == arr@.len(),
                    0 <= i <= n,
                decreases n - i,
            {
                items.push(decode_todo_item(&arr[i]));
                i = i + 1;
            }
            Some(items)
        },
        None => None,
    }
}

/// The fields of a tool input that routing and target resolution read.
fn decode_tool_input(v: &serde_json::Value) -> ToolInput {
    ToolInput {
        file_path: get_str(v, "file_path"),
        notebook_path: get_str(v, "notebook_path"),
        pattern: get_str(v, "pattern"),
        command: get_str(v, "command"),
        description: get_str(v, "description"),
        url: get_str(v, "url"),
        query: get_str(v, "query"),
        subagent_type: get_str(v, "subagent_type"),
        skill: get_str(v, "skill"),
        todos: match get_field(v, "todos") {
            Some(t) => decode_todo_list(t),
            None => None,
        },
    }
}

/// One content block: a start event, a finish event, or anything else.
fn decode_block(v: &serde_json::Value) -> Block {
    let block_type = match get_str(v, "type") {
        Some(t) => t,
        None => {
            return Block::Other;
        },
    };
    if str_eq(block_type.as_str(), "tool_use") {
        Block::ToolUse {
            id: match get_str(v, "id") {
                Some(s) => s,
                None => String::new(),
            },
            name: match get_str(v, "name") {
                Some(s) => s,
                None => String::new(),
            },
            input: match get_field(v, "input") {
                Some(x) => Some(decode_tool_input(x)),
                None => None,
            },
        }
    } else if str_eq(block_type.as_str(), "tool_result") {
        Block::ToolResult {
            tool_use_id: match get_str(v, "tool_use_id") {
                Some(s) => s,
                None => String::new(),
            },
            is_error: match get_field(v, "is_error") {
                Some(b) => match as_bool_value(b) {
                    Some(x) => x,
                    None => false,
                },
                None => false,
            },
        }
    } else {
        Block::Other
    }
}

/// One log line decoded into the reducer's record shape; nothing for a
/// blank or malformed line.
pub fn decode_record(line: &str) -> Option<Record> {
    let v = match parse_json(line) {
        Some(v) => v,
        None => {
            return None;
        },
    };
    let rec_type = match get_str(&v, "type") {
        Some(t) => t,
        None => String::new(),
    };
    let timestamp = get_str(&v, "timestamp");
    let has_agent_id = match get_field(&v, "agentId") {
        Some(_) => true,
        None => false,
    };
    let is_meta = match get_field(&v, "isMeta") {
        Some(b) => match as_bool_value(b) {
            Some(x) => x,
            None => false,
        },
        None => false,
    };
    let has_source_tool_use_id = match get_field(&v, "sourceToolUseID") {
        Some(_) => true,
        None => false,
    };
    let todos = match get_field(&v, "todos") {
        Some(t) => decode_todo_list(t),
        None => None,
    };
    let mut content_text: Option<String> = None;
    let mut blocks: Vec<Block> = Vec::new();
    match get_field(&v, "message") {
        Some(m) => match get_field(m, "content") {
            Some(c) => {
                content_text = as_str_value(c);
                match as_array_value(c) {
                    Some(arr) => {
                        let n = arr.len();
                        let mut i: usize = 0;
                        while i < n
                            invariant
                                n == arr@.len(),
                                0 <= i <= n,
                            decreases n - i,
                        {
                            blocks.push(decode_block(&arr[i]));
                            i = i + 1;
                        }
                    },
                    None => {},
                }
            },
            None => {},
        },
        None => {},
    }
    Some(
        Record {
            rec_type,
            timestamp,
            has_agent_id,
            is_meta,
            has_source_tool_use_id,
            content_text,
            blocks,
            todos,
        },
    )
}

} // verus!
