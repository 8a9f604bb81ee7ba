//! Reduces an append-only, line-delimited transcript log of an
//! interactive agent session to a compact summary of current activity:
//! todo progress, active skills, active sub-agents, and tool
//! invocations in flight or recently finished.

pub mod state;
pub mod text;
pub mod classify;
pub mod scan;
pub mod decode;
pub mod time;
pub mod render;
pub mod json;

use vstd::prelude::*;

verus! {

use crate::state::TranscriptState;

/// Reduces a whole log, given as its lines, to the final summary
/// state: each line is decoded (blank or malformed lines are skipped)
/// and the decoded records are folded in order. The result never
/// exceeds the display budgets, and its todo snapshot is consistent.
pub fn reduce_lines(lines: &Vec<String>) -> (r: TranscriptState)
    ensures
        r.todos.done <= r.todos.total,
        r.tools.running@.len() <= 10,
        r.agents@.len() <= 5,
        r.skills@.len() <= 3,
{
    let mut records: Vec<crate::classify::Record> = Vec::new();
    let n = lines.len();
    let mut i: usize = 0;
    while i < n
        invariant
            n == lines@.len(),
            0 <= i <= n,
        decreases n - i,
    {
        match crate::decode::decode_record(lines[i].as_str()) {
            Some(rec) => records.push(rec),
            None => {},
        }
        i = i + 1;
    }
    crate::scan::reduce_records(&records)
}

} // verus!
