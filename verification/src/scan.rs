//! The log-to-state reducer: id-keyed trackers for tools, agents and
//! skills, the turn-boundary state machine, and the recency limiter.
//!
//! The scanner's working maps are insertion-ordered association lists,
//! so recency limiting is deterministic. Every transition is specified
//! exactly over the scanner's abstract value (`ScanV`).

use vstd::prelude::*;
use crate::classify::{
    extract_target, extract_target_of, check_turn_start_candidate, check_turn_confirmation,
    is_turn_start_candidate, is_turn_confirmation, Block, Record,
};
use crate::state::{
    clone_opt_string, count_completed, current_label, update_todos, view_opt_string, AgentEntry,
    AgentV, RunningTool, SkillEntry, SkillV, Status, TodoItem, TodoState, ToolState, ToolV,
    TranscriptState,
};
use crate::text::str_eq;

verus! {

/// Abstract value of the todo snapshot.
pub struct TodoV {
    pub current: Option<Seq<char>>,
    pub done: u32,
    pub total: u32,
}

impl View for TodoState {
    type V = TodoV;

    open spec fn view(&self) -> TodoV {
        TodoV { current: view_opt_string(self.current), done: self.done, total: self.total }
    }
}

/// Abstract value of the scanner: the turn machine's flag and the four
/// insertion-ordered working maps, each keyed by invocation id.
#[verifier::ext_equal]
pub struct ScanV {
    pub pending_reset: bool,
    pub tool_starts: Seq<(Seq<char>, ToolV)>,
    pub agent_starts: Seq<(Seq<char>, AgentV)>,
    pub skill_starts: Seq<(Seq<char>, SkillV)>,
    pub completed: Seq<(Seq<char>, u32)>,
    pub todos: TodoV,
}

/// Whether some entry carries the given key.
pub open spec fn key_in<T>(m: Seq<(Seq<char>, T)>, id: Seq<char>) -> bool {
    exists|i: int| 0 <= i < m.len() && m[i].0 == id
}

/// Whether all keys are pairwise distinct.
pub open spec fn keys_unique<T>(m: Seq<(Seq<char>, T)>) -> bool {
    forall|i: int, j: int| 0 <= i < j < m.len() ==> m[i].0 != m[j].0
}

/// Whether all skill names are pairwise distinct.
pub open spec fn skill_names_unique(m: Seq<(Seq<char>, SkillV)>) -> bool {
    forall|i: int, j: int| 0 <= i < j < m.len() ==> m[i].1.name != m[j].1.name
}

impl ScanV {
    /// Well-formedness: unique keys in every map, unique skill names,
    /// and a consistent todo snapshot.
    pub open spec fn wf(self) -> bool {
        &&& keys_unique(self.tool_starts)
        &&& keys_unique(self.agent_starts)
        &&& keys_unique(self.skill_starts)
        &&& keys_unique(self.completed)
        &&& skill_names_unique(self.skill_starts)
        &&& self.todos.done <= self.todos.total
    }
}

/// The scanner's state before any record.
pub open spec fn init_v() -> ScanV {
    ScanV {
        pending_reset: false,
        tool_starts: Seq::empty(),
        agent_starts: Seq::empty(),
        skill_starts: Seq::empty(),
        completed: Seq::empty(),
        todos: TodoV { current: None, done: 0, total: 0 },
    }
}

/// The map without the entry keyed `id`, order kept.
pub open spec fn remove_key<T>(m: Seq<(Seq<char>, T)>, id: Seq<char>) -> Seq<(Seq<char>, T)>
    decreases m.len(),
{
    if m.len() == 0 {
        m
    } else {
        let rest = remove_key(m.drop_last(), id);
        if m.last().0 == id {
            rest
        } else {
            rest.push(m.last())
        }
    }
}

/// The skill map without the entries named `name`, order kept.
pub open spec fn remove_sname(
    m: Seq<(Seq<char>, SkillV)>,
    name: Seq<char>,
) -> Seq<(Seq<char>, SkillV)>
    decreases m.len(),
{
    if m.len() == 0 {
        m
    } else {
        let rest = remove_sname(m.drop_last(), name);
        if m.last().1.name == name {
            rest
        } else {
            rest.push(m.last())
        }
    }
}

/// The skill map without the entry keyed `id` and without any entry
/// named `name`, order kept: a new skill start supersedes both its own
/// id and any previous invocation of the same skill.
pub open spec fn remove_skill(
    m: Seq<(Seq<char>, SkillV)>,
    id: Seq<char>,
    name: Seq<char>,
) -> Seq<(Seq<char>, SkillV)> {
    remove_sname(remove_key(m, id), name)
}

/// The agent entries still running, order kept.
pub open spec fn keep_running(m: Seq<(Seq<char>, AgentV)>) -> Seq<(Seq<char>, AgentV)>
    decreases m.len(),
{
    if m.len() == 0 {
        m
    } else {
        let rest = keep_running(m.drop_last());
        if m.last().1.status is Running {
            rest.push(m.last())
        } else {
            rest
        }
    }
}

/// A count bumped by one, capped at the counter's maximum.
pub open spec fn inc_count(c: u32) -> u32 {
    if c == u32::MAX {
        c
    } else {
        (c + 1) as u32
    }
}

/// The counters with the count for `name` raised by one, or a fresh
/// counter of one appended when the name is new.
pub open spec fn bump_count(m: Seq<(Seq<char>, u32)>, name: Seq<char>) -> Seq<(Seq<char>, u32)> {
    if key_in(m, name) {
        Seq::new(
            m.len(),
            |i: int| if m[i].0 == name {
                (m[i].0, inc_count(m[i].1))
            } else {
                m[i]
            },
        )
    } else {
        m.push((name, 1))
    }
}

/// The agent map with the entry keyed `id` moved to the given status
/// and end time; unchanged elsewhere.
pub open spec fn set_agent_finished(
    m: Seq<(Seq<char>, AgentV)>,
    id: Seq<char>,
    status: Status,
    end_time: Option<Seq<char>>,
) -> Seq<(Seq<char>, AgentV)> {
    Seq::new(
        m.len(),
        |i: int| if m[i].0 == id {
            (
                m[i].0,
                AgentV {
                    agent_type: m[i].1.agent_type,
                    status,
                    start_time: m[i].1.start_time,
                    end_time,
                },
            )
        } else {
            m[i]
        },
    )
}

/// The skill map with the entry keyed `id` moved to the given status.
pub open spec fn set_skill_finished(
    m: Seq<(Seq<char>, SkillV)>,
    id: Seq<char>,
    status: Status,
) -> Seq<(Seq<char>, SkillV)> {
    Seq::new(
        m.len(),
        |i: int| if m[i].0 == id {
            (m[i].0, SkillV { name: m[i].1.name, status })
        } else {
            m[i]
        },
    )
}

/// The name of the tool entry keyed `id` (meaningful only when the key
/// is present and keys are unique).
pub open spec fn tool_name_at(m: Seq<(Seq<char>, ToolV)>, id: Seq<char>) -> Seq<char> {
    let k = choose|k: int| 0 <= k < m.len() && m[k].0 == id;
    m[k].1.name
}

/// The finish status a result block assigns.
pub open spec fn finish_status(is_error: bool) -> Status {
    if is_error {
        Status::Error
    } else {
        Status::Completed
    }
}

/// Effect of a finish event: the maps are probed in the order agents,
/// skills, tools; an unmatched id changes nothing.
pub open spec fn finish_v(
    s: ScanV,
    id: Seq<char>,
    is_error: bool,
    ts: Option<Seq<char>>,
) -> ScanV {
    if key_in(s.agent_starts, id) {
        ScanV {
            agent_starts: set_agent_finished(s.agent_starts, id, finish_status(is_error), ts),
            ..s
        }
    } else if key_in(s.skill_starts, id) {
        ScanV { skill_starts: set_skill_finished(s.skill_starts, id, finish_status(is_error)), ..s }
    } else if key_in(s.tool_starts, id) {
        ScanV {
            tool_starts: remove_key(s.tool_starts, id),
            completed: bump_count(s.completed, tool_name_at(s.tool_starts, id)),
            ..s
        }
    } else {
        s
    }
}

/// Effect of the turn reset: running tools, skills and completed
/// counters are dropped; agents still running survive.
pub open spec fn reset_v(s: ScanV) -> ScanV {
    ScanV {
        pending_reset: false,
        tool_starts: Seq::empty(),
        agent_starts: keep_running(s.agent_starts),
        skill_starts: Seq::empty(),
        completed: Seq::empty(),
        todos: s.todos,
    }
}

/// The todo snapshot recomputed wholesale from a list of items.
pub open spec fn todos_of(items: Seq<TodoItem>) -> TodoV {
    TodoV {
        current: current_label(items),
        done: count_completed(items) as u32,
        total: items.len() as u32,
    }
}

/// The given name when present, else the default.
pub open spec fn name_or(n: Option<Seq<char>>, dflt: Seq<char>) -> Seq<char> {
    match n {
        Some(x) => x,
        None => dflt,
    }
}

/// Effect of one content block on the scanner.
pub open spec fn block_step(s: ScanV, b: Block, ts: Option<Seq<char>>) -> ScanV {
    match b {
        Block::ToolUse { id, name, input } => {
            if id@.len() == 0 || name@.len() == 0 {
                s
            } else if name@ == "TodoWrite"@ {
                match input {
                    Some(inp) => match inp@.todos {
                        Some(items) => if items.len() <= u32::MAX {
                            ScanV { todos: todos_of(items), ..s }
                        } else {
                            s
                        },
                        None => s,
                    },
                    None => s,
                }
            } else if name@ == "Task"@ {
                match input {
                    Some(inp) => ScanV {
                        agent_starts: remove_key(s.agent_starts, id@).push(
                            (
                                id@,
                                AgentV {
                                    agent_type: name_or(inp@.subagent_type, "agent"@),
                                    status: Status::Running,
                                    start_time: ts,
                                    end_time: None,
                                },
                            ),
                        ),
                        ..s
                    },
                    None => s,
                }
            } else if name@ == "Skill"@ {
                match input {
                    Some(inp) => ScanV {
                        skill_starts: remove_skill(
                            s.skill_starts,
                            id@,
                            name_or(inp@.skill, "skill"@),
                        ).push(
                            (
                                id@,
                                SkillV {
                                    name: name_or(inp@.skill, "skill"@),
                                    status: Status::Running,
                                },
                            ),
                        ),
                        ..s
                    },
                    None => s,
                }
            } else {
                ScanV {
                    tool_starts: remove_key(s.tool_starts, id@).push(
                        (
                            id@,
                            ToolV {
                                name: name@,
                                target: extract_target_of(
                                    name@,
                                    match input {
                                        Some(inp) => Some(inp@),
                                        None => None,
                                    },
                                ),
                            },
                        ),
                    ),
                    ..s
                }
            }
        },
        Block::ToolResult { tool_use_id, is_error } => {
            if tool_use_id@.len() == 0 {
                s
            } else {
                finish_v(s, tool_use_id@, is_error, ts)
            }
        },
        Block::Other => s,
    }
}

/// Effect of a record's content blocks, in order.
pub open spec fn blocks_fold(s: ScanV, blocks: Seq<Block>, ts: Option<Seq<char>>) -> ScanV
    decreases blocks.len(),
{
    if blocks.len() == 0 {
        s
    } else {
        block_step(blocks_fold(s, blocks.drop_last(), ts), blocks.last(), ts)
    }
}

/// Effect of one decoded record: turn machine first, then the record's
/// todo snapshot, then its content blocks.
pub open spec fn record_step(s: ScanV, r: Record) -> ScanV {
    let s1 = if is_turn_start_candidate(r) {
        ScanV { pending_reset: true, ..s }
    } else {
        s
    };
    let s2 = if is_turn_confirmation(r) && s1.pending_reset {
        reset_v(s1)
    } else {
        s1
    };
    let s3 = match r.todos {
        Some(items) => if items@.len() <= u32::MAX {
            ScanV { todos: todos_of(items@), ..s2 }
        } else {
            s2
        },
        None => s2,
    };
    blocks_fold(s3, r.blocks@, view_opt_string(r.timestamp))
}

/// Effect of a whole record sequence, in order, from the initial state.
pub open spec fn records_fold(records: Seq<Record>) -> ScanV
    decreases records.len(),
{
    if records.len() == 0 {
        init_v()
    } else {
        record_step(records_fold(records.drop_last()), records.last())
    }
}

// ---------------------------------------------------------------------
// Lemmas about the transition functions.
// ---------------------------------------------------------------------

proof fn lemma_remove_key_keys<T>(m: Seq<(Seq<char>, T)>, id: Seq<char>)
    ensures
        forall|j: int| 0 <= j < remove_key(m, id).len() ==> (#[trigger] remove_key(m, id)[j]).0
            != id,
        forall|j: int| 0 <= j < remove_key(m, id).len() ==> exists|i: int|
            0 <= i < m.len() && m[i] == #[trigger] remove_key(m, id)[j],
    decreases m.len(),
{
    let rm = remove_key(m, id);
    if m.len() > 0 {
        let rest = remove_key(m.drop_last(), id);
        lemma_remove_key_keys(m.drop_last(), id);
        assert forall|j: int| 0 <= j < rm.len() implies (#[trigger] rm[j]).0 != id && exists|
            i: int,
        | 0 <= i < m.len() && m[i] == rm[j] by {
            if j < rest.len() {
                assert(rm[j] == rest[j]);
                let i = choose|i: int| 0 <= i < m.drop_last().len() && m.drop_last()[i]
                    == rest[j];
                assert(m[i] == rm[j]);
            } else {
                assert(rm[j] == m.last());
                assert(m[m.len() - 1] == rm[j]);
            }
        }
    }
}

proof fn lemma_remove_key_unique<T>(m: Seq<(Seq<char>, T)>, id: Seq<char>)
    requires
        keys_unique(m),
    ensures
        keys_unique(remove_key(m, id)),
        !key_in(remove_key(m, id), id),
    decreases m.len(),
{
    lemma_remove_key_keys(m, id);
    let rm = remove_key(m, id);
    assert(!key_in(rm, id)) by {
        if key_in(rm, id) {
            let j = choose|j: int| 0 <= j < rm.len() && rm[j].0 == id;
            assert((rm[j]).0 != id);
        }
    }
    if m.len() > 0 {
        assert(keys_unique(m.drop_last()));
        lemma_remove_key_unique(m.drop_last(), id);
        lemma_remove_key_keys(m.drop_last(), id);
        let rest = remove_key(m.drop_last(), id);
        if m.last().0 != id {
            assert(rm == rest.push(m.last()));
            assert forall|i: int, j: int| 0 <= i < j < rm.len() implies rm[i].0 != rm[j].0 by {
                if j == rest.len() {
                    assert(rm[i] == rest[i]);
                    let w = choose|w: int| 0 <= w < m.drop_last().len() && m.drop_last()[w]
                        == rest[i];
                    assert(m[w] == rest[i]);
                    assert(m[w].0 != m[m.len() - 1].0);
                    assert(rm[j] == m.last());
                }
            }
        }
    }
}

/// `remove_key` on a map without the key is the map itself.
proof fn lemma_remove_key_absent<T>(m: Seq<(Seq<char>, T)>, id: Seq<char>)
    requires
        !key_in(m, id),
    ensures
        remove_key(m, id) == m,
    decreases m.len(),
{
    if m.len() > 0 {
        assert(!key_in(m.drop_last(), id)) by {
            if key_in(m.drop_last(), id) {
                let i = choose|i: int| 0 <= i < m.drop_last().len() && m.drop_last()[i].0 == id;
                assert(m[i].0 == id);
            }
        }
        lemma_remove_key_absent(m.drop_last(), id);
        assert(m[m.len() - 1].0 != id);
        assert(remove_key(m, id) =~= m);
    }
}

/// With unique keys, removing the key found at position `k` drops
/// exactly that entry.
proof fn lemma_remove_key_at<T>(m: Seq<(Seq<char>, T)>, id: Seq<char>, k: int)
    requires
        keys_unique(m),
        0 <= k < m.len(),
        m[k].0 == id,
    ensures
        remove_key(m, id) == m.subrange(0, k) + m.subrange(k + 1, m.len() as int),
    decreases m.len(),
{
    if k == m.len() - 1 {
        assert(!key_in(m.drop_last(), id)) by {
            if key_in(m.drop_last(), id) {
                let i = choose|i: int| 0 <= i < m.drop_last().len() && m.drop_last()[i].0 == id;
                assert(m[i].0 == m[k].0);
            }
        }
        lemma_remove_key_absent(m.drop_last(), id);
        assert(remove_key(m, id) =~= m.subrange(0, k) + m.subrange(k + 1, m.len() as int));
    } else {
        assert(keys_unique(m.drop_last()));
        lemma_remove_key_at(m.drop_last(), id, k);
        assert(m.last().0 != id);
        assert(remove_key(m, id) =~= m.subrange(0, k) + m.subrange(k + 1, m.len() as int)) by {
            assert(remove_key(m, id) == remove_key(m.drop_last(), id).push(m.last()));
            assert(m.drop_last().subrange(0, k) =~= m.subrange(0, k));
            assert(m.drop_last().subrange(k + 1, m.len() - 1).push(m.last()) =~= m.subrange(
                k + 1,
                m.len() as int,
            ));
        }
    }
}

proof fn lemma_remove_sname_props(m: Seq<(Seq<char>, SkillV)>, name: Seq<char>)
    ensures
        forall|j: int| 0 <= j < remove_sname(m, name).len() ==> (#[trigger] remove_sname(
            m,
            name,
        )[j]).1.name != name,
        forall|j: int| 0 <= j < remove_sname(m, name).len() ==> exists|i: int|
            0 <= i < m.len() && m[i] == #[trigger] remove_sname(m, name)[j],
    decreases m.len(),
{
    let rm = remove_sname(m, name);
    if m.len() > 0 {
        let rest = remove_sname(m.drop_last(), name);
        lemma_remove_sname_props(m.drop_last(), name);
        assert forall|j: int| 0 <= j < rm.len() implies ((#[trigger] rm[j]).1.name != name
            && exists|i: int| 0 <= i < m.len() && m[i] == rm[j]) by {
            if j < rest.len() {
                assert(rm[j] == rest[j]);
                let i = choose|i: int| 0 <= i < m.drop_last().len() && m.drop_last()[i]
                    == rest[j];
                assert(m[i] == rm[j]);
            } else {
                assert(rm[j] == m.last());
                assert(m[m.len() - 1] == rm[j]);
            }
        }
    }
}

proof fn lemma_remove_sname_unique(m: Seq<(Seq<char>, SkillV)>, name: Seq<char>)
    requires
        keys_unique(m),
        skill_names_unique(m),
    ensures
        keys_unique(remove_sname(m, name)),
        skill_names_unique(remove_sname(m, name)),
        forall|x: Seq<char>| key_in(remove_sname(m, name), x) ==> key_in(m, x),
    decreases m.len(),
{
    lemma_remove_sname_props(m, name);
    let rm = remove_sname(m, name);
    assert forall|x: Seq<char>| key_in(rm, x) implies key_in(m, x) by {
        let j = choose|j: int| 0 <= j < rm.len() && rm[j].0 == x;
        let i = choose|i: int| 0 <= i < m.len() && m[i] == rm[j];
        assert(m[i].0 == x);
    }
    if m.len() > 0 {
        assert(keys_unique(m.drop_last()));
        assert(skill_names_unique(m.drop_last()));
        lemma_remove_sname_unique(m.drop_last(), name);
        lemma_remove_sname_props(m.drop_last(), name);
        let rest = remove_sname(m.drop_last(), name);
        if m.last().1.name != name {
            assert(rm == rest.push(m.last()));
            assert forall|i: int, j: int| 0 <= i < j < rm.len() implies (rm[i].0 != rm[j].0
                && rm[i].1.name != rm[j].1.name) by {
                if j == rest.len() {
                    assert(rm[i] == rest[i]);
                    let w = choose|w: int| 0 <= w < m.drop_last().len() && m.drop_last()[w]
                        == rest[i];
                    assert(m[w] == rest[i]);
                    assert(m[w].0 != m[m.len() - 1].0);
                    assert(m[w].1.name != m[m.len() - 1].1.name);
                    assert(rm[j] == m.last());
                }
            }
        }
    }
}

/// `remove_sname` on a map without the name is the map itself.
proof fn lemma_remove_sname_absent(m: Seq<(Seq<char>, SkillV)>, name: Seq<char>)
    requires
        forall|j: int| 0 <= j < m.len() ==> m[j].1.name != name,
    ensures
        remove_sname(m, name) == m,
    decreases m.len(),
{
    if m.len() > 0 {
        assert(forall|j: int| 0 <= j < m.drop_last().len() ==> m.drop_last()[j].1.name != name);
        lemma_remove_sname_absent(m.drop_last(), name);
        assert(m[m.len() - 1].1.name != name);
        assert(remove_sname(m, name) =~= m);
    }
}

/// With unique names, removing the name found at position `k` drops
/// exactly that entry.
proof fn lemma_remove_sname_at(m: Seq<(Seq<char>, SkillV)>, name: Seq<char>, k: int)
    requires
        skill_names_unique(m),
        0 <= k < m.len(),
        m[k].1.name == name,
    ensures
        remove_sname(m, name) == m.subrange(0, k) + m.subrange(k + 1, m.len() as int),
    decreases m.len(),
{
    if k == m.len() - 1 {
        assert(forall|j: int| 0 <= j < m.drop_last().len() ==> m.drop_last()[j].1.name != name);
        lemma_remove_sname_absent(m.drop_last(), name);
        assert(remove_sname(m, name) =~= m.subrange(0, k) + m.subrange(k + 1, m.len() as int));
    } else {
        assert(skill_names_unique(m.drop_last()));
        lemma_remove_sname_at(m.drop_last(), name, k);
        assert(m.last().1.name != name);
        assert(remove_sname(m, name) =~= m.subrange(0, k) + m.subrange(k + 1, m.len() as int)) by {
            assert(remove_sname(m, name) == remove_sname(m.drop_last(), name).push(m.last()));
            assert(m.drop_last().subrange(0, k) =~= m.subrange(0, k));
            assert(m.drop_last().subrange(k + 1, m.len() - 1).push(m.last()) =~= m.subrange(
                k + 1,
                m.len() as int,
            ));
        }
    }
}

/// Removing an entry by key keeps skill names pairwise distinct.
proof fn lemma_remove_key_skill_names(m: Seq<(Seq<char>, SkillV)>, id: Seq<char>)
    requires
        keys_unique(m),
        skill_names_unique(m),
    ensures
        skill_names_unique(remove_key(m, id)),
{
    lemma_remove_key_keys(m, id);
    lemma_remove_key_unique(m, id);
    let rm = remove_key(m, id);
    assert forall|i: int, j: int| 0 <= i < j < rm.len() implies rm[i].1.name != rm[j].1.name by {
        let w1 = choose|w: int| 0 <= w < m.len() && m[w] == rm[i];
        let w2 = choose|w: int| 0 <= w < m.len() && m[w] == rm[j];
        assert(rm[i].0 != rm[j].0);
        assert(w1 != w2);
        if w1 < w2 {
            assert(m[w1].1.name != m[w2].1.name);
        } else {
            assert(m[w2].1.name != m[w1].1.name);
        }
    }
}

proof fn lemma_keep_running_unique(m: Seq<(Seq<char>, AgentV)>)
    requires
        keys_unique(m),
    ensures
        keys_unique(keep_running(m)),
    decreases m.len(),
{
    let km = keep_running(m);
    if m.len() > 0 {
        assert(keys_unique(m.drop_last()));
        lemma_keep_running_unique(m.drop_last());
        lemma_keep_running_sub(m.drop_last());
        let rest = keep_running(m.drop_last());
        if m.last().1.status is Running {
            assert(km == rest.push(m.last()));
            assert forall|i: int, j: int| 0 <= i < j < km.len() implies km[i].0 != km[j].0 by {
                if j == rest.len() {
                    assert(km[i] == rest[i]);
                    let w = choose|w: int| 0 <= w < m.drop_last().len() && m.drop_last()[w]
                        == rest[i];
                    assert(m[w] == rest[i]);
                    assert(m[w].0 != m[m.len() - 1].0);
                    assert(km[j] == m.last());
                }
            }
        }
    }
}

proof fn lemma_keep_running_sub(m: Seq<(Seq<char>, AgentV)>)
    ensures
        forall|j: int| 0 <= j < keep_running(m).len() ==> exists|i: int|
            0 <= i < m.len() && m[i] == #[trigger] keep_running(m)[j],
    decreases m.len(),
{
    let km = keep_running(m);
    if m.len() > 0 {
        let rest = keep_running(m.drop_last());
        lemma_keep_running_sub(m.drop_last());
        assert forall|j: int| 0 <= j < km.len() implies exists|i: int|
            0 <= i < m.len() && m[i] == #[trigger] km[j] by {
            if j < rest.len() {
                assert(km[j] == rest[j]);
                let i = choose|i: int| 0 <= i < m.drop_last().len() && m.drop_last()[i]
                    == rest[j];
                assert(m[i] == km[j]);
            } else {
                assert(km[j] == m.last());
                assert(m[m.len() - 1] == km[j]);
            }
        }
    }
}

/// Every entry a turn reset keeps is running, and every running entry
/// is kept; completed or errored agents, all skills, all running tools
/// and all counters are dropped.
pub proof fn lemma_reset_running(s: ScanV)
    ensures
        reset_v(s).tool_starts.len() == 0,
        reset_v(s).skill_starts.len() == 0,
        reset_v(s).completed.len() == 0,
        forall|j: int| 0 <= j < reset_v(s).agent_starts.len() ==> (#[trigger] reset_v(
            s,
        ).agent_starts[j]).1.status is Running,
        forall|i: int| 0 <= i < s.agent_starts.len() && (#[trigger] s.agent_starts[i]).1.status
            is Running ==> reset_v(s).agent_starts.contains(s.agent_starts[i]),
        reset_v(s).todos == s.todos,
{
    lemma_keep_running_members(s.agent_starts);
}

proof fn lemma_keep_running_members(m: Seq<(Seq<char>, AgentV)>)
    ensures
        forall|j: int| 0 <= j < keep_running(m).len() ==> (#[trigger] keep_running(m)[j]).1.status
            is Running,
        forall|i: int| 0 <= i < m.len() && (#[trigger] m[i]).1.status is Running ==> keep_running(
            m,
        ).contains(m[i]),
    decreases m.len(),
{
    if m.len() > 0 {
        lemma_keep_running_members(m.drop_last());
        let rest = keep_running(m.drop_last());
        assert forall|i: int| 0 <= i < m.len() && (#[trigger] m[i]).1.status
            is Running implies keep_running(m).contains(m[i]) by {
            if i < m.len() - 1 {
                assert(m.drop_last()[i] == m[i]);
                assert(rest.contains(m[i]));
                let j = choose|j: int| 0 <= j < rest.len() && rest[j] == m[i];
                assert(keep_running(m)[j] == m[i]);
            } else {
                assert(keep_running(m).last() == m[i]);
            }
        }
    }
}

proof fn lemma_bump_unique(m: Seq<(Seq<char>, u32)>, name: Seq<char>)
    requires
        keys_unique(m),
    ensures
        keys_unique(bump_count(m, name)),
{
    if key_in(m, name) {
        let b = bump_count(m, name);
        assert forall|i: int, j: int| 0 <= i < j < b.len() implies b[i].0 != b[j].0 by {
            assert(b[i].0 == m[i].0 && b[j].0 == m[j].0);
        }
    }
}

/// A single block step preserves well-formedness.
proof fn lemma_block_step_wf(s: ScanV, b: Block, ts: Option<Seq<char>>)
    requires
        s.wf(),
    ensures
        block_step(s, b, ts).wf(),
{
    match b {
        Block::ToolUse { id, name, input } => {
            lemma_remove_key_unique(s.tool_starts, id@);
            lemma_remove_key_keys(s.tool_starts, id@);
            lemma_remove_key_unique(s.agent_starts, id@);
            lemma_remove_key_keys(s.agent_starts, id@);
            match input {
                Some(inp) => {
                    let nm = name_or(inp@.skill, "skill"@);
                    lemma_remove_key_unique(s.skill_starts, id@);
                    lemma_remove_key_skill_names(s.skill_starts, id@);
                    lemma_remove_sname_unique(remove_key(s.skill_starts, id@), nm);
                    lemma_remove_sname_props(remove_key(s.skill_starts, id@), nm);
                    match inp@.todos {
                        Some(items) => {
                            crate::state::lemma_count_completed_le_len(items);
                        },
                        None => {},
                    }
                },
                None => {},
            }
        },
        Block::ToolResult { tool_use_id, is_error } => {
            lemma_finish_wf(s, tool_use_id@, is_error, ts);
        },
        Block::Other => {},
    }
}

proof fn lemma_finish_wf(s: ScanV, id: Seq<char>, is_error: bool, ts: Option<Seq<char>>)
    requires
        s.wf(),
    ensures
        finish_v(s, id, is_error, ts).wf(),
{
    let f = finish_v(s, id, is_error, ts);
    if key_in(s.agent_starts, id) {
        let u = set_agent_finished(s.agent_starts, id, finish_status(is_error), ts);
        assert forall|i: int, j: int| 0 <= i < j < u.len() implies u[i].0 != u[j].0 by {
            assert(u[i].0 == s.agent_starts[i].0 && u[j].0 == s.agent_starts[j].0);
        }
    } else if key_in(s.skill_starts, id) {
        let u = set_skill_finished(s.skill_starts, id, finish_status(is_error));
        assert forall|i: int, j: int| 0 <= i < j < u.len() implies u[i].0 != u[j].0 by {
            assert(u[i].0 == s.skill_starts[i].0 && u[j].0 == s.skill_starts[j].0);
        }
        assert forall|i: int, j: int| 0 <= i < j < u.len() implies u[i].1.name != u[j].1.name by {
            assert(u[i].1.name == s.skill_starts[i].1.name && u[j].1.name
                == s.skill_starts[j].1.name);
        }
    } else if key_in(s.tool_starts, id) {
        lemma_remove_key_unique(s.tool_starts, id);
        lemma_bump_unique(s.completed, tool_name_at(s.tool_starts, id));
    }
}

proof fn lemma_blocks_fold_wf(s: ScanV, blocks: Seq<Block>, ts: Option<Seq<char>>)
    requires
        s.wf(),
    ensures
        blocks_fold(s, blocks, ts).wf(),
    decreases blocks.len(),
{
    if blocks.len() > 0 {
        lemma_blocks_fold_wf(s, blocks.drop_last(), ts);
        lemma_block_step_wf(blocks_fold(s, blocks.drop_last(), ts), blocks.last(), ts);
    }
}

/// Every record step preserves well-formedness.
pub proof fn lemma_record_step_wf(s: ScanV, r: Record)
    requires
        s.wf(),
    ensures
        record_step(s, r).wf(),
{
    let s1 = if is_turn_start_candidate(r) {
        ScanV { pending_reset: true, ..s }
    } else {
        s
    };
    let s2 = if is_turn_confirmation(r) && s1.pending_reset {
        reset_v(s1)
    } else {
        s1
    };
    if is_turn_confirmation(r) && s1.pending_reset {
        lemma_keep_running_unique(s1.agent_starts);
    }
    let s3 = match r.todos {
        Some(items) => if items@.len() <= u32::MAX {
            ScanV { todos: todos_of(items@), ..s2 }
        } else {
            s2
        },
        None => s2,
    };
    match r.todos {
        Some(items) => {
            crate::state::lemma_count_completed_le_len(items@);
        },
        None => {},
    }
    lemma_blocks_fold_wf(s3, r.blocks@, view_opt_string(r.timestamp));
}

/// The state after any record sequence is well-formed.
pub proof fn lemma_records_fold_wf(records: Seq<Record>)
    ensures
        records_fold(records).wf(),
    decreases records.len(),
{
    if records.len() > 0 {
        lemma_records_fold_wf(records.drop_last());
        lemma_record_step_wf(records_fold(records.drop_last()), records.last());
    }
}

} // verus!

// The executable scanner and its operations.

verus! {

/// Abstract value of an id-keyed association vector.
pub open spec fn abs_map<T: View>(m: Seq<(String, T)>) -> Seq<(Seq<char>, T::V)> {
    Seq::new(m.len(), |i: int| (m[i].0@, m[i].1@))
}

/// Views of a sequence of values.
pub open spec fn vals_view<T: View>(s: Seq<T>) -> Seq<T::V> {
    Seq::new(s.len(), |i: int| s[i]@)
}

/// The values of the entries, keys dropped.
pub open spec fn seq_values<T>(m: Seq<(Seq<char>, T)>) -> Seq<T> {
    Seq::new(m.len(), |i: int| m[i].1)
}

/// The last `n` elements (all of them when fewer).
pub open spec fn last_n<T>(s: Seq<T>, n: int) -> Seq<T> {
    if s.len() <= n {
        s
    } else {
        s.subrange(s.len() - n, s.len() as int)
    }
}

/// The reducer's working state during the scan.
pub struct Scanner {
    pending_reset: bool,
    tool_starts: Vec<(String, RunningTool)>,
    agent_starts: Vec<(String, AgentEntry)>,
    skill_starts: Vec<(String, SkillEntry)>,
    completed: Vec<(String, u32)>,
    todos: TodoState,
}

impl View for Scanner {
    type V = ScanV;

    closed spec fn view(&self) -> ScanV {
        ScanV {
            pending_reset: self.pending_reset,
            tool_starts: abs_map(self.tool_starts@),
            agent_starts: abs_map(self.agent_starts@),
            skill_starts: abs_map(self.skill_starts@),
            completed: abs_map(self.completed@),
            todos: self.todos@,
        }
    }
}

/// Index of the entry keyed `id`, when one exists.
fn find_key<T>(m: &Vec<(String, T)>, id: &str) -> (r: Option<usize>)
    ensures
        match r {
            Some(k) => 0 <= k < m@.len() && m@[k as int].0@ == id@,
            None => forall|j: int| 0 <= j < m@.len() ==> m@[j].0@ != id@,
        },
{
    let n = m.len();
    let mut i: usize = 0;
    while i < n
        invariant
            n == m@.len(),
            0 <= i <= n,
            forall|j: int| 0 <= j < i ==> m@[j].0@ != id@,
        decreases n - i,
    {
        if str_eq(m[i].0.as_str(), id) {
            return Some(i);
        }
        i = i + 1;
    }
    None
}

/// Removes the entry keyed `id`, when one exists.
fn remove_entry_by_key<T: View>(m: &mut Vec<(String, T)>, id: &str)
    requires
        keys_unique(abs_map(old(m)@)),
    ensures
        abs_map(final(m)@) == remove_key(abs_map(old(m)@), id@),
{
    let ghost pre = abs_map(m@);
    match find_key(m, id) {
        Some(k) => {
            m.remove(k);
            proof {
                lemma_remove_key_at(pre, id@, k as int);
                assert(abs_map(m@) =~= pre.subrange(0, k as int) + pre.subrange(
                    k as int + 1,
                    pre.len() as int,
                ));
            }
        },
        None => {
            proof {
                assert(!key_in(pre, id@));
                lemma_remove_key_absent(pre, id@);
            }
        },
    }
}

/// Index of the skill entry named `name`, when one exists.
fn find_skill_name(m: &Vec<(String, SkillEntry)>, name: &str) -> (r: Option<usize>)
    ensures
        match r {
            Some(k) => 0 <= k < m@.len() && m@[k as int].1.name@ == name@,
            None => forall|j: int| 0 <= j < m@.len() ==> m@[j].1.name@ != name@,
        },
{
    let n = m.len();
    let mut i: usize = 0;
    while i < n
        invariant
            n == m@.len(),
            0 <= i <= n,
            forall|j: int| 0 <= j < i ==> m@[j].1.name@ != name@,
        decreases n - i,
    {
        if str_eq(m[i].1.name.as_str(), name) {
            return Some(i);
        }
        i = i + 1;
    }
    None
}

/// Removes the skill entry named `name`, when one exists.
fn remove_entry_by_name(m: &mut Vec<(String, SkillEntry)>, name: &str)
    requires
        skill_names_unique(abs_map(old(m)@)),
    ensures
        abs_map(final(m)@) == remove_sname(abs_map(old(m)@), name@),
{
    let ghost pre = abs_map(m@);
    match find_skill_name(m, name) {
        Some(k) => {
            m.remove(k);
            proof {
                lemma_remove_sname_at(pre, name@, k as int);
                assert(abs_map(m@) =~= pre.subrange(0, k as int) + pre.subrange(
                    k as int + 1,
                    pre.len() as int,
                ));
            }
        },
        None => {
            proof {
                lemma_remove_sname_absent(pre, name@);
            }
        },
    }
}

/// Raises the completion counter for `name` by one, or opens it at one.
fn bump_completed(m: &mut Vec<(String, u32)>, name: String)
    requires
        keys_unique(abs_map(old(m)@)),
    ensures
        abs_map(final(m)@) == bump_count(abs_map(old(m)@), name@),
{
    let ghost pre = abs_map(m@);
    let ghost seq0 = m@;
    match find_key(m, name.as_str()) {
        Some(k) => {
            proof {
                assert(pre[k as int].0 == name@);
                assert(key_in(pre, name@));
            }
            let (nm, c) = m.remove(k);
            let bumped: u32 = if c == u32::MAX {
                c
            } else {
                c + 1
            };
            m.insert(k, (nm, bumped));
            proof {
                assert(m@ =~= seq0.update(k as int, (nm, bumped)));
                assert(abs_map(m@) =~= bump_count(pre, name@)) by {
                    assert(m@ =~= seq0.update(k as int, (nm, bumped)));
                    assert forall|j: int| 0 <= j < pre.len() implies abs_map(m@)[j] == bump_count(
                        pre,
                        name@,
                    )[j] by {
                        if j != k {
                            assert(m@[j] == seq0[j]);
                            assert(pre[j].0 != name@);
                        } else {
                            assert(m@[j] == (nm, bumped));
                        }
                    }
                }
            }
        },
        None => {
            proof {
                assert(!key_in(pre, name@));
            }
            m.push((name, 1));
            proof {
                assert(abs_map(m@) =~= pre.push((name@, 1u32)));
            }
        },
    }
}

} // verus!

// The scanner's operations: starts, finishes, the turn reset, and the
// per-record step.

verus! {

/// Copy of an agent entry.
fn clone_agent(a: &AgentEntry) -> (r: AgentEntry)
    ensures
        r@ == a@,
{
    AgentEntry {
        agent_type: a.agent_type.clone(),
        status: a.status,
        start_time: clone_opt_string(&a.start_time),
        end_time: clone_opt_string(&a.end_time),
    }
}

impl Scanner {
    /// A scanner with nothing tracked yet.
    pub fn new() -> (s: Scanner)
        ensures
            s@ == init_v(),
    {
        let s = Scanner {
            pending_reset: false,
            tool_starts: Vec::new(),
            agent_starts: Vec::new(),
            skill_starts: Vec::new(),
            completed: Vec::new(),
            todos: TodoState { current: None, done: 0, total: 0 },
        };
        proof {
            assert(s@ =~= init_v());
        }
        s
    }

    /// Records a regular tool start: the entry keyed by the invocation
    /// id, holding the tool's name and display target.
    pub fn start_tool(&mut self, id: String, name: String, target: Option<String>)
        requires
            old(self)@.wf(),
        ensures
            final(self)@ == (ScanV {
                tool_starts: remove_key(old(self)@.tool_starts, id@).push(
                    (id@, ToolV { name: name@, target: view_opt_string(target) }),
                ),
                ..old(self)@
            }),
    {
        let ghost pre = self@;
        remove_entry_by_key(&mut self.tool_starts, id.as_str());
        self.tool_starts.push((id, RunningTool { name, target }));
        proof {
            assert(abs_map(self.tool_starts@) =~= remove_key(pre.tool_starts, id@).push(
                (id@, ToolV { name: name@, target: view_opt_string(target) }),
            ));
            assert(self@ =~= (ScanV {
                tool_starts: remove_key(pre.tool_starts, id@).push(
                    (id@, ToolV { name: name@, target: view_opt_string(target) }),
                ),
                ..pre
            }));
        }
    }

    /// Records a sub-agent start, keyed by the invocation id.
    pub fn start_agent(&mut self, id: String, agent_type: String, start_time: Option<String>)
        requires
            old(self)@.wf(),
        ensures
            final(self)@ == (ScanV {
                agent_starts: remove_key(old(self)@.agent_starts, id@).push(
                    (
                        id@,
                        AgentV {
                            agent_type: agent_type@,
                            status: Status::Running,
                            start_time: view_opt_string(start_time),
                            end_time: None,
                        },
                    ),
                ),
                ..old(self)@
            }),
    {
        let ghost pre = self@;
        remove_entry_by_key(&mut self.agent_starts, id.as_str());
        self.agent_starts.push(
            (
                id,
                AgentEntry {
                    agent_type,
                    status: Status::Running,
                    start_time,
                    end_time: None,
                },
            ),
        );
        proof {
            assert(self@ =~= (ScanV {
                agent_starts: remove_key(pre.agent_starts, id@).push(
                    (
                        id@,
                        AgentV {
                            agent_type: agent_type@,
                            status: Status::Running,
                            start_time: view_opt_string(start_time),
                            end_time: None,
                        },
                    ),
                ),
                ..pre
            }));
        }
    }

    /// Records a skill start. Any earlier entry for the same skill name
    /// is dropped first, so at most one entry per name is ever tracked.
    pub fn start_skill(&mut self, id: String, name: String)
        requires
            old(self)@.wf(),
        ensures
            final(self)@ == (ScanV {
                skill_starts: remove_skill(old(self)@.skill_starts, id@, name@).push(
                    (id@, SkillV { name: name@, status: Status::Running }),
                ),
                ..old(self)@
            }),
            skill_names_unique(final(self)@.skill_starts),
    {
        let ghost pre = self@;
        remove_entry_by_key(&mut self.skill_starts, id.as_str());
        proof {
            lemma_remove_key_unique(pre.skill_starts, id@);
            lemma_remove_key_skill_names(pre.skill_starts, id@);
        }
        remove_entry_by_name(&mut self.skill_starts, name.as_str());
        proof {
            lemma_remove_sname_unique(remove_key(pre.skill_starts, id@), name@);
            lemma_remove_sname_props(remove_key(pre.skill_starts, id@), name@);
        }
        self.skill_starts.push((id, SkillEntry { name, status: Status::Running }));
        proof {
            assert(abs_map(self.skill_starts@) =~= remove_skill(pre.skill_starts, id@, name@).push(
                (id@, SkillV { name: name@, status: Status::Running }),
            ));
            assert(self@ =~= (ScanV {
                skill_starts: remove_skill(pre.skill_starts, id@, name@).push(
                    (id@, SkillV { name: name@, status: Status::Running }),
                ),
                ..pre
            }));
        }
    }

    /// Applies a finish event for the given invocation id: an agent or
    /// skill entry moves to its final status; a running tool moves out
    /// of the running map and bumps its name's completion counter; an
    /// id never seen in a start changes nothing.
    pub fn finish(&mut self, id: &str, is_error: bool, ts: &Option<String>)
        requires
            old(self)@.wf(),
        ensures
            final(self)@ == finish_v(old(self)@, id@, is_error, view_opt_string(*ts)),
            !key_in(old(self)@.agent_starts, id@) && !key_in(old(self)@.skill_starts, id@)
                && !key_in(old(self)@.tool_starts, id@) ==> final(self)@ == old(self)@,
    {
        let ghost pre = self@;
        match find_key(&self.agent_starts, id) {
            Some(k) => {
                proof {
                    assert(pre.agent_starts[k as int].0 == id@);
                    assert(key_in(pre.agent_starts, id@));
                }
                let ghost seq0 = self.agent_starts@;
                let (aid, mut a) = self.agent_starts.remove(k);
                a.status = if is_error {
                    Status::Error
                } else {
                    Status::Completed
                };
                a.end_time = clone_opt_string(ts);
                let ghost av = a@;
                self.agent_starts.insert(k, (aid, a));
                proof {
                    assert(self.agent_starts@ =~= seq0.update(k as int, (aid, a)));
                    assert(abs_map(self.agent_starts@) =~= set_agent_finished(
                        pre.agent_starts,
                        id@,
                        finish_status(is_error),
                        view_opt_string(*ts),
                    )) by {
                        assert(self.agent_starts@ =~= seq0.update(k as int, (aid, a)));
                        assert forall|j: int|
                            0 <= j < pre.agent_starts.len() implies abs_map(self.agent_starts@)[j]
                            == set_agent_finished(
                            pre.agent_starts,
                            id@,
                            finish_status(is_error),
                            view_opt_string(*ts),
                        )[j] by {
                            if j != k {
                                assert(self.agent_starts@[j] == seq0[j]);
                                assert(pre.agent_starts[j].0 != id@);
                            } else {
                                assert(self.agent_starts@[j] == (aid, a));
                                assert(av == a@);
                            }
                        }
                    }
                    assert(self@ =~= finish_v(pre, id@, is_error, view_opt_string(*ts)));
                }
                return ;
            },
            None => {
                proof {
                    assert(!key_in(pre.agent_starts, id@));
                }
            },
        }
        match find_key(&self.skill_starts, id) {
            Some(k) => {
                proof {
                    assert(pre.skill_starts[k as int].0 == id@);
                    assert(key_in(pre.skill_starts, id@));
                }
                let ghost seq0 = self.skill_starts@;
                let (sid, mut sk) = self.skill_starts.remove(k);
                sk.status = if is_error {
                    Status::Error
                } else {
                    Status::Completed
                };
                self.skill_starts.insert(k, (sid, sk));
                proof {
                    assert(self.skill_starts@ =~= seq0.update(k as int, (sid, sk)));
                    assert(abs_map(self.skill_starts@) =~= set_skill_finished(
                        pre.skill_starts,
                        id@,
                        finish_status(is_error),
                    )) by {
                        assert(self.skill_starts@ =~= seq0.update(k as int, (sid, sk)));
                        assert forall|j: int|
                            0 <= j < pre.skill_starts.len() implies abs_map(self.skill_starts@)[j]
                            == set_skill_finished(
                            pre.skill_starts,
                            id@,
                            finish_status(is_error),
                        )[j] by {
                            if j != k {
                                assert(self.skill_starts@[j] == seq0[j]);
                                assert(pre.skill_starts[j].0 != id@);
                            } else {
                                assert(self.skill_starts@[j] == (sid, sk));
                            }
                        }
                    }
                    assert(self@ =~= finish_v(pre, id@, is_error, view_opt_string(*ts)));
                }
                return ;
            },
            None => {
                proof {
                    assert(!key_in(pre.skill_starts, id@));
                }
            },
        }
        match find_key(&self.tool_starts, id) {
            Some(k) => {
                proof {
                    assert(pre.tool_starts[k as int].0 == id@);
                    assert(key_in(pre.tool_starts, id@));
                }
                let ghost seq0 = abs_map(self.tool_starts@);
                let (_tid, tool) = self.tool_starts.remove(k);
                proof {
                    lemma_remove_key_at(seq0, id@, k as int);
                    assert(abs_map(self.tool_starts@) =~= seq0.subrange(0, k as int)
                        + seq0.subrange(k as int + 1, seq0.len() as int));
                    assert(tool.name@ == tool_name_at(pre.tool_starts, id@)) by {
                        let w = choose|w: int|
                            0 <= w < pre.tool_starts.len() && pre.tool_starts[w].0 == id@;
                        assert(pre.tool_starts[w].0 == pre.tool_starts[k as int].0);
                        if w != k {
                            assert(false);
                        }
                    }
                }
                bump_completed(&mut self.completed, tool.name);
                proof {
                    assert(self@ =~= finish_v(pre, id@, is_error, view_opt_string(*ts)));
                }
            },
            None => {
                proof {
                    assert(!key_in(pre.tool_starts, id@));
                    assert(self@ =~= finish_v(pre, id@, is_error, view_opt_string(*ts)));
                }
            },
        }
    }

    /// Performs the turn reset: running tools, skills and completed
    /// counters are discarded; agents still running are kept; the todo
    /// snapshot survives.
    pub fn reset(&mut self)
        requires
            old(self)@.wf(),
        ensures
            final(self)@ == reset_v(old(self)@),
    {
        let ghost pre = self@;
        self.pending_reset = false;
        self.tool_starts.clear();
        self.skill_starts.clear();
        self.completed.clear();
        let n = self.agent_starts.len();
        let mut kept: Vec<(String, AgentEntry)> = Vec::new();
        let mut i: usize = 0;
        while i < n
            invariant
                n == self.agent_starts@.len(),
                0 <= i <= n,
                abs_map(self.agent_starts@) == pre.agent_starts,
                abs_map(kept@) == keep_running(pre.agent_starts.take(i as int)),
            decreases n - i,
        {
            proof {
                assert(pre.agent_starts.take(i + 1).drop_last() =~= pre.agent_starts.take(
                    i as int,
                ));
                assert(pre.agent_starts.take(i + 1).last() == pre.agent_starts[i as int]);
            }
            let p = &self.agent_starts[i];
            if let Status::Running = p.1.status {
                let e = (p.0.clone(), clone_agent(&p.1));
                kept.push(e);
                proof {
                    assert(abs_map(kept@) =~= keep_running(pre.agent_starts.take(i + 1)));
                }
            }
            i = i + 1;
        }
        self.agent_starts = kept;
        proof {
            assert(pre.agent_starts.take(n as int) =~= pre.agent_starts);
            assert(self@ =~= reset_v(pre));
        }
    }
}

} // verus!

// The per-record step, the recency limiter, and the whole-log reducer.

verus! {

impl Scanner {
    /// Applies one decoded record: advances the turn machine (running
    /// the reset when an assistant record confirms a pending turn
    /// start), takes any todo snapshot, then applies the content
    /// blocks in order.
    pub fn apply_record(&mut self, r: &Record)
        requires
            old(self)@.wf(),
        ensures
            final(self)@ == record_step(old(self)@, *r),
            final(self)@.wf(),
    {
        let ghost s0 = self@;
        if check_turn_start_candidate(r) {
            self.pending_reset = true;
        }
        let ghost s1 = self@;
        proof {
            assert(s1 =~= (if is_turn_start_candidate(*r) {
                ScanV { pending_reset: true, ..s0 }
            } else {
                s0
            }));
            assert(s1.wf());
        }
        if check_turn_confirmation(r) && self.pending_reset {
            self.reset();
            proof {
                lemma_keep_running_unique(s1.agent_starts);
            }
        }
        let ghost s2 = self@;
        proof {
            assert(s2 =~= (if is_turn_confirmation(*r) && s1.pending_reset {
                reset_v(s1)
            } else {
                s1
            }));
            assert(s2.wf());
        }
        match &r.todos {
            Some(items) => {
                if items.len() <= u32::MAX as usize {
                    update_todos(&mut self.todos, items);
                    proof {
                        crate::state::lemma_count_completed_le_len(items@);
                        assert(self@.todos == todos_of(items@));
                    }
                }
            },
            None => {},
        }
        let ghost s3 = self@;
        proof {
            assert(s3 =~= (match r.todos {
                Some(items) => if items@.len() <= u32::MAX {
                    ScanV { todos: todos_of(items@), ..s2 }
                } else {
                    s2
                },
                None => s2,
            }));
            assert(s3.wf());
        }
        let ghost ts = view_opt_string(r.timestamp);
        let n = r.blocks.len();
        let mut i: usize = 0;
        while i < n
            invariant
                n == r.blocks@.len(),
                0 <= i <= n,
                s3.wf(),
                ts == view_opt_string(r.timestamp),
                self@ == blocks_fold(s3, r.blocks@.take(i as int), ts),
                self@.wf(),
            decreases n - i,
        {
            let ghost prev = self@;
            proof {
                assert(r.blocks@.take(i + 1).drop_last() =~= r.blocks@.take(i as int));
                assert(r.blocks@.take(i + 1).last() == r.blocks@[i as int]);
            }
            let ghost blk = r.blocks@[i as int];
            match &r.blocks[i] {
                Block::ToolUse { id, name, input } => {
                    proof {
                        assert(blk == (Block::ToolUse {
                            id: (*id),
                            name: (*name),
                            input: (*input),
                        }));
                    }
                    if id.as_str().is_empty() || name.as_str().is_empty() {
                        proof {
                            assert(self@ =~= block_step(prev, blk, ts));
                        }
                    } else if str_eq(name.as_str(), "TodoWrite") {
                        match input {
                            Some(inp) => match &inp.todos {
                                Some(items) => {
                                    if items.len() <= u32::MAX as usize {
                                        update_todos(&mut self.todos, items);
                                        proof {
                                            crate::state::lemma_count_completed_le_len(items@);
                                            assert(self@.todos == todos_of(items@));
                                            assert(self@ =~= (ScanV { todos: todos_of(items@), ..prev }));
                                        }
                                    }
                                },
                                None => {},
                            },
                            None => {},
                        }
                    } else if str_eq(name.as_str(), "Task") {
                        match input {
                            Some(inp) => {
                                let at = match &inp.subagent_type {
                                    Some(s) => s.clone(),
                                    None => "agent".to_owned(),
                                };
                                let tsc = clone_opt_string(&r.timestamp);
                                proof {
                                    assert(at@ == name_or(inp@.subagent_type, "agent"@));
                                    assert(view_opt_string(tsc) == ts);
                                }
                                self.start_agent(id.clone(), at, tsc);
                                proof {
                                    assert(self@ =~= block_step(prev, blk, ts));
                                }
                            },
                            None => {},
                        }
                    } else if str_eq(name.as_str(), "Skill") {
                        match input {
                            Some(inp) => {
                                let nm = match &inp.skill {
                                    Some(s) => s.clone(),
                                    None => "skill".to_owned(),
                                };
                                proof {
                                    assert(nm@ == name_or(inp@.skill, "skill"@));
                                }
                                self.start_skill(id.clone(), nm);
                                proof {
                                    assert(self@ =~= block_step(prev, blk, ts));
                                }
                            },
                            None => {},
                        }
                    } else {
                        let target = extract_target(
                            name.as_str(),
                            match input {
                                Some(inp) => Some(inp),
                                None => None,
                            },
                        );
                        self.start_tool(id.clone(), name.clone(), target);
                        proof {
                            assert(self@ =~= block_step(prev, blk, ts));
                        }
                    }
                },
                Block::ToolResult { tool_use_id, is_error } => {
                    proof {
                        assert(blk == (Block::ToolResult {
                            tool_use_id: (*tool_use_id),
                            is_error: (*is_error),
                        }));
                    }
                    if !tool_use_id.as_str().is_empty() {
                        self.finish(tool_use_id.as_str(), *is_error, &r.timestamp);
                    }
                    proof {
                        assert(self@ =~= block_step(prev, blk, ts));
                    }
                },
                Block::Other => {},
            }
            proof {
                assert(self@ =~= block_step(prev, r.blocks@[i as int], ts));
                lemma_block_step_wf(prev, r.blocks@[i as int], ts);
            }
            i = i + 1;
        }
        proof {
            assert(r.blocks@.take(n as int) =~= r.blocks@);
        }
    }
}

/// Abstract value of `ToolState`.
#[verifier::ext_equal]
pub struct ToolStateV {
    pub running: Seq<ToolV>,
    pub completed: Seq<(Seq<char>, u32)>,
}

impl View for ToolState {
    type V = ToolStateV;

    open spec fn view(&self) -> ToolStateV {
        ToolStateV { running: vals_view(self.running@), completed: abs_map(self.completed@) }
    }
}

/// Abstract value of `TranscriptState`.
#[verifier::ext_equal]
pub struct TranscriptV {
    pub tools: ToolStateV,
    pub agents: Seq<AgentV>,
    pub skills: Seq<SkillV>,
    pub todos: TodoV,
}

impl View for TranscriptState {
    type V = TranscriptV;

    open spec fn view(&self) -> TranscriptV {
        TranscriptV {
            tools: self.tools@,
            agents: vals_view(self.agents@),
            skills: vals_view(self.skills@),
            todos: self.todos@,
        }
    }
}

/// The final state a scan yields: each tracker trimmed to its display
/// budget (10 running tools, 5 agents, 3 skills), keys dropped;
/// counters and the todo snapshot pass through untrimmed.
pub open spec fn finalize_v(s: ScanV) -> TranscriptV {
    TranscriptV {
        tools: ToolStateV {
            running: seq_values(last_n(s.tool_starts, 10)),
            completed: s.completed,
        },
        agents: seq_values(last_n(s.agent_starts, 5)),
        skills: seq_values(last_n(s.skill_starts, 3)),
        todos: s.todos,
    }
}

/// Keeps the most recently inserted `cap` entries and hands back their
/// values in order.
fn limit_values<T: View>(m: Vec<(String, T)>, cap: usize) -> (r: Vec<T>)
    requires
        cap >= 1,
    ensures
        vals_view(r@) == seq_values(last_n(abs_map(m@), cap as int)),
        r@.len() <= cap,
{
    let ghost orig = abs_map(m@);
    let mut m = m;
    while m.len() > cap
        invariant
            last_n(abs_map(m@), cap as int) == last_n(orig, cap as int),
        decreases m@.len(),
    {
        let ghost before = abs_map(m@);
        m.remove(0);
        proof {
            assert(abs_map(m@) =~= before.subrange(1, before.len() as int));
            assert(last_n(abs_map(m@), cap as int) =~= last_n(before, cap as int));
        }
    }
    proof {
        assert(last_n(abs_map(m@), cap as int) == abs_map(m@));
    }
    let ghost lim = abs_map(m@);
    let mut out: Vec<T> = Vec::new();
    while m.len() > 0
        invariant
            vals_view(out@).len() + abs_map(m@).len() == lim.len(),
            vals_view(out@) == seq_values(lim).take(out@.len() as int),
            abs_map(m@) == lim.subrange(out@.len() as int, lim.len() as int),
        decreases m@.len(),
    {
        let ghost k = out@.len() as int;
        let ghost mb = m@;
        let (_, v) = m.remove(0);
        out.push(v);
        proof {
            assert(abs_map(mb)[0] == lim.subrange(k, lim.len() as int)[0]);
            assert(abs_map(mb)[0] == lim[k]);
            assert(v@ == lim[k].1);
            assert(vals_view(out@) =~= seq_values(lim).take(k + 1)) by {
                assert(out@.len() == k + 1);
                assert forall|j: int| 0 <= j < k + 1 implies vals_view(out@)[j] == seq_values(
                    lim,
                ).take(k + 1)[j] by {
                    if j < k {
                        assert(out@[j]@ == seq_values(lim).take(k)[j]);
                    } else {
                        assert(out@[j] == v);
                    }
                }
            }
            assert(abs_map(m@) =~= lim.subrange(k + 1, lim.len() as int)) by {
                assert(m@ =~= mb.subrange(1, mb.len() as int));
                assert forall|j: int| 0 <= j < m@.len() implies abs_map(m@)[j] == lim.subrange(
                    k + 1,
                    lim.len() as int,
                )[j] by {
                    assert(m@[j] == mb[j + 1]);
                    assert(abs_map(mb)[j + 1] == lim.subrange(k, lim.len() as int)[j + 1]);
                }
            }
        }
    }
    proof {
        assert(vals_view(out@) =~= seq_values(lim));
        assert(vals_view(out@) =~= seq_values(last_n(orig, cap as int)));
    }
    out
}

impl Scanner {
    /// Closes the scan: trims each tracker to its display budget and
    /// hands out the final state.
    pub fn into_state(self) -> (r: TranscriptState)
        ensures
            r@ == finalize_v(self@),
            r.tools.running@.len() <= 10,
            r.agents@.len() <= 5,
            r.skills@.len() <= 3,
            r.todos@ == self@.todos,
    {
        let ghost sv = self@;
        let Scanner { pending_reset: _, tool_starts, agent_starts, skill_starts, completed, todos }
            = self;
        let running = limit_values(tool_starts, 10);
        let agents = limit_values(agent_starts, 5);
        let skills = limit_values(skill_starts, 3);
        let r = TranscriptState {
            tools: ToolState { running, completed },
            agents,
            skills,
            todos,
        };
        proof {
            assert(r@ =~= finalize_v(sv));
        }
        r
    }
}

/// Reduces a sequence of decoded records to the final state: every
/// record applied in order from the empty state, then the recency
/// limits. The todo snapshot always satisfies `done <= total`, and no
/// collection exceeds its display budget.
pub fn reduce_records(records: &Vec<Record>) -> (r: TranscriptState)
    ensures
        r@ == finalize_v(records_fold(records@)),
        r.todos.done <= r.todos.total,
        r.tools.running@.len() <= 10,
        r.agents@.len() <= 5,
        r.skills@.len() <= 3,
{
    let mut sc = Scanner::new();
    let n = records.len();
    let mut i: usize = 0;
    while i < n
        invariant
            n == records@.len(),
            0 <= i <= n,
            sc@ == records_fold(records@.take(i as int)),
            sc@.wf(),
        decreases n - i,
    {
        proof {
            assert(records@.take(i + 1).drop_last() =~= records@.take(i as int));
            assert(records@.take(i + 1).last() == records@[i as int]);
        }
        sc.apply_record(&records[i]);
        i = i + 1;
    }
    proof {
        assert(records@.take(n as int) =~= records@);
    }
    let ghost fin = sc@;
    let r = sc.into_state();
    proof {
        assert(r.todos@ == fin.todos);
    }
    r
}

} // verus!

// The unmatched-finish guarantee at whole-log level: a result block
// whose id no start event ever carried can be spliced into a log
// without changing the scan's outcome.

verus! {

/// Whether the block is a start event carrying this invocation id.
pub open spec fn block_starts_id(b: Block, id: Seq<char>) -> bool {
    match b {
        Block::ToolUse { id: bid, .. } => bid@ == id,
        _ => false,
    }
}

/// Whether some block of the record is a start event with this id.
pub open spec fn record_starts_id(r: Record, id: Seq<char>) -> bool {
    exists|i: int| 0 <= i < r.blocks@.len() && block_starts_id(#[trigger] r.blocks@[i], id)
}

/// Whether some record of the log starts this id.
pub open spec fn log_starts_id(records: Seq<Record>, id: Seq<char>) -> bool {
    exists|i: int| 0 <= i < records.len() && record_starts_id(#[trigger] records[i], id)
}

/// Whether the block is a finish event carrying this id.
pub open spec fn block_finishes_id(b: Block, id: Seq<char>) -> bool {
    match b {
        Block::ToolResult { tool_use_id, .. } => tool_use_id@ == id,
        _ => false,
    }
}

/// Whether no tracker holds an entry keyed by this id.
pub open spec fn id_untracked(s: ScanV, id: Seq<char>) -> bool {
    &&& !key_in(s.tool_starts, id)
    &&& !key_in(s.agent_starts, id)
    &&& !key_in(s.skill_starts, id)
}

/// Whether two records agree on everything but their content blocks.
pub open spec fn same_but_blocks(a: Record, b: Record) -> bool {
    &&& a.rec_type == b.rec_type
    &&& a.timestamp == b.timestamp
    &&& a.has_agent_id == b.has_agent_id
    &&& a.is_meta == b.is_meta
    &&& a.has_source_tool_use_id == b.has_source_tool_use_id
    &&& a.content_text == b.content_text
    &&& a.todos == b.todos
}

proof fn lemma_remove_key_no_new<T>(m: Seq<(Seq<char>, T)>, id: Seq<char>, x: Seq<char>)
    requires
        !key_in(m, x),
    ensures
        !key_in(remove_key(m, id), x),
{
    lemma_remove_key_keys(m, id);
    if key_in(remove_key(m, id), x) {
        let j = choose|j: int| 0 <= j < remove_key(m, id).len() && remove_key(m, id)[j].0 == x;
        let i = choose|i: int| 0 <= i < m.len() && m[i] == remove_key(m, id)[j];
        assert(m[i].0 == x);
    }
}

proof fn lemma_remove_sname_no_new(m: Seq<(Seq<char>, SkillV)>, name: Seq<char>, x: Seq<char>)
    requires
        !key_in(m, x),
    ensures
        !key_in(remove_sname(m, name), x),
{
    lemma_remove_sname_props(m, name);
    if key_in(remove_sname(m, name), x) {
        let j = choose|j: int|
            0 <= j < remove_sname(m, name).len() && remove_sname(m, name)[j].0 == x;
        let i = choose|i: int| 0 <= i < m.len() && m[i] == remove_sname(m, name)[j];
        assert(m[i].0 == x);
    }
}

proof fn lemma_keep_running_no_new(m: Seq<(Seq<char>, AgentV)>, x: Seq<char>)
    requires
        !key_in(m, x),
    ensures
        !key_in(keep_running(m), x),
{
    lemma_keep_running_sub(m);
    if key_in(keep_running(m), x) {
        let j = choose|j: int| 0 <= j < keep_running(m).len() && keep_running(m)[j].0 == x;
        let i = choose|i: int| 0 <= i < m.len() && m[i] == keep_running(m)[j];
        assert(m[i].0 == x);
    }
}

proof fn lemma_push_keeps_untracked<T>(m: Seq<(Seq<char>, T)>, p: (Seq<char>, T), x: Seq<char>)
    requires
        !key_in(m, x),
        p.0 != x,
    ensures
        !key_in(m.push(p), x),
{
    if key_in(m.push(p), x) {
        let j = choose|j: int| 0 <= j < m.push(p).len() && m.push(p)[j].0 == x;
        if j < m.len() {
            assert(m[j].0 == x);
        } else {
            assert(m.push(p)[j] == p);
        }
    }
}

proof fn lemma_block_step_untracked(s: ScanV, b: Block, ts: Option<Seq<char>>, id: Seq<char>)
    requires
        id_untracked(s, id),
        !block_starts_id(b, id),
    ensures
        id_untracked(block_step(s, b, ts), id),
{
    let r = block_step(s, b, ts);
    match b {
        Block::ToolUse { id: bid, name, input } => {
            if bid@.len() == 0 || name@.len() == 0 {
            } else {
                assert(bid@ != id);
                if name@ == "TodoWrite"@ {
                } else if name@ == "Task"@ {
                    match input {
                        Some(inp) => {
                            let rm = remove_key(s.agent_starts, bid@);
                            lemma_remove_key_no_new(s.agent_starts, bid@, id);
                            assert(r.agent_starts == rm.push(r.agent_starts.last()));
                            assert(r.agent_starts.last().0 == bid@);
                            lemma_push_keeps_untracked(rm, r.agent_starts.last(), id);
                        },
                        None => {},
                    }
                } else if name@ == "Skill"@ {
                    match input {
                        Some(inp) => {
                            let nm = name_or(inp@.skill, "skill"@);
                            let rm = remove_sname(remove_key(s.skill_starts, bid@), nm);
                            lemma_remove_key_no_new(s.skill_starts, bid@, id);
                            lemma_remove_sname_no_new(remove_key(s.skill_starts, bid@), nm, id);
                            assert(r.skill_starts == rm.push(r.skill_starts.last()));
                            assert(r.skill_starts.last().0 == bid@);
                            lemma_push_keeps_untracked(rm, r.skill_starts.last(), id);
                        },
                        None => {},
                    }
                } else {
                    let rm = remove_key(s.tool_starts, bid@);
                    lemma_remove_key_no_new(s.tool_starts, bid@, id);
                    assert(r.tool_starts == rm.push(r.tool_starts.last()));
                    assert(r.tool_starts.last().0 == bid@);
                    lemma_push_keeps_untracked(rm, r.tool_starts.last(), id);
                }
            }
        },
        Block::ToolResult { tool_use_id, is_error } => {
            let tid = tool_use_id@;
            if tid.len() == 0 {
            } else if key_in(s.agent_starts, tid) {
                let u = set_agent_finished(s.agent_starts, tid, finish_status(is_error), ts);
                assert(!key_in(u, id)) by {
                    if key_in(u, id) {
                        let j = choose|j: int| 0 <= j < u.len() && u[j].0 == id;
                        assert(s.agent_starts[j].0 == id);
                    }
                }
            } else if key_in(s.skill_starts, tid) {
                let u = set_skill_finished(s.skill_starts, tid, finish_status(is_error));
                assert(!key_in(u, id)) by {
                    if key_in(u, id) {
                        let j = choose|j: int| 0 <= j < u.len() && u[j].0 == id;
                        assert(s.skill_starts[j].0 == id);
                    }
                }
            } else if key_in(s.tool_starts, tid) {
                lemma_remove_key_no_new(s.tool_starts, tid, id);
            } else {
            }
        },
        Block::Other => {},
    }
}

proof fn lemma_blocks_fold_untracked(
    s: ScanV,
    blocks: Seq<Block>,
    ts: Option<Seq<char>>,
    id: Seq<char>,
)
    requires
        id_untracked(s, id),
        forall|i: int| 0 <= i < blocks.len() ==> !block_starts_id(#[trigger] blocks[i], id),
    ensures
        id_untracked(blocks_fold(s, blocks, ts), id),
    decreases blocks.len(),
{
    if blocks.len() > 0 {
        assert(forall|i: int|
            0 <= i < blocks.drop_last().len() ==> !block_starts_id(
                #[trigger] blocks.drop_last()[i],
                id,
            ));
        lemma_blocks_fold_untracked(s, blocks.drop_last(), ts, id);
        lemma_block_step_untracked(blocks_fold(s, blocks.drop_last(), ts), blocks.last(), ts, id);
    }
}

proof fn lemma_record_step_untracked(s: ScanV, r: Record, id: Seq<char>)
    requires
        id_untracked(s, id),
        !record_starts_id(r, id),
    ensures
        id_untracked(record_step(s, r), id),
{
    let s1 = if is_turn_start_candidate(r) {
        ScanV { pending_reset: true, ..s }
    } else {
        s
    };
    let s2 = if is_turn_confirmation(r) && s1.pending_reset {
        reset_v(s1)
    } else {
        s1
    };
    if is_turn_confirmation(r) && s1.pending_reset {
        lemma_keep_running_no_new(s1.agent_starts, id);
    }
    let s3 = match r.todos {
        Some(items) => if items@.len() <= u32::MAX {
            ScanV { todos: todos_of(items@), ..s2 }
        } else {
            s2
        },
        None => s2,
    };
    assert(forall|i: int|
        0 <= i < r.blocks@.len() ==> !block_starts_id(#[trigger] r.blocks@[i], id));
    lemma_blocks_fold_untracked(s3, r.blocks@, view_opt_string(r.timestamp), id);
}

/// An id that no start event of the log carries is tracked by nothing
/// after the whole scan.
pub proof fn lemma_fold_untracked(records: Seq<Record>, id: Seq<char>)
    requires
        !log_starts_id(records, id),
    ensures
        id_untracked(records_fold(records), id),
    decreases records.len(),
{
    if records.len() > 0 {
        assert(!log_starts_id(records.drop_last(), id)) by {
            if log_starts_id(records.drop_last(), id) {
                let i = choose|i: int|
                    0 <= i < records.drop_last().len() && record_starts_id(
                        records.drop_last()[i],
                        id,
                    );
                assert(record_starts_id(records[i], id));
            }
        }
        lemma_fold_untracked(records.drop_last(), id);
        assert(!record_starts_id(records.last(), id)) by {
            if record_starts_id(records.last(), id) {
                assert(record_starts_id(records[records.len() - 1], id));
            }
        }
        lemma_record_step_untracked(records_fold(records.drop_last()), records.last(), id);
    }
}

proof fn lemma_result_block_noop(s: ScanV, b: Block, ts: Option<Seq<char>>, id: Seq<char>)
    requires
        id_untracked(s, id),
        block_finishes_id(b, id),
    ensures
        block_step(s, b, ts) == s,
{
    match b {
        Block::ToolResult { tool_use_id, is_error } => {
            if tool_use_id@.len() > 0 {
                assert(finish_v(s, tool_use_id@, is_error, ts) == s);
            }
        },
        _ => {
            assert(false);
        },
    }
}

proof fn lemma_blocks_insert_noop(
    s: ScanV,
    blocks: Seq<Block>,
    ts: Option<Seq<char>>,
    p: int,
    b: Block,
    id: Seq<char>,
)
    requires
        0 <= p <= blocks.len(),
        id_untracked(s, id),
        block_finishes_id(b, id),
        forall|i: int| 0 <= i < blocks.len() ==> !block_starts_id(#[trigger] blocks[i], id),
    ensures
        blocks_fold(s, blocks.insert(p, b), ts) == blocks_fold(s, blocks, ts),
    decreases blocks.len(),
{
    let ins = blocks.insert(p, b);
    if p == blocks.len() {
        assert(ins.drop_last() =~= blocks);
        assert(ins.last() == b);
        lemma_blocks_fold_untracked(s, blocks, ts, id);
        lemma_result_block_noop(blocks_fold(s, blocks, ts), b, ts, id);
        assert(blocks_fold(s, ins, ts) == block_step(blocks_fold(s, blocks, ts), b, ts));
    } else {
        assert(ins.drop_last() =~= blocks.drop_last().insert(p, b));
        assert(ins.last() == blocks.last());
        assert(forall|i: int|
            0 <= i < blocks.drop_last().len() ==> !block_starts_id(
                #[trigger] blocks.drop_last()[i],
                id,
            ));
        lemma_blocks_insert_noop(s, blocks.drop_last(), ts, p, b, id);
        assert(blocks_fold(s, ins, ts) == block_step(
            blocks_fold(s, blocks.drop_last(), ts),
            blocks.last(),
            ts,
        ));
    }
}

proof fn lemma_record_insert_noop(
    s: ScanV,
    r: Record,
    r2: Record,
    p: int,
    b: Block,
    id: Seq<char>,
)
    requires
        same_but_blocks(r, r2),
        0 <= p <= r.blocks@.len(),
        r2.blocks@ == r.blocks@.insert(p, b),
        block_finishes_id(b, id),
        !record_starts_id(r, id),
        !is_turn_start_candidate(r),
        id_untracked(s, id),
    ensures
        record_step(s, r2) == record_step(s, r),
{
    assert(r2.blocks@[p] == b) by {
        assert(r.blocks@.subrange(0, p).push(b)[p] == b);
    }
    assert(crate::classify::has_tool_result_block(r2.blocks@)) by {
        assert(r2.blocks@[p] is ToolResult);
    }
    assert(!is_turn_start_candidate(r2));
    assert(is_turn_confirmation(r2) == is_turn_confirmation(r));
    let s2 = if is_turn_confirmation(r) && s.pending_reset {
        reset_v(s)
    } else {
        s
    };
    if is_turn_confirmation(r) && s.pending_reset {
        lemma_keep_running_no_new(s.agent_starts, id);
    }
    let s3 = match r.todos {
        Some(items) => if items@.len() <= u32::MAX {
            ScanV { todos: todos_of(items@), ..s2 }
        } else {
            s2
        },
        None => s2,
    };
    assert(id_untracked(s3, id));
    assert(forall|i: int|
        0 <= i < r.blocks@.len() ==> !block_starts_id(#[trigger] r.blocks@[i], id));
    lemma_blocks_insert_noop(s3, r.blocks@, view_opt_string(r.timestamp), p, b, id);
    assert(view_opt_string(r2.timestamp) == view_opt_string(r.timestamp));
    assert(record_step(s, r2) == blocks_fold(s3, r2.blocks@, view_opt_string(r.timestamp)));
    assert(record_step(s, r) == blocks_fold(s3, r.blocks@, view_opt_string(r.timestamp)));
}

/// A finish event referencing an id that no start event of the log
/// carries changes nothing: splicing one such result block into a
/// record that is not a turn-start candidate leaves the whole scan's
/// outcome unchanged. (Splicing a result block into a turn-start
/// candidate is excluded: it would mark that record as synthetic and
/// so suppress the turn reset it was about to arm.)
pub proof fn lemma_unmatched_result_noop(
    records: Seq<Record>,
    records2: Seq<Record>,
    k: int,
    p: int,
    b: Block,
    id: Seq<char>,
)
    requires
        0 <= k < records.len(),
        records2.len() == records.len(),
        forall|j: int| 0 <= j < records.len() && j != k ==> records2[j] == records[j],
        same_but_blocks(records[k], records2[k]),
        0 <= p <= records[k].blocks@.len(),
        records2[k].blocks@ == records[k].blocks@.insert(p, b),
        block_finishes_id(b, id),
        !log_starts_id(records, id),
        !is_turn_start_candidate(records[k]),
    ensures
        records_fold(records2) == records_fold(records),
    decreases records.len(),
{
    assert(!log_starts_id(records.drop_last(), id)) by {
        if log_starts_id(records.drop_last(), id) {
            let i = choose|i: int|
                0 <= i < records.drop_last().len() && record_starts_id(
                    records.drop_last()[i],
                    id,
                );
            assert(record_starts_id(records[i], id));
        }
    }
    if k == records.len() - 1 {
        assert(records2.drop_last() =~= records.drop_last());
        lemma_fold_untracked(records.drop_last(), id);
        assert(!record_starts_id(records[k], id)) by {
            if record_starts_id(records[k], id) {
                assert(log_starts_id(records, id));
            }
        }
        lemma_record_insert_noop(
            records_fold(records.drop_last()),
            records[k],
            records2[k],
            p,
            b,
            id,
        );
        assert(records2.last() == records2[k]);
        assert(records.last() == records[k]);
    } else {
        assert(forall|j: int|
            0 <= j < records.drop_last().len() && j != k ==> records2.drop_last()[j]
                == records.drop_last()[j]);
        assert(records2.drop_last()[k] == records2[k]);
        assert(records.drop_last()[k] == records[k]);
        lemma_unmatched_result_noop(records.drop_last(), records2.drop_last(), k, p, b, id);
        assert(records2.last() == records.last());
    }
}

} // verus!
