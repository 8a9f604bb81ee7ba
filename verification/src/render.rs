//! Renders the final state as one status line: colored status icons,
//! todo progress, skill, agent and tool sections joined by a fixed
//! separator. Every piece is specified exactly as a character
//! sequence.

use vstd::prelude::*;
use crate::scan::{abs_map, vals_view, ToolStateV, TranscriptV};
use crate::state::{AgentEntry, AgentV, SkillEntry, SkillV, Status, TodoState, ToolState, ToolV, TranscriptState, view_opt_string};
use crate::time::{calculate_elapsed, elapsed_of};

verus! {

/// Green, for completed work.
pub open spec fn green_s() -> Seq<char> {
    "\x1b[38;2;166;227;161m"@
}

/// Yellow, for running work.
pub open spec fn yellow_s() -> Seq<char> {
    "\x1b[38;2;249;226;175m"@
}

/// Red, for errors.
pub open spec fn red_s() -> Seq<char> {
    "\x1b[38;2;243;139;168m"@
}

/// Lavender, for section icons.
pub open spec fn lavender_s() -> Seq<char> {
    "\x1b[38;2;180;190;254m"@
}

/// Gray, for separators.
pub open spec fn gray_s() -> Seq<char> {
    "\x1b[0;37m"@
}

/// Color reset.
pub open spec fn nc_s() -> Seq<char> {
    "\x1b[0m"@
}

/// Spinner icon, for running work.
pub open spec fn icon_spinner_s() -> Seq<char> {
    "\u{f110}"@
}

/// Check icon, for completed work.
pub open spec fn icon_check_s() -> Seq<char> {
    "\u{f00c}"@
}

/// Cross icon, for errors.
pub open spec fn icon_error_s() -> Seq<char> {
    "\u{f00d}"@
}

/// The color a status renders in.
pub open spec fn status_color(st: Status) -> Seq<char> {
    match st {
        Status::Running => yellow_s(),
        Status::Completed => green_s(),
        Status::Error => red_s(),
    }
}

/// The icon a status renders as.
pub open spec fn status_icon(st: Status) -> Seq<char> {
    match st {
        Status::Running => icon_spinner_s(),
        Status::Completed => icon_check_s(),
        Status::Error => icon_error_s(),
    }
}

/// The colored status marker: color, icon, reset.
pub open spec fn status_mark(st: Status) -> Seq<char> {
    status_color(st) + status_icon(st) + nc_s()
}

/// The colored status marker for an entry's status.
fn render_status_mark(st: Status) -> (r: String)
    ensures
        r@ == status_mark(st),
{
    let mut out = String::new();
    match st {
        Status::Running => {
            out.append("\x1b[38;2;249;226;175m");
            out.append("\u{f110}");
        },
        Status::Completed => {
            out.append("\x1b[38;2;166;227;161m");
            out.append("\u{f00c}");
        },
        Status::Error => {
            out.append("\x1b[38;2;243;139;168m");
            out.append("\u{f00d}");
        },
    }
    out.append("\x1b[0m");
    proof {
        assert(out@ =~= status_mark(st));
    }
    out
}

/// The decimal digit character for `n` in 0..10.
pub open spec fn dec_digit(n: int) -> char {
    if n == 0 {
        '0'
    } else if n == 1 {
        '1'
    } else if n == 2 {
        '2'
    } else if n == 3 {
        '3'
    } else if n == 4 {
        '4'
    } else if n == 5 {
        '5'
    } else if n == 6 {
        '6'
    } else if n == 7 {
        '7'
    } else if n == 8 {
        '8'
    } else {
        '9'
    }
}

/// The usual decimal rendering of a nonnegative number.
pub open spec fn dec_str(n: int) -> Seq<char>
    decreases n,
{
    if n < 10 {
        seq![dec_digit(n)]
    } else {
        dec_str(n / 10).push(dec_digit(n % 10))
    }
}

/// One decimal digit as text.
fn digit_lit(d: u64) -> (r: &'static str)
    requires
        d < 10,
    ensures
        r@ == seq![dec_digit(d as int)],
{
    proof {
        reveal_strlit("0");
        reveal_strlit("1");
        reveal_strlit("2");
        reveal_strlit("3");
        reveal_strlit("4");
        reveal_strlit("5");
        reveal_strlit("6");
        reveal_strlit("7");
        reveal_strlit("8");
        reveal_strlit("9");
    }
    if d == 0 {
        proof {
            assert("0"@ =~= seq![dec_digit(0)]);
        }
        "0"
    } else if d == 1 {
        proof {
            assert("1"@ =~= seq![dec_digit(1)]);
        }
        "1"
    } else if d == 2 {
        proof {
            assert("2"@ =~= seq![dec_digit(2)]);
        }
        "2"
    } else if d == 3 {
        proof {
            assert("3"@ =~= seq![dec_digit(3)]);
        }
        "3"
    } else if d == 4 {
        proof {
            assert("4"@ =~= seq![dec_digit(4)]);
        }
        "4"
    } else if d == 5 {
        proof {
            assert("5"@ =~= seq![dec_digit(5)]);
        }
        "5"
    } else if d == 6 {
        proof {
            assert("6"@ =~= seq![dec_digit(6)]);
        }
        "6"
    } else if d == 7 {
        proof {
            assert("7"@ =~= seq![dec_digit(7)]);
        }
        "7"
    } else if d == 8 {
        proof {
            assert("8"@ =~= seq![dec_digit(8)]);
        }
        "8"
    } else {
        proof {
            assert("9"@ =~= seq![dec_digit(9)]);
        }
        "9"
    }
}

/// A number rendered in decimal.
pub fn u64_to_string(n: u64) -> (r: String)
    ensures
        r@ == dec_str(n as int),
    decreases n,
{
    if n < 10 {
        let r = digit_lit(n).to_owned();
        proof {
            assert(r@ =~= dec_str(n as int));
        }
        r
    } else {
        let mut s = u64_to_string(n / 10);
        s.append(digit_lit(n % 10));
        proof {
            assert(s@ =~= dec_str(n as int));
        }
        s
    }
}

/// Parts joined by a separator; empty for no parts.
pub open spec fn joined(parts: Seq<Seq<char>>, sep: Seq<char>) -> Seq<char>
    decreases parts.len(),
{
    if parts.len() == 0 {
        Seq::empty()
    } else if parts.len() == 1 {
        parts[0]
    } else {
        joined(parts.drop_last(), sep) + sep + parts.last()
    }
}

/// Joins the parts with the separator.
fn join_parts(parts: &Vec<String>, sep: &str) -> (r: String)
    ensures
        r@ == joined(vals_view(parts@), sep@),
{
    let n = parts.len();
    if n == 0 {
        let r = String::new();
        proof {
            assert(r@ =~= joined(vals_view(parts@), sep@));
        }
        return r;
    }
    let mut acc = parts[0].clone();
    proof {
        assert(vals_view(parts@).take(1) =~= seq![parts@[0]@]);
        assert(acc@ == joined(vals_view(parts@).take(1), sep@));
    }
    let mut i: usize = 1;
    while i < n
        invariant
            n == parts@.len(),
            1 <= i <= n,
            acc@ == joined(vals_view(parts@).take(i as int), sep@),
        decreases n - i,
    {
        acc.append(sep);
        acc.append(parts[i].as_str());
        proof {
            assert(vals_view(parts@).take(i + 1).drop_last() =~= vals_view(parts@).take(i as int));
            assert(vals_view(parts@).take(i + 1).last() == parts@[i as int]@);
            assert(acc@ =~= joined(vals_view(parts@).take(i + 1), sep@));
        }
        i = i + 1;
    }
    proof {
        assert(vals_view(parts@).take(n as int) =~= vals_view(parts@));
    }
    acc
}

} // verus!

// The four sections and the whole status line.

verus! {

/// Checkbox icon heading the todo section.
pub open spec fn icon_todos_s() -> Seq<char> {
    "\u{f14a}"@
}

/// Robot icon heading the agent section.
pub open spec fn icon_agents_s() -> Seq<char> {
    "\u{ee0d}"@
}

/// Wrench icon heading the tool section.
pub open spec fn icon_tools_s() -> Seq<char> {
    "\u{f0ad}"@
}

/// Lightning icon heading the skill section.
pub open spec fn icon_skills_s() -> Seq<char> {
    "\u{f0e7}"@
}

/// A section heading: lavender icon, reset, space.
pub open spec fn section_head(icon: Seq<char>) -> Seq<char> {
    lavender_s() + icon + nc_s() + " "@
}

/// The todo section: nothing when the snapshot is empty; otherwise a
/// checked or spinning marker, the current item's label when one is in
/// progress, and the done/total counts.
pub open spec fn format_todos_of(t: crate::scan::TodoV) -> Option<Seq<char>> {
    if t.total == 0 {
        None
    } else {
        let mark = if t.done == t.total {
            status_mark(Status::Completed)
        } else {
            status_mark(Status::Running)
        };
        let head = section_head(icon_todos_s()) + mark + " "@;
        let counts = dec_str(t.done as int) + "/"@ + dec_str(t.total as int);
        Some(
            match t.current {
                Some(c) => if t.done < t.total {
                    head + c + " ("@ + counts + ")"@
                } else {
                    head + "All done ("@ + counts + ")"@
                },
                None => head + counts,
            },
        )
    }
}

/// Renders the todo section.
pub fn format_todos(todos: &TodoState) -> (r: Option<String>)
    ensures
        view_opt_string(r) == format_todos_of(todos@),
{
    if todos.total == 0 {
        return None;
    }
    let mut out = String::new();
    out.append("\x1b[38;2;180;190;254m");
    out.append("\u{f14a}");
    out.append("\x1b[0m");
    out.append(" ");
    let mark = render_status_mark(
        if todos.done == todos.total {
            Status::Completed
        } else {
            Status::Running
        },
    );
    out.append(mark.as_str());
    out.append(" ");
    match &todos.current {
        Some(c) => {
            if todos.done < todos.total {
                out.append(c.as_str());
                out.append(" (");
                out.append(u64_to_string(todos.done as u64).as_str());
                out.append("/");
                out.append(u64_to_string(todos.total as u64).as_str());
                out.append(")");
            } else {
                out.append("All done (");
                out.append(u64_to_string(todos.done as u64).as_str());
                out.append("/");
                out.append(u64_to_string(todos.total as u64).as_str());
                out.append(")");
            }
        },
        None => {
            out.append(u64_to_string(todos.done as u64).as_str());
            out.append("/");
            out.append(u64_to_string(todos.total as u64).as_str());
        },
    }
    proof {
        assert(out@ =~= match format_todos_of(todos@) {
            Some(s) => s,
            None => Seq::empty(),
        });
    }
    Some(out)
}

/// One skill: its status marker and name.
pub open spec fn skill_part(s: SkillV) -> Seq<char> {
    status_mark(s.status) + " "@ + s.name
}

/// The skill parts, in order.
pub open spec fn skill_parts(ss: Seq<SkillV>) -> Seq<Seq<char>> {
    Seq::new(ss.len(), |i: int| skill_part(ss[i]))
}

/// The skill section: nothing when no skill is tracked.
pub open spec fn format_skills_of(ss: Seq<SkillV>) -> Option<Seq<char>> {
    if ss.len() == 0 {
        None
    } else {
        Some(section_head(icon_skills_s()) + joined(skill_parts(ss), " "@))
    }
}

/// Renders the skill section.
pub fn format_skills(skills: &Vec<SkillEntry>) -> (r: Option<String>)
    ensures
        view_opt_string(r) == format_skills_of(vals_view(skills@)),
{
    let n = skills.len();
    if n == 0 {
        return None;
    }
    let mut parts: Vec<String> = Vec::new();
    let mut i: usize = 0;
    while i < n
        invariant
            n == skills@.len(),
            0 <= i <= n,
            vals_view(parts@) == skill_parts(vals_view(skills@)).take(i as int),
        decreases n - i,
    {
        let mut p = render_status_mark(skills[i].status);
        p.append(" ");
        p.append(skills[i].name.as_str());
        proof {
            assert(p@ =~= skill_part(skills@[i as int]@));
        }
        let ghost pre = vals_view(parts@);
        parts.push(p);
        proof {
            let all = skill_parts(vals_view(skills@));
            assert(vals_view(parts@) =~~= pre.push(p@));
            assert(all[i as int] == skill_part(skills@[i as int]@));
            assert(all.take(i + 1) =~~= all.take(i as int).push(all[i as int]));
            assert(vals_view(parts@) =~~= all.take(i + 1));
        }
        i = i + 1;
    }
    let body = join_parts(&parts, " ");
    let mut out = String::new();
    out.append("\x1b[38;2;180;190;254m");
    out.append("\u{f0e7}");
    out.append("\x1b[0m");
    out.append(" ");
    out.append(body.as_str());
    proof {
        assert(vals_view(parts@) =~~= skill_parts(vals_view(skills@)));
        assert(out@ =~= section_head(icon_skills_s()) + joined(
            skill_parts(vals_view(skills@)),
            " "@,
        ));
    }
    Some(out)
}

/// One agent: its status marker, role label, and elapsed seconds when
/// they are positive.
pub open spec fn agent_part(a: AgentV, now_secs: u64) -> Seq<char> {
    let e = elapsed_of(a.start_time, a.end_time, now_secs);
    status_mark(a.status) + " "@ + a.agent_type + if e > 0 {
        " ("@ + dec_str(e as int) + "s)"@
    } else {
        Seq::empty()
    }
}

/// The agent parts, in order.
pub open spec fn agent_parts(aa: Seq<AgentV>, now_secs: u64) -> Seq<Seq<char>> {
    Seq::new(aa.len(), |i: int| agent_part(aa[i], now_secs))
}

/// The agent section: nothing when no agent is tracked.
pub open spec fn format_agents_of(aa: Seq<AgentV>, now_secs: u64) -> Option<Seq<char>> {
    if aa.len() == 0 {
        None
    } else {
        Some(section_head(icon_agents_s()) + joined(agent_parts(aa, now_secs), " "@))
    }
}

/// Renders the agent section; `now_secs` is the instant elapsed times
/// are measured against.
pub fn format_agents(agents: &Vec<AgentEntry>, now_secs: u64) -> (r: Option<String>)
    ensures
        view_opt_string(r) == format_agents_of(vals_view(agents@), now_secs),
{
    let n = agents.len();
    if n == 0 {
        return None;
    }
    let mut parts: Vec<String> = Vec::new();
    let mut i: usize = 0;
    while i < n
        invariant
            n == agents@.len(),
            0 <= i <= n,
            vals_view(parts@) == agent_parts(vals_view(agents@), now_secs).take(i as int),
        decreases n - i,
    {
        let a = &agents[i];
        let mut p = render_status_mark(a.status);
        p.append(" ");
        p.append(a.agent_type.as_str());
        let e = calculate_elapsed(&a.start_time, &a.end_time, now_secs);
        if e > 0 {
            p.append(" (");
            p.append(u64_to_string(e).as_str());
            p.append("s)");
        }
        proof {
            assert(p@ =~= agent_part(agents@[i as int]@, now_secs));
        }
        let ghost pre = vals_view(parts@);
        parts.push(p);
        proof {
            let all = agent_parts(vals_view(agents@), now_secs);
            assert(vals_view(parts@) =~~= pre.push(p@));
            assert(all[i as int] == agent_part(agents@[i as int]@, now_secs));
            assert(all.take(i + 1) =~~= all.take(i as int).push(all[i as int]));
            assert(vals_view(parts@) =~~= all.take(i + 1));
        }
        i = i + 1;
    }
    let body = join_parts(&parts, " ");
    let mut out = String::new();
    out.append("\x1b[38;2;180;190;254m");
    out.append("\u{ee0d}");
    out.append("\x1b[0m");
    out.append(" ");
    out.append(body.as_str());
    proof {
        assert(vals_view(parts@) =~~= agent_parts(vals_view(agents@), now_secs));
        assert(out@ =~= section_head(icon_agents_s()) + joined(
            agent_parts(vals_view(agents@), now_secs),
            " "@,
        ));
    }
    Some(out)
}

} // verus!

// The tool section, with its count-ordered completed list, and the
// whole status line.

verus! {

/// `x` placed before the first entry whose count does not exceed its
/// own; order among the rest kept.
pub open spec fn insert_desc(
    x: (Seq<char>, u32),
    s: Seq<(Seq<char>, u32)>,
) -> Seq<(Seq<char>, u32)>
    decreases s.len(),
{
    if s.len() == 0 {
        seq![x]
    } else if x.1 >= s[0].1 {
        seq![x] + s
    } else {
        seq![s[0]] + insert_desc(x, s.drop_first())
    }
}

/// The counters in descending count order; equal counts keep their
/// original order.
pub open spec fn sort_desc(s: Seq<(Seq<char>, u32)>) -> Seq<(Seq<char>, u32)>
    decreases s.len(),
{
    if s.len() == 0 {
        s
    } else {
        insert_desc(s[0], sort_desc(s.drop_first()))
    }
}

/// The first `n` elements (all of them when fewer).
pub open spec fn first_n<T>(s: Seq<T>, n: int) -> Seq<T> {
    if s.len() <= n {
        s
    } else {
        s.subrange(0, n)
    }
}

fn insert_completed(x: (String, u32), v: Vec<(String, u32)>) -> (r: Vec<(String, u32)>)
    ensures
        abs_map(r@) == insert_desc((x.0@, x.1), abs_map(v@)),
    decreases v@.len(),
{
    let ghost pre = abs_map(v@);
    if v.len() == 0 {
        let mut r = v;
        r.push(x);
        proof {
            assert(abs_map(r@) =~= insert_desc((x.0@, x.1), pre));
        }
        r
    } else if x.1 >= v[0].1 {
        let mut r = v;
        r.insert(0, x);
        proof {
            assert(abs_map(r@) =~= seq![(x.0@, x.1)] + pre);
        }
        r
    } else {
        let mut v = v;
        let h = v.remove(0);
        proof {
            assert(abs_map(v@) =~= pre.drop_first());
        }
        let rest = insert_completed(x, v);
        let mut r = rest;
        r.insert(0, h);
        proof {
            assert(abs_map(r@) =~= seq![(h.0@, h.1)] + insert_desc((x.0@, x.1), pre.drop_first()));
            assert((h.0@, h.1) == pre[0]);
            assert(abs_map(r@) =~= insert_desc((x.0@, x.1), pre));
        }
        r
    }
}

/// The completed-tool counters sorted by count, largest first, stably.
fn sort_completed(v: Vec<(String, u32)>) -> (r: Vec<(String, u32)>)
    ensures
        abs_map(r@) == sort_desc(abs_map(v@)),
    decreases v@.len(),
{
    let ghost pre = abs_map(v@);
    if v.len() == 0 {
        v
    } else {
        let mut v = v;
        let h = v.remove(0);
        proof {
            assert(abs_map(v@) =~= pre.drop_first());
        }
        let sorted = sort_completed(v);
        let r = insert_completed(h, sorted);
        proof {
            assert((h.0@, h.1) == pre[0]);
        }
        r
    }
}

/// A copy of the counters.
fn clone_completed(v: &Vec<(String, u32)>) -> (r: Vec<(String, u32)>)
    ensures
        abs_map(r@) == abs_map(v@),
{
    let n = v.len();
    let mut r: Vec<(String, u32)> = Vec::new();
    let mut i: usize = 0;
    while i < n
        invariant
            n == v@.len(),
            0 <= i <= n,
            abs_map(r@) == abs_map(v@).take(i as int),
        decreases n - i,
    {
        let e = &v[i];
        let c = (e.0.clone(), e.1);
        proof {
            assert((c.0@, c.1) == abs_map(v@)[i as int]);
        }
        let ghost pre = abs_map(r@);
        r.push(c);
        proof {
            assert(abs_map(r@) =~= pre.push(abs_map(v@)[i as int]));
            assert(abs_map(v@).take(i + 1) =~= abs_map(v@).take(i as int).push(
                abs_map(v@)[i as int],
            ));
        }
        i = i + 1;
    }
    proof {
        assert(abs_map(v@).take(n as int) =~= abs_map(v@));
    }
    r
}

/// One completed counter: a green check, the tool name, and a
/// multiplier when it ran more than once.
pub open spec fn completed_part(e: (Seq<char>, u32)) -> Seq<char> {
    status_mark(Status::Completed) + " "@ + e.0 + if e.1 > 1 {
        " \u{d7}"@ + dec_str(e.1 as int)
    } else {
        Seq::empty()
    }
}

/// One running tool: a yellow spinner, the tool name, and its display
/// target when it has one.
pub open spec fn running_part(t: ToolV) -> Seq<char> {
    status_mark(Status::Running) + " "@ + t.name + match t.target {
        Some(tg) => " "@ + tg,
        None => Seq::empty(),
    }
}

/// The completed parts, in order.
pub open spec fn completed_parts(s: Seq<(Seq<char>, u32)>) -> Seq<Seq<char>> {
    Seq::new(s.len(), |i: int| completed_part(s[i]))
}

/// The running parts, in order.
pub open spec fn running_parts(s: Seq<ToolV>) -> Seq<Seq<char>> {
    Seq::new(s.len(), |i: int| running_part(s[i]))
}

/// The tool section: the five most-completed counters, then up to
/// three running tools; nothing when both lists are empty.
pub open spec fn format_tools_of(t: ToolStateV) -> Option<Seq<char>> {
    let parts = completed_parts(first_n(sort_desc(t.completed), 5)) + running_parts(
        first_n(t.running, 3),
    );
    if parts.len() == 0 {
        None
    } else {
        Some(section_head(icon_tools_s()) + joined(parts, " "@))
    }
}

/// Renders the tool section.
pub fn format_tools(tools: &ToolState) -> (r: Option<String>)
    ensures
        view_opt_string(r) == format_tools_of(tools@),
{
    let sorted = sort_completed(clone_completed(&tools.completed));
    let ghost csorted = sort_desc(abs_map(tools.completed@));
    let ccount: usize = if sorted.len() > 5 {
        5
    } else {
        sorted.len()
    };
    let mut parts: Vec<String> = Vec::new();
    let mut i: usize = 0;
    while i < ccount
        invariant
            ccount <= sorted@.len(),
            csorted == abs_map(sorted@),
            ccount as int == first_n(csorted, 5).len(),
            0 <= i <= ccount,
            vals_view(parts@) == completed_parts(first_n(csorted, 5)).take(i as int),
        decreases ccount - i,
    {
        let e = &sorted[i];
        let mut p = render_status_mark(Status::Completed);
        p.append(" ");
        p.append(e.0.as_str());
        if e.1 > 1 {
            p.append(" \u{d7}");
            p.append(u64_to_string(e.1 as u64).as_str());
        }
        proof {
            assert(first_n(csorted, 5)[i as int] == (e.0@, e.1));
            assert(p@ =~= completed_part(first_n(csorted, 5)[i as int]));
        }
        let ghost pre = vals_view(parts@);
        parts.push(p);
        proof {
            let all = completed_parts(first_n(csorted, 5));
            assert(vals_view(parts@) =~~= pre.push(p@));
            assert(all.take(i + 1) =~~= all.take(i as int).push(all[i as int]));
            assert(vals_view(parts@) =~~= all.take(i + 1));
        }
        i = i + 1;
    }
    proof {
        let all = completed_parts(first_n(csorted, 5));
        assert(all.take(ccount as int) =~~= all);
    }
    let rcount: usize = if tools.running.len() > 3 {
        3
    } else {
        tools.running.len()
    };
    let ghost crun = first_n(vals_view(tools.running@), 3);
    let mut j: usize = 0;
    while j < rcount
        invariant
            rcount <= tools.running@.len(),
            crun == first_n(vals_view(tools.running@), 3),
            rcount as int == crun.len(),
            0 <= j <= rcount,
            vals_view(parts@) == completed_parts(first_n(sort_desc(abs_map(tools.completed@)), 5))
                + running_parts(crun).take(j as int),
        decreases rcount - j,
    {
        let t = &tools.running[j];
        let mut p = render_status_mark(Status::Running);
        p.append(" ");
        p.append(t.name.as_str());
        match &t.target {
            Some(tg) => {
                p.append(" ");
                p.append(tg.as_str());
            },
            None => {},
        }
        proof {
            assert(crun[j as int] == tools.running@[j as int]@);
            assert(p@ =~= running_part(crun[j as int]));
        }
        let ghost pre = vals_view(parts@);
        parts.push(p);
        proof {
            let all = running_parts(crun);
            assert(vals_view(parts@) =~~= pre.push(p@));
            assert(all.take(j + 1) =~~= all.take(j as int).push(all[j as int]));
            assert(vals_view(parts@) =~~= completed_parts(
                first_n(sort_desc(abs_map(tools.completed@)), 5),
            ) + all.take(j + 1));
        }
        j = j + 1;
    }
    proof {
        assert(running_parts(crun).take(rcount as int) =~~= running_parts(crun));
        assert(vals_view(parts@) =~~= completed_parts(first_n(sort_desc(abs_map(tools.completed@)), 5))
            + running_parts(first_n(vals_view(tools.running@), 3)));
    }
    if parts.len() == 0 {
        return None;
    }
    let body = join_parts(&parts, " ");
    let mut out = String::new();
    out.append("\x1b[38;2;180;190;254m");
    out.append("\u{f0ad}");
    out.append("\x1b[0m");
    out.append(" ");
    out.append(body.as_str());
    proof {
        assert(out@ =~= section_head(icon_tools_s()) + joined(
            completed_parts(first_n(sort_desc(abs_map(tools.completed@)), 5)) + running_parts(
                first_n(vals_view(tools.running@), 3),
            ),
            " "@,
        ));
    }
    Some(out)
}

/// The parts list grown by a section, when the section rendered.
pub open spec fn opt_push(parts: Seq<Seq<char>>, o: Option<Seq<char>>) -> Seq<Seq<char>> {
    match o {
        Some(x) => parts.push(x),
        None => parts,
    }
}

/// The separator between sections: a gray bar with spaces.
pub open spec fn sep_s() -> Seq<char> {
    " \x1b[0;37m|\x1b[0m "@
}

/// The sections that render, in the fixed order todos, skills,
/// agents, tools.
pub open spec fn output_parts(st: TranscriptV, now_secs: u64) -> Seq<Seq<char>> {
    opt_push(
        opt_push(
            opt_push(
                opt_push(Seq::empty(), format_todos_of(st.todos)),
                format_skills_of(st.skills),
            ),
            format_agents_of(st.agents, now_secs),
        ),
        format_tools_of(st.tools),
    )
}

/// The whole status line: the rendered sections joined by the
/// separator; empty when every section is empty.
pub open spec fn format_output_of(st: TranscriptV, now_secs: u64) -> Seq<char> {
    joined(output_parts(st, now_secs), sep_s())
}

/// Renders the whole status line; `now_secs` is the instant elapsed
/// times are measured against.
pub fn format_output(state: &TranscriptState, now_secs: u64) -> (r: String)
    ensures
        r@ == format_output_of(state@, now_secs),
        output_parts(state@, now_secs).len() == 0 ==> r@.len() == 0,
{
    let mut parts: Vec<String> = Vec::new();
    match format_todos(&state.todos) {
        Some(p) => {
            let ghost pv = p@;
            parts.push(p);
            proof {
                assert(vals_view(parts@) =~~= opt_push(Seq::empty(), format_todos_of(state@.todos)));
            }
        },
        None => {},
    }
    let ghost with_todos = opt_push(Seq::empty(), format_todos_of(state@.todos));
    proof {
        assert(vals_view(parts@) =~~= with_todos);
    }
    match format_skills(&state.skills) {
        Some(p) => {
            let ghost pv = p@;
            parts.push(p);
            proof {
                assert(vals_view(parts@) =~~= with_todos.push(pv));
            }
        },
        None => {},
    }
    let ghost with_skills = opt_push(with_todos, format_skills_of(vals_view(state.skills@)));
    proof {
        assert(vals_view(parts@) =~~= with_skills);
    }
    match format_agents(&state.agents, now_secs) {
        Some(p) => {
            let ghost pv = p@;
            parts.push(p);
            proof {
                assert(vals_view(parts@) =~~= with_skills.push(pv));
            }
        },
        None => {},
    }
    let ghost with_agents = opt_push(with_skills, format_agents_of(vals_view(state.agents@), now_secs));
    proof {
        assert(vals_view(parts@) =~~= with_agents);
    }
    match format_tools(&state.tools) {
        Some(p) => {
            let ghost pv = p@;
            parts.push(p);
            proof {
                assert(vals_view(parts@) =~~= with_agents.push(pv));
            }
        },
        None => {},
    }
    let ghost with_tools = opt_push(with_agents, format_tools_of(state@.tools));
    proof {
        assert(vals_view(parts@) =~~= with_tools);
        assert(with_tools == output_parts(state@, now_secs));
    }
    let r = join_parts(&parts, " \x1b[0;37m|\x1b[0m ");
    proof {
        assert(r@ == format_output_of(state@, now_secs));
    }
    r
}

} // verus!
