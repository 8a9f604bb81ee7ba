//! Timestamp handling for elapsed-time display. A timestamp is read as
//! `date T time`, with any trailing `Z` markers ignored and fractional
//! seconds dropped. Elapsed seconds use a deliberately simplified
//! calendar (365-day years, 30-day months): the result is a display
//! approximation, not calendar arithmetic.

use vstd::prelude::*;
use crate::scan::vals_view;

verus! {

/// `s` without its trailing `c` characters.
pub open spec fn strip_trailing(s: Seq<char>, c: char) -> Seq<char>
    decreases s.len(),
{
    if s.len() == 0 {
        s
    } else if s.last() == c {
        strip_trailing(s.drop_last(), c)
    } else {
        s
    }
}

/// `s` split at every `sep`: one part more than there are separators,
/// parts empty where separators touch.
pub open spec fn split_on(s: Seq<char>, sep: char) -> Seq<Seq<char>>
    decreases s.len(),
{
    if s.len() == 0 {
        seq![Seq::empty()]
    } else if s.first() == sep {
        seq![Seq::<char>::empty()] + split_on(s.drop_first(), sep)
    } else {
        let rest = split_on(s.drop_first(), sep);
        seq![seq![s.first()] + rest.first()] + rest.drop_first()
    }
}

/// The characters before the first `c`; all of `s` when it has none.
pub open spec fn before_first(s: Seq<char>, c: char) -> Seq<char>
    decreases s.len(),
{
    if s.len() == 0 {
        s
    } else if s.first() == c {
        Seq::empty()
    } else {
        seq![s.first()] + before_first(s.drop_first(), c)
    }
}

/// Whether `c` is a decimal digit.
pub open spec fn is_digit(c: char) -> bool {
    '0' <= c && c <= '9'
}

/// The digit's value.
pub open spec fn digit_val(c: char) -> int {
    c as int - '0' as int
}

/// Whether `s` is one or more decimal digits.
pub open spec fn is_digits(s: Seq<char>) -> bool {
    s.len() > 0 && forall|i: int| 0 <= i < s.len() ==> is_digit(#[trigger] s[i])
}

/// The number the digit string denotes.
pub open spec fn digits_val(s: Seq<char>) -> int
    decreases s.len(),
{
    if s.len() == 0 {
        0
    } else {
        digits_val(s.drop_last()) * 10 + digit_val(s.last())
    }
}

/// The number a group denotes, when it is all digits and fits the
/// counter width.
pub open spec fn parse_u32_of(s: Seq<char>) -> Option<u32> {
    if is_digits(s) && digits_val(s) <= u32::MAX {
        Some(digits_val(s) as u32)
    } else {
        None
    }
}

/// Seconds since the epoch under the simplified calendar.
pub open spec fn approx_epoch_secs(y: int, mo: int, d: int, h: int, mi: int, sec: int) -> int {
    ((y - 1970) * 365 + mo * 30 + d) * 86400 + h * 3600 + mi * 60 + sec
}

/// The parse of a whole timestamp string: trailing `Z`s stripped, one
/// `T` between a three-group date and a three-group time (fractional
/// seconds dropped), every group a digit string, the year at least
/// 1970; anything else yields nothing.
pub open spec fn parse_timestamp_of(s: Seq<char>) -> Option<u64> {
    let core = strip_trailing(s, 'Z');
    let tp = split_on(core, 'T');
    if tp.len() != 2 {
        None
    } else {
        let dg = split_on(tp[0], '-');
        let tg = split_on(before_first(tp[1], '.'), ':');
        if dg.len() == 3 && tg.len() == 3 {
            match (parse_u32_of(dg[0]), parse_u32_of(dg[1]), parse_u32_of(dg[2])) {
                (Some(y), Some(mo), Some(d)) => match (
                    parse_u32_of(tg[0]),
                    parse_u32_of(tg[1]),
                    parse_u32_of(tg[2]),
                ) {
                    (Some(h), Some(mi), Some(sec)) => if y >= 1970 {
                        Some(
                            approx_epoch_secs(
                                y as int,
                                mo as int,
                                d as int,
                                h as int,
                                mi as int,
                                sec as int,
                            ) as u64,
                        )
                    } else {
                        None
                    },
                    _ => None,
                },
                _ => None,
            }
        } else {
            None
        }
    }
}

/// The elapsed seconds a start/end pair denotes at instant `now_secs`:
/// an unparsable or absent bound falls back to `now_secs`, and an end
/// before its start counts as zero.
pub open spec fn elapsed_of(
    start: Option<Seq<char>>,
    end: Option<Seq<char>>,
    now_secs: u64,
) -> u64 {
    let s = match start {
        Some(t) => match parse_timestamp_of(t) {
            Some(x) => x,
            None => now_secs,
        },
        None => now_secs,
    };
    let e = match end {
        Some(t) => match parse_timestamp_of(t) {
            Some(x) => x,
            None => now_secs,
        },
        None => now_secs,
    };
    if e >= s {
        (e - s) as u64
    } else {
        0
    }
}

proof fn lemma_strip_trailing_at(s: Seq<char>, k: int)
    requires
        0 <= k <= s.len(),
        forall|j: int| k <= j < s.len() ==> s[j] == 'Z',
        k > 0 ==> s[k - 1] != 'Z',
    ensures
        strip_trailing(s, 'Z') == s.subrange(0, k),
    decreases s.len(),
{
    if k == s.len() {
        if s.len() == 0 || s.last() != 'Z' {
            assert(strip_trailing(s, 'Z') =~= s.subrange(0, k));
        } else {
            assert(false);
        }
    } else {
        assert(s.last() == 'Z');
        lemma_strip_trailing_at(s.drop_last(), k);
        assert(s.drop_last().subrange(0, k) =~= s.subrange(0, k));
    }
}

/// Trailing `Z`s removed, exactly.
fn strip_z(s: &str) -> (r: String)
    ensures
        r@ == strip_trailing(s@, 'Z'),
{
    let n = s.unicode_len();
    let mut k: usize = n;
    while k > 0
        invariant
            n == s@.len(),
            0 <= k <= n,
            forall|j: int| k <= j < n ==> s@[j] == 'Z',
        decreases k,
    {
        if s.get_char(k - 1) != 'Z' {
            proof {
                lemma_strip_trailing_at(s@, k as int);
            }
            return s.substring_char(0, k).to_owned();
        }
        k = k - 1;
    }
    proof {
        lemma_strip_trailing_at(s@, 0);
    }
    s.substring_char(0, 0).to_owned()
}

proof fn lemma_split_no_sep(s: Seq<char>, sep: char)
    requires
        forall|j: int| 0 <= j < s.len() ==> s[j] != sep,
    ensures
        split_on(s, sep) == seq![s],
    decreases s.len(),
{
    if s.len() == 0 {
        assert(split_on(s, sep) =~~= seq![s]);
    } else {
        assert(forall|j: int|
            0 <= j < s.drop_first().len() ==> #[trigger] s.drop_first()[j] != sep);
        lemma_split_no_sep(s.drop_first(), sep);
        assert(seq![s.first()] + s.drop_first() =~= s);
        assert(split_on(s, sep) =~~= seq![s]);
    }
}

proof fn lemma_split_at_first(s: Seq<char>, sep: char, p: int)
    requires
        0 <= p < s.len(),
        s[p] == sep,
        forall|j: int| 0 <= j < p ==> s[j] != sep,
    ensures
        split_on(s, sep) == seq![s.subrange(0, p)] + split_on(
            s.subrange(p + 1, s.len() as int),
            sep,
        ),
    decreases s.len(),
{
    if p == 0 {
        assert(s.first() == sep);
        assert(s.drop_first() =~= s.subrange(1, s.len() as int));
        assert(s.subrange(0, 0) =~= Seq::<char>::empty());
        assert(split_on(s, sep) =~~= seq![s.subrange(0, 0)] + split_on(
            s.subrange(1, s.len() as int),
            sep,
        ));
    } else {
        assert(s.first() != sep);
        let d = s.drop_first();
        assert(d[p - 1] == sep);
        assert(forall|j: int| 0 <= j < p - 1 ==> #[trigger] d[j] != sep);
        lemma_split_at_first(d, sep, p - 1);
        let rest = split_on(d, sep);
        let tail = split_on(d.subrange(p, d.len() as int), sep);
        assert(rest == seq![d.subrange(0, p - 1)] + tail);
        assert((seq![d.subrange(0, p - 1)] + tail)[0] == d.subrange(0, p - 1));
        assert(rest.first() == d.subrange(0, p - 1));
        assert(seq![s.first()] + d.subrange(0, p - 1) =~= s.subrange(0, p));
        assert(d.subrange(p, d.len() as int) =~= s.subrange(p + 1, s.len() as int));
        assert(tail == split_on(s.subrange(p + 1, s.len() as int), sep));
        assert(rest.drop_first() =~~= tail);
        assert(split_on(s, sep) =~~= seq![s.subrange(0, p)] + split_on(
            s.subrange(p + 1, s.len() as int),
            sep,
        ));
    }
}

/// `s` split at every `sep`, as owned strings.
fn split_char(s: &str, sep: char) -> (parts: Vec<String>)
    ensures
        vals_view(parts@) == split_on(s@, sep),
        parts@.len() >= 1,
{
    let n = s.unicode_len();
    let mut parts: Vec<String> = Vec::new();
    let mut start: usize = 0;
    let mut i: usize = 0;
    proof {
        assert(s@.subrange(0, n as int) =~= s@);
        assert(vals_view(parts@) + split_on(s@, sep) =~~= split_on(s@, sep));
    }
    while i < n
        invariant
            n == s@.len(),
            0 <= start <= i <= n,
            forall|j: int| start <= j < i ==> s@[j] != sep,
            split_on(s@, sep) == vals_view(parts@) + split_on(
                s@.subrange(start as int, n as int),
                sep,
            ),
        decreases n - i,
    {
        if s.get_char(i) == sep {
            let ghost pre = vals_view(parts@);
            let seg = s.substring_char(start, i).to_owned();
            parts.push(seg);
            proof {
                let rem = s@.subrange(start as int, n as int);
                assert(rem[i - start] == sep);
                assert(forall|j: int| 0 <= j < i - start ==> #[trigger] rem[j] != sep);
                lemma_split_at_first(rem, sep, i - start);
                assert(rem.subrange(0, i - start) =~= s@.subrange(start as int, i as int));
                assert(rem.subrange(i - start + 1, rem.len() as int) =~= s@.subrange(
                    i + 1,
                    n as int,
                ));
                assert(vals_view(parts@) =~~= pre.push(s@.subrange(start as int, i as int)));
                assert(vals_view(parts@) + split_on(s@.subrange(i + 1, n as int), sep) =~~= (pre
                    + (seq![s@.subrange(start as int, i as int)] + split_on(
                    s@.subrange(i + 1, n as int),
                    sep,
                ))));
            }
            start = i + 1;
        }
        i = i + 1;
    }
    let ghost pre = vals_view(parts@);
    let seg = s.substring_char(start, n).to_owned();
    parts.push(seg);
    proof {
        let rem = s@.subrange(start as int, n as int);
        assert(forall|j: int| 0 <= j < rem.len() ==> #[trigger] rem[j] != sep);
        lemma_split_no_sep(rem, sep);
        assert(vals_view(parts@) =~~= pre.push(rem));
        assert(pre.push(rem) =~~= pre + seq![rem]);
        assert(vals_view(parts@) =~~= split_on(s@, sep));
    }
    parts
}

proof fn lemma_before_first_at(s: Seq<char>, c: char, k: int)
    requires
        0 <= k <= s.len(),
        forall|j: int| 0 <= j < k ==> s[j] != c,
        k < s.len() ==> s[k] == c,
    ensures
        before_first(s, c) == s.subrange(0, k),
    decreases s.len(),
{
    if s.len() == 0 {
        assert(before_first(s, c) =~= s.subrange(0, k));
    } else if k == 0 {
        assert(before_first(s, c) =~= s.subrange(0, 0));
    } else {
        assert(s.first() != c);
        let d = s.drop_first();
        assert(forall|j: int| 0 <= j < k - 1 ==> #[trigger] d[j] != c);
        lemma_before_first_at(d, c, k - 1);
        assert(seq![s.first()] + d.subrange(0, k - 1) =~= s.subrange(0, k));
    }
}

/// The characters before the first `c`, as an owned string.
fn take_before(s: &str, c: char) -> (r: String)
    ensures
        r@ == before_first(s@, c),
{
    let n = s.unicode_len();
    let mut i: usize = 0;
    while i < n
        invariant
            n == s@.len(),
            0 <= i <= n,
            forall|j: int| 0 <= j < i ==> s@[j] != c,
        decreases n - i,
    {
        if s.get_char(i) == c {
            proof {
                lemma_before_first_at(s@, c, i as int);
            }
            return s.substring_char(0, i).to_owned();
        }
        i = i + 1;
    }
    proof {
        lemma_before_first_at(s@, c, n as int);
    }
    s.substring_char(0, n).to_owned()
}

proof fn lemma_digits_val_grows(s: Seq<char>, k: int)
    requires
        is_digits(s),
        0 <= k <= s.len(),
    ensures
        digits_val(s) >= digits_val(s.take(k)),
        digits_val(s.take(k)) >= 0,
    decreases s.len() - k,
{
    if k == 0 {
        lemma_digits_val_nonneg(s, 0);
    }
    lemma_digits_val_nonneg(s, k);
    if k < s.len() {
        lemma_digits_val_grows(s, k + 1);
        assert(s.take(k + 1).drop_last() =~= s.take(k));
        assert(is_digit(s[k]));
        assert(digits_val(s.take(k + 1)) == digits_val(s.take(k)) * 10 + digit_val(s[k]));
        assert(digits_val(s.take(k)) * 10 >= digits_val(s.take(k)));
    } else {
        assert(s.take(k) =~= s);
    }
}

proof fn lemma_digits_val_nonneg(s: Seq<char>, k: int)
    requires
        is_digits(s),
        0 <= k <= s.len(),
    ensures
        digits_val(s.take(k)) >= 0,
    decreases k,
{
    if k > 0 {
        lemma_digits_val_nonneg(s, k - 1);
        assert(s.take(k).drop_last() =~= s.take(k - 1));
        assert(is_digit(s[k - 1]));
    }
}

/// Reads a digit group as a number; anything that is not one or more
/// digits, or does not fit, yields nothing.
fn parse_u32(s: &str) -> (r: Option<u32>)
    ensures
        r == parse_u32_of(s@),
{
    let n = s.unicode_len();
    if n == 0 {
        return None;
    }
    let mut v: u64 = 0;
    let mut i: usize = 0;
    while i < n
        invariant
            n == s@.len(),
            n > 0,
            0 <= i <= n,
            forall|j: int| 0 <= j < i ==> is_digit(#[trigger] s@[j]),
            v == digits_val(s@.take(i as int)),
            v <= u32::MAX,
        decreases n - i,
    {
        let c = s.get_char(i);
        if c < '0' || c > '9' {
            proof {
                assert(!is_digits(s@));
            }
            return None;
        }
        let d: u64 = (c as u32 - '0' as u32) as u64;
        let next: u64 = v * 10 + d;
        proof {
            assert(s@.take(i + 1).drop_last() =~= s@.take(i as int));
            assert(digits_val(s@.take(i + 1)) == digits_val(s@.take(i as int)) * 10 + digit_val(
                s@[i as int],
            ));
        }
        if next > u32::MAX as u64 {
            proof {
                if is_digits(s@) {
                    lemma_digits_val_grows(s@, i + 1);
                    assert(digits_val(s@) > u32::MAX);
                }
            }
            return None;
        }
        v = next;
        i = i + 1;
    }
    proof {
        assert(s@.take(n as int) =~= s@);
        assert(is_digits(s@));
    }
    Some(v as u32)
}

/// Reads a timestamp as approximate seconds since the epoch; a string
/// not of the expected shape yields nothing.
pub fn parse_timestamp(ts: &str) -> (r: Option<u64>)
    ensures
        r == parse_timestamp_of(ts@),
{
    let core = strip_z(ts);
    let tp = split_char(core.as_str(), 'T');
    if tp.len() != 2 {
        return None;
    }
    let dg = split_char(tp[0].as_str(), '-');
    let time_head = take_before(tp[1].as_str(), '.');
    let tg = split_char(time_head.as_str(), ':');
    if dg.len() != 3 || tg.len() != 3 {
        return None;
    }
    let y = match parse_u32(dg[0].as_str()) {
        Some(x) => x,
        None => {
            return None;
        },
    };
    let mo = match parse_u32(dg[1].as_str()) {
        Some(x) => x,
        None => {
            return None;
        },
    };
    let d = match parse_u32(dg[2].as_str()) {
        Some(x) => x,
        None => {
            return None;
        },
    };
    let h = match parse_u32(tg[0].as_str()) {
        Some(x) => x,
        None => {
            return None;
        },
    };
    let mi = match parse_u32(tg[1].as_str()) {
        Some(x) => x,
        None => {
            return None;
        },
    };
    let sec = match parse_u32(tg[2].as_str()) {
        Some(x) => x,
        None => {
            return None;
        },
    };
    if y < 1970 {
        return None;
    }
    let days: u64 = (y as u64 - 1970) * 365 + (mo as u64) * 30 + (d as u64);
    let day_secs: u64 = (h as u64) * 3600 + (mi as u64) * 60 + (sec as u64);
    Some(days * 86400 + day_secs)
}

/// Elapsed seconds between a start and an end timestamp at instant
/// `now_secs`, for display beside an agent.
pub fn calculate_elapsed(start: &Option<String>, end: &Option<String>, now_secs: u64) -> (r: u64)
    ensures
        r == elapsed_of(
            crate::state::view_opt_string(*start),
            crate::state::view_opt_string(*end),
            now_secs,
        ),
{
    let s = match start {
        Some(t) => match parse_timestamp(t.as_str()) {
            Some(x) => x,
            None => now_secs,
        },
        None => now_secs,
    };
    let e = match end {
        Some(t) => match parse_timestamp(t.as_str()) {
            Some(x) => x,
            None => now_secs,
        },
        None => now_secs,
    };
    if e >= s {
        e - s
    } else {
        0
    }
}

} // verus!
