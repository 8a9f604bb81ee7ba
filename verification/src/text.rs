//! Character-level string utilities: equality, prefix test, path
//! basename and display truncation. All lengths and indices count
//! characters, not bytes.

use vstd::prelude::*;

verus! {

/// Character-wise string equality.
pub fn str_eq(a: &str, b: &str) -> (r: bool)
    ensures
        r == (a@ == b@),
{
    let n = a.unicode_len();
    if n != b.unicode_len() {
        return false;
    }
    let mut i: usize = 0;
    while i < n
        invariant
            n == a@.len(),
            n == b@.len(),
            0 <= i <= n,
            forall|j: int| 0 <= j < i ==> a@[j] == b@[j],
        decreases n - i,
    {
        if a.get_char(i) != b.get_char(i) {
            return false;
        }
        i = i + 1;
    }
    proof {
        assert(a@ =~= b@);
    }
    true
}

/// Whether `prefix` is a prefix of `s`, character-wise.
pub fn str_starts_with(s: &str, prefix: &str) -> (r: bool)
    ensures
        r == prefix@.is_prefix_of(s@),
{
    let np = prefix.unicode_len();
    let ns = s.unicode_len();
    if np > ns {
        return false;
    }
    let mut i: usize = 0;
    while i < np
        invariant
            np == prefix@.len(),
            ns == s@.len(),
            np <= ns,
            0 <= i <= np,
            forall|j: int| 0 <= j < i ==> s@[j] == prefix@[j],
        decreases np - i,
    {
        if s.get_char(i) != prefix.get_char(i) {
            return false;
        }
        i = i + 1;
    }
    proof {
        assert(prefix@ =~= s@.subrange(0, np as int));
    }
    true
}

/// The characters after the last `/`; the whole string when it holds
/// none, and empty when it ends with `/`.
pub open spec fn after_last_slash(s: Seq<char>) -> Seq<char>
    decreases s.len(),
{
    if s.len() == 0 {
        s
    } else if s.last() == '/' {
        Seq::empty()
    } else {
        after_last_slash(s.drop_last()).push(s.last())
    }
}

proof fn lemma_after_no_slash(s: Seq<char>)
    requires
        forall|j: int| 0 <= j < s.len() ==> s[j] != '/',
    ensures
        after_last_slash(s) == s,
    decreases s.len(),
{
    if s.len() > 0 {
        lemma_after_no_slash(s.drop_last());
        assert(after_last_slash(s.drop_last()).push(s.last()) =~= s);
    }
}

proof fn lemma_after_slash_at(s: Seq<char>, k: int)
    requires
        0 <= k < s.len(),
        s[k] == '/',
        forall|j: int| k < j < s.len() ==> s[j] != '/',
    ensures
        after_last_slash(s) == s.subrange(k + 1, s.len() as int),
    decreases s.len(),
{
    if k == s.len() - 1 {
        assert(s.last() == '/');
        assert(s.subrange(k + 1, s.len() as int) =~= Seq::<char>::empty());
    } else {
        lemma_after_slash_at(s.drop_last(), k);
        assert(after_last_slash(s) == after_last_slash(s.drop_last()).push(s.last()));
        assert(s.drop_last().subrange(k + 1, s.len() - 1).push(s.last()) =~= s.subrange(
            k + 1,
            s.len() as int,
        ));
    }
}

/// Whether the string ends in a lone `.` path component.
pub open spec fn ends_with_dot_component(s: Seq<char>) -> bool {
    s.len() > 0 && s.last() == '.' && (s.len() == 1 || s[s.len() - 2] == '/')
}

/// The string with trailing separators and trailing `.` components
/// removed, as path normalization drops them.
pub open spec fn trim_path_end(s: Seq<char>) -> Seq<char>
    decreases s.len(),
{
    if s.len() == 0 {
        s
    } else if s.last() == '/' || ends_with_dot_component(s) {
        trim_path_end(s.drop_last())
    } else {
        s
    }
}

/// The file-name component of a path: with trailing separators and `.`
/// components dropped, the text after the last `/`. When no component
/// remains (empty, a root, only separators and dots) or the last one is
/// `..`, the whole input stands in for it.
pub open spec fn basename_of(s: Seq<char>) -> Seq<char> {
    let t = trim_path_end(s);
    let b = after_last_slash(t);
    if b.len() == 0 || b == ".."@ {
        s
    } else {
        b
    }
}

/// The file-name component of a path, or the path itself when it has
/// none.
pub fn basename(path: &str) -> (r: String)
    ensures
        r@ == basename_of(path@),
{
    let n = path.unicode_len();
    let mut e: usize = n;
    proof {
        assert(path@.take(n as int) =~= path@);
    }
    while e > 0
        invariant
            n == path@.len(),
            0 <= e <= n,
            trim_path_end(path@) == trim_path_end(path@.take(e as int)),
        ensures
            n == path@.len(),
            0 <= e <= n,
            trim_path_end(path@) == trim_path_end(path@.take(e as int)),
            e > 0 ==> trim_path_end(path@.take(e as int)) == path@.take(e as int),
            e > 0 ==> path@[e - 1] != '/',
        decreases e,
    {
        let c = path.get_char(e - 1);
        let dot_comp = c == '.' && (e == 1 || path.get_char(e - 2) == '/');
        if c == '/' || dot_comp {
            proof {
                let t = path@.take(e as int);
                assert(t.last() == c);
                assert(ends_with_dot_component(t) == dot_comp);
                assert(t.drop_last() =~= path@.take(e - 1));
            }
            e = e - 1;
        } else {
            proof {
                let t = path@.take(e as int);
                assert(t.last() == c);
                assert(ends_with_dot_component(t) == dot_comp);
                assert(trim_path_end(t) == t);
            }
            break ;
        }
    }
    proof {
        if e == 0 {
            assert(path@.take(0) =~= Seq::<char>::empty());
            assert(trim_path_end(path@) =~= Seq::<char>::empty());
            assert(after_last_slash(trim_path_end(path@)).len() == 0);
        }
    }
    if e == 0 {
        return path.to_owned();
    }
    let ghost t = path@.take(e as int);
    proof {
        assert(trim_path_end(path@) == t);
        assert(t.last() != '/');
    }
    let mut i: usize = e;
    while i > 0
        invariant
            n == path@.len(),
            0 < e <= n,
            0 <= i <= e,
            t == path@.take(e as int),
            trim_path_end(path@) == t,
            t.last() != '/',
            forall|j: int| i <= j < e ==> path@[j] != '/',
        decreases i,
    {
        if path.get_char(i - 1) == '/' {
            proof {
                assert(t[i - 1] == '/');
                assert(i - 1 < e - 1);
                lemma_after_slash_at(t, i - 1);
                assert(t.subrange(i as int, e as int) =~= path@.subrange(i as int, e as int));
            }
            let bs = path.substring_char(i, e);
            if str_eq(bs, "..") {
                return path.to_owned();
            }
            return bs.to_owned();
        }
        i = i - 1;
    }
    proof {
        lemma_after_no_slash(t);
        assert(t.subrange(0, e as int) =~= path@.subrange(0, e as int));
    }
    let bs = path.substring_char(0, e);
    if str_eq(bs, "..") {
        return path.to_owned();
    }
    bs.to_owned()
}

/// The three-character ellipsis suffix used by truncation.
pub open spec fn ellipsis() -> Seq<char> {
    seq!['.', '.', '.']
}

/// `s` unchanged when it fits in `max_len` characters; otherwise a
/// prefix that, with the three-character ellipsis, is exactly
/// `max_len` characters long.
pub open spec fn truncated(s: Seq<char>, max_len: int) -> Seq<char> {
    if s.len() <= max_len {
        s
    } else {
        s.subrange(0, max_len - 3) + ellipsis()
    }
}

/// Caps a display string at `max_len` characters, marking any cut with
/// an ellipsis.
pub fn truncate(s: &str, max_len: usize) -> (r: String)
    requires
        max_len >= 3,
    ensures
        r@ == truncated(s@, max_len as int),
        r@.len() <= max_len,
{
    let n = s.unicode_len();
    if n <= max_len {
        s.to_owned()
    } else {
        let prefix = s.substring_char(0, max_len - 3);
        let r = prefix.to_owned().concat("...");
        proof {
            reveal_strlit("...");
            assert("..."@ =~= ellipsis());
            assert(r@ =~= truncated(s@, max_len as int));
        }
        r
    }
}

} // verus!
