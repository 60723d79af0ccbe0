//! History reconciliation.  The version-control backend knows nothing about
//! notes: it offers a line-oriented revision log, `id | message | author`,
//! possibly with a fourth timestamp field, wrapped continuation lines, and
//! an `(empty)` marker for blank descriptions.  This module parses such
//! text and associates entries with a note by searching its title in the
//! free-text message, case-insensitively; running the backend itself is the
//! caller's affair.

use vstd::prelude::*;
use crate::fold::{lower_of, to_lower};
use crate::strutil::{
    chars_of, chars_to_string, has_substring, is_substring, str_eq, sub_chars, trim_chars,
    trim_spec,
};

verus! {

/// Mathematical model of one revision log entry.
pub ghost struct CommitView {
    pub id: Seq<char>,
    pub message: Seq<char>,
    pub author: Seq<char>,
    pub timestamp: Seq<char>,
}

/// One entry of a note's revision history.
pub struct CommitInfo {
    pub id: String,
    pub message: String,
    pub author: String,
    pub timestamp: String,
}

impl View for CommitInfo {
    type V = CommitView;

    open spec fn view(&self) -> CommitView {
        CommitView {
            id: self.id@,
            message: self.message@,
            author: self.author@,
            timestamp: self.timestamp@,
        }
    }
}

impl DeepView for CommitInfo {
    type V = CommitView;

    open spec fn deep_view(&self) -> CommitView {
        self.view()
    }
}

/// The first index at or after 0 where `c` occurs, or `s.len()`.
pub open spec fn find_ch(s: Seq<char>, c: char) -> int
    decreases s.len(),
{
    if s.len() == 0 {
        0
    } else if s[0] == c {
        0
    } else {
        1 + find_ch(s.drop_first(), c)
    }
}

proof fn lemma_find_ch(s: Seq<char>, c: char)
    ensures
        0 <= find_ch(s, c) <= s.len(),
        find_ch(s, c) < s.len() ==> s[find_ch(s, c)] == c,
        forall|k: int| 0 <= k < find_ch(s, c) ==> s[k] != c,
    decreases s.len(),
{
    if s.len() > 0 && s[0] != c {
        lemma_find_ch(s.drop_first(), c);
        assert forall|k: int| 0 <= k < find_ch(s, c) implies s[k] != c by {
            if k > 0 {
                assert(s.drop_first()[k - 1] != c);
            }
        }
    }
}

/// `s` split at every occurrence of `c`; the separators are dropped.
pub open spec fn split_ch(s: Seq<char>, c: char) -> Seq<Seq<char>>
    decreases s.len(),
{
    let i = find_ch(s, c);
    if 0 <= i < s.len() {
        seq![s.take(i)] + split_ch(s.skip(i + 1), c)
    } else {
        seq![s]
    }
}

/// The first index where `sep` occurs as a substring, or `s.len()`.
pub open spec fn find_sub(s: Seq<char>, sep: Seq<char>) -> int
    decreases s.len(),
{
    if sep.len() == 0 || s.len() < sep.len() {
        s.len() as int
    } else if s.subrange(0, sep.len() as int) == sep {
        0
    } else {
        1 + find_sub(s.drop_first(), sep)
    }
}

proof fn lemma_find_sub(s: Seq<char>, sep: Seq<char>)
    requires
        sep.len() > 0,
    ensures
        0 <= find_sub(s, sep) <= s.len(),
        find_sub(s, sep) + sep.len() <= s.len() ==> s.subrange(
            find_sub(s, sep),
            find_sub(s, sep) + sep.len() as int,
        ) == sep,
        forall|k: int|
            0 <= k < find_sub(s, sep) && k + sep.len() <= s.len() ==> #[trigger] s.subrange(
                k,
                k + sep.len() as int,
            ) != sep,
        find_sub(s, sep) < s.len() ==> find_sub(s, sep) + sep.len() <= s.len(),
    decreases s.len(),
{
    if sep.len() == 0 || s.len() < sep.len() {
    } else if s.subrange(0, sep.len() as int) == sep {
    } else {
        let t = s.drop_first();
        lemma_find_sub(t, sep);
        let i = find_sub(s, sep);
        assert(i == 1 + find_sub(t, sep));
        if i + sep.len() <= s.len() {
            assert(t.subrange(i - 1, i - 1 + sep.len() as int) =~= s.subrange(
                i,
                i + sep.len() as int,
            ));
        }
        assert forall|k: int|
            0 <= k < i && k + sep.len() <= s.len() implies #[trigger] s.subrange(
            k,
            k + sep.len() as int,
        ) != sep by {
            if k == 0 {
            } else {
                assert(t.subrange(k - 1, k - 1 + sep.len() as int) =~= s.subrange(
                    k,
                    k + sep.len() as int,
                ));
            }
        }
    }
}

/// `s` split at every occurrence of `sep`; the separators are dropped.
pub open spec fn split_sub(s: Seq<char>, sep: Seq<char>) -> Seq<Seq<char>>
    decreases s.len(),
{
    if sep.len() == 0 {
        seq![s]
    } else {
        let i = find_sub(s, sep);
        if 0 <= i && i + sep.len() <= s.len() {
            seq![s.take(i)] + split_sub(s.skip(i + sep.len() as int), sep)
        } else {
            seq![s]
        }
    }
}

/// A trimmed log line with any leading continuation marker removed.
pub open spec fn normalize_line(l: Seq<char>) -> Seq<char> {
    let t = trim_spec(l);
    if t.len() >= 2 && t[0] == '|' && t[1] == ' ' {
        t.skip(2)
    } else {
        t
    }
}

/// The fields of a normalised line, or `None` when it has fewer than two.
pub open spec fn commit_of_line(nl: Seq<char>) -> Option<CommitView> {
    let parts = split_sub(nl, " | "@);
    if parts.len() >= 2 {
        Some(
            CommitView {
                id: trim_spec(parts[0]),
                message: trim_spec(parts[1]),
                author: if parts.len() >= 3 {
                    trim_spec(parts[2])
                } else {
                    Seq::empty()
                },
                timestamp: if parts.len() >= 4 {
                    trim_spec(parts[3])
                } else {
                    Seq::empty()
                },
            },
        )
    } else {
        None
    }
}

/// Whether an entry belongs to the note.  A known title must occur in the
/// message, case-insensitively; without a title, the full-log fallback
/// keeps only messages bearing one of the operation markers.
pub open spec fn keep_commit(c: CommitView, title: Seq<char>, fallback: bool) -> bool {
    &&& c.id.len() > 0
    &&& c.message != "(empty)"@
    &&& if title.len() > 0 {
        is_substring(lower_of(c.message), lower_of(title))
    } else if fallback {
        is_substring(c.message, "Note:"@) || is_substring(c.message, "Update:"@) || is_substring(
            c.message,
            "Duplicate:"@,
        )
    } else {
        true
    }
}

/// The entries of a log, in the backend's own (oldest-first) order, kept
/// only where they match the note.
pub open spec fn commits_of_lines(lines: Seq<Seq<char>>, title: Seq<char>, fallback: bool) -> Seq<
    CommitView,
>
    decreases lines.len(),
{
    if lines.len() == 0 {
        Seq::empty()
    } else {
        let rest = commits_of_lines(lines.drop_first(), title, fallback);
        let nl = normalize_line(lines[0]);
        if nl.len() == 0 {
            rest
        } else {
            match commit_of_line(nl) {
                Some(c) => if keep_commit(c, title, fallback) {
                    seq![c] + rest
                } else {
                    rest
                },
                None => rest,
            }
        }
    }
}

/// The entries of one log text that match the note, oldest first.
pub open spec fn log_commits(text: Seq<char>, title: Seq<char>, fallback: bool) -> Seq<CommitView> {
    commits_of_lines(split_ch(text, '\n'), title, fallback)
}

/// History ordering: reconciliation reverses the matching entries, so a
/// backend log given oldest first comes back newest first, entry for
/// entry.
pub proof fn lemma_history_newest_first(text: Seq<char>, title: Seq<char>, fallback: bool, i: int)
    requires
        0 <= i < log_commits(text, title, fallback).len(),
    ensures
        log_commits(text, title, fallback).reverse()[i] == log_commits(text, title, fallback)[
            log_commits(text, title, fallback).len() - 1 - i],
{
}

/// The reconciled history of a note, newest first.  The file-scoped log is
/// preferred; when it is absent or yields nothing, the full log is
/// filtered instead, falling back to the operation markers when no title
/// is known.  The backend reports oldest first, so the result is reversed.
pub open spec fn reconcile_spec(scoped: Option<Seq<char>>, full: Seq<char>, title: Seq<char>) -> Seq<
    CommitView,
> {
    let tier1 = match scoped {
        Some(t) => log_commits(t, title, false),
        None => Seq::empty(),
    };
    if tier1.len() > 0 {
        tier1.reverse()
    } else {
        log_commits(full, title, true).reverse()
    }
}

fn find_ch_exec(v: &Vec<char>, c: char) -> (r: usize)
    ensures
        r == find_ch(v@, c),
{
    let n = v.len();
    let mut i: usize = 0;
    while i < n
        invariant
            n == v@.len(),
            i <= n,
            forall|k: int| 0 <= k < i ==> v@[k] != c,
        decreases n - i,
    {
        if v[i] == c {
            proof {
                lemma_find_ch_at(v@, c, i as int);
            }
            return i;
        }
        i += 1;
    }
    proof {
        lemma_find_ch_at(v@, c, n as int);
    }
    n
}

#[verifier::loop_isolation(false)]
fn split_ch_exec(v: &Vec<char>, c: char) -> (out: Vec<Vec<char>>)
    ensures
        out.deep_view() == split_ch(v@, c),
    decreases v@.len(),
{
    let n = v.len();
    let i = find_ch_exec(v, c);
    proof {
        lemma_find_ch(v@, c);
    }
    if i < n {
        let head = sub_chars(v, 0, i);
        let tail = sub_chars(v, i + 1, n);
        let rest = split_ch_exec(&tail, c);
        let mut out: Vec<Vec<char>> = Vec::new();
        out.push(head);
        let mut k: usize = 0;
        let ghost restview = rest.deep_view();
        proof {
            assert(out.deep_view() =~~= seq![v@.take(i as int)] + restview.subrange(0, 0));
        }
        while k < rest.len()
            invariant
                restview == rest.deep_view(),
                k <= rest@.len(),
                rest@.len() == restview.len(),
                out.deep_view() == seq![v@.take(i as int)] + restview.subrange(0, k as int),
                head@ == v@.take(i as int),
            decreases rest@.len() - k,
        {
            let item = sub_chars(&rest[k], 0, rest[k].len());
            let ghost outpre = out.deep_view();
            let ghost iv = item.deep_view();
            proof {
                assert(rest@[k as int].deep_view() =~= rest@[k as int]@);
                assert(item@ =~= restview[k as int]);
                assert(iv =~= item@);
                assert(iv == restview[k as int]);
            }
            out.push(item);
            k += 1;
            proof {
                let goal = seq![v@.take(i as int)] + restview.subrange(0, k as int);
                assert(out.deep_view().len() == goal.len());
                assert forall|j: int| 0 <= j < out.deep_view().len() implies out.deep_view()[j]
                    == goal[j] by {
                    if j < outpre.len() {
                        assert(out.deep_view()[j] == outpre[j]);
                        let oldgoal = seq![v@.take(i as int)] + restview.subrange(0, k - 1);
                        assert(outpre[j] == oldgoal[j]);
                        if j >= 1 {
                            assert(oldgoal[j] == restview.subrange(0, k - 1)[j - 1]);
                            assert(goal[j] == restview.subrange(0, k as int)[j - 1]);
                            assert(restview.subrange(0, k - 1)[j - 1] == restview[j - 1]);
                            assert(restview.subrange(0, k as int)[j - 1] == restview[j - 1]);
                        }
                    } else {
                        assert(out.deep_view()[j] == iv);
                        assert(goal[j] == restview.subrange(0, k as int)[j - 1]);
                        assert(restview.subrange(0, k as int)[j - 1] == restview[j - 1]);
                    }
                }
                assert(out.deep_view() =~= goal);
            }
        }
        proof {
            assert(restview.subrange(0, restview.len() as int) =~= restview);
            assert(out.deep_view() =~= seq![v@.take(i as int)] + restview);
        }
        out
    } else {
        let whole = sub_chars(v, 0, n);
        let mut out: Vec<Vec<char>> = Vec::new();
        out.push(whole);
        proof {
            assert(v@.take(n as int) =~= v@);
            assert(out.deep_view() =~~= seq![v@]);
        }
        out
    }
}

proof fn lemma_find_ch_at(s: Seq<char>, c: char, i: int)
    requires
        0 <= i <= s.len(),
        forall|k: int| 0 <= k < i ==> s[k] != c,
        i < s.len() ==> s[i] == c,
    ensures
        find_ch(s, c) == i,
    decreases i,
{
    if i == 0 {
        if s.len() > 0 && s[0] != c {
            assert(false);
        }
    } else {
        assert(s[0] != c);
        lemma_find_ch_at(s.drop_first(), c, i - 1);
    }
}

proof fn lemma_find_sub_at(s: Seq<char>, sep: Seq<char>, i: int)
    requires
        sep.len() > 0,
        0 <= i <= s.len(),
        forall|k: int|
            0 <= k < i && k + sep.len() <= s.len() ==> #[trigger] s.subrange(
                k,
                k + sep.len() as int,
            ) != sep,
        i + sep.len() <= s.len() ==> s.subrange(i, i + sep.len() as int) == sep,
        i < s.len() ==> i + sep.len() <= s.len(),
    ensures
        find_sub(s, sep) == i || (find_sub(s, sep) >= i && i == s.len()),
    decreases i,
{
    if s.len() < sep.len() {
        assert(i == s.len() || i + sep.len() > s.len());
        lemma_find_sub(s, sep);
    } else if i == 0 {
    } else {
        assert(s.subrange(0, 0 + sep.len() as int) != sep);
        assert(s.subrange(0, sep.len() as int) == s.subrange(0, 0 + sep.len() as int));
        let t = s.drop_first();
        assert forall|k: int|
            0 <= k < i - 1 && k + sep.len() <= t.len() implies #[trigger] t.subrange(
            k,
            k + sep.len() as int,
        ) != sep by {
            assert(t.subrange(k, k + sep.len() as int) =~= s.subrange(
                k + 1,
                k + 1 + sep.len() as int,
            ));
        }
        if i - 1 + sep.len() <= t.len() {
            assert(t.subrange(i - 1, i - 1 + sep.len() as int) =~= s.subrange(
                i,
                i + sep.len() as int,
            ));
        }
        lemma_find_sub_at(t, sep, i - 1);
    }
}

fn find_sub_exec(v: &Vec<char>, sep: &Vec<char>) -> (r: usize)
    requires
        sep@.len() > 0,
    ensures
        r == find_sub(v@, sep@) || (r == v@.len() && find_sub(v@, sep@) >= v@.len()),
        r <= v@.len(),
        r < v@.len() ==> r == find_sub(v@, sep@),
{
    let n = v.len();
    let m = sep.len();
    if m > n {
        proof {
            lemma_find_sub_at(v@, sep@, n as int);
        }
        return n;
    }
    let mut i: usize = 0;
    while i <= n - m
        invariant
            n == v@.len(),
            m == sep@.len(),
            0 < m <= n,
            i <= n - m + 1,
            forall|k: int|
                0 <= k < i && k + sep@.len() <= v@.len() ==> #[trigger] v@.subrange(
                    k,
                    k + sep@.len() as int,
                ) != sep@,
        decreases n - m - i + 1,
    {
        let mut j: usize = 0;
        let mut ok = true;
        while j < m
            invariant
                m == sep@.len(),
                n == v@.len(),
                i + m <= n,
                j <= m,
                ok ==> (forall|k: int| 0 <= k < j ==> v@[i + k] == sep@[k]),
                !ok ==> j == m && (exists|k: int| 0 <= k < m && #[trigger] v@[i + k] != sep@[k]),
            decreases m - j,
        {
            if v[i + j] != sep[j] {
                proof {
                    assert(v@[i + j] != sep@[j as int]);
                }
                ok = false;
                j = m;
            } else {
                j += 1;
            }
        }
        if ok {
            proof {
                assert(v@.subrange(i as int, i + sep@.len() as int) =~= sep@);
                lemma_find_sub_at(v@, sep@, i as int);
            }
            return i;
        }
        proof {
            if v@.subrange(i as int, i + sep@.len() as int) == sep@ {
                assert(forall|k: int|
                    0 <= k < m ==> #[trigger] v@.subrange(i as int, i + sep@.len() as int)[k]
                        == v@[i + k]);
                assert(false);
            }
        }
        i += 1;
    }
    proof {
        assert forall|k: int|
            0 <= k < n && k + sep@.len() <= v@.len() implies #[trigger] v@.subrange(
            k,
            k + sep@.len() as int,
        ) != sep@ by {
            assert(0 <= k < i);
        }
        lemma_find_sub_at(v@, sep@, n as int);
    }
    n
}

#[verifier::loop_isolation(false)]
fn split_sub_exec(v: &Vec<char>, sep: &Vec<char>) -> (out: Vec<Vec<char>>)
    requires
        sep@.len() > 0,
    ensures
        out.deep_view() == split_sub(v@, sep@),
    decreases v@.len(),
{
    let n = v.len();
    let m = sep.len();
    let i = find_sub_exec(v, sep);
    if i < n {
        proof {
            lemma_find_sub(v@, sep@);
        }
        let head = sub_chars(v, 0, i);
        let tail = sub_chars(v, i + m, n);
        let rest = split_sub_exec(&tail, sep);
        let mut out: Vec<Vec<char>> = Vec::new();
        out.push(head);
        let mut k: usize = 0;
        let ghost restview = rest.deep_view();
        proof {
            assert(out.deep_view() =~~= seq![v@.take(i as int)] + restview.subrange(0, 0));
        }
        while k < rest.len()
            invariant
                restview == rest.deep_view(),
                k <= rest@.len(),
                rest@.len() == restview.len(),
                out.deep_view() == seq![v@.take(i as int)] + restview.subrange(0, k as int),
                head@ == v@.take(i as int),
            decreases rest@.len() - k,
        {
            let item = sub_chars(&rest[k], 0, rest[k].len());
            let ghost outpre = out.deep_view();
            let ghost iv = item.deep_view();
            proof {
                assert(rest@[k as int].deep_view() =~= rest@[k as int]@);
                assert(item@ =~= restview[k as int]);
                assert(iv =~= item@);
                assert(iv == restview[k as int]);
            }
            out.push(item);
            k += 1;
            proof {
                let goal = seq![v@.take(i as int)] + restview.subrange(0, k as int);
                assert(out.deep_view().len() == goal.len());
                assert forall|j: int| 0 <= j < out.deep_view().len() implies out.deep_view()[j]
                    == goal[j] by {
                    if j < outpre.len() {
                        assert(out.deep_view()[j] == outpre[j]);
                        let oldgoal = seq![v@.take(i as int)] + restview.subrange(0, k - 1);
                        assert(outpre[j] == oldgoal[j]);
                        if j >= 1 {
                            assert(oldgoal[j] == restview.subrange(0, k - 1)[j - 1]);
                            assert(goal[j] == restview.subrange(0, k as int)[j - 1]);
                            assert(restview.subrange(0, k - 1)[j - 1] == restview[j - 1]);
                            assert(restview.subrange(0, k as int)[j - 1] == restview[j - 1]);
                        }
                    } else {
                        assert(out.deep_view()[j] == iv);
                        assert(goal[j] == restview.subrange(0, k as int)[j - 1]);
                        assert(restview.subrange(0, k as int)[j - 1] == restview[j - 1]);
                    }
                }
                assert(out.deep_view() =~= goal);
            }
        }
        proof {
            assert(restview.subrange(0, restview.len() as int) =~= restview);
            assert(out.deep_view() =~= seq![v@.take(i as int)] + restview);
        }
        out
    } else {
        let whole = sub_chars(v, 0, n);
        let mut out: Vec<Vec<char>> = Vec::new();
        out.push(whole);
        proof {
            assert(v@.take(n as int) =~= v@);
            assert(out.deep_view() =~~= seq![v@]);
            if find_sub(v@, sep@) + sep@.len() <= v@.len() {
                lemma_find_sub(v@, sep@);
                assert(find_sub(v@, sep@) < v@.len());
                assert(false);
            }
        }
        out
    }
}

/// Normalises one raw log line.
fn normalize_line_exec(l: &Vec<char>) -> (out: Vec<char>)
    ensures
        out@ == normalize_line(l@),
{
    let t = trim_chars(l);
    if t.len() >= 2 {
        let c0 = t[0];
        let c1 = t[1];
        if c0 == '|' && c1 == ' ' {
            return sub_chars(&t, 2, t.len());
        }
    }
    t
}

/// Parses the fields of a normalised line.
fn commit_of_line_exec(nl: &Vec<char>) -> (r: Option<CommitInfo>)
    ensures
        match r {
            Some(c) => commit_of_line(nl@) == Some(c@),
            None => commit_of_line(nl@) is None,
        },
{
    let sep = chars_of(" | ");
    proof {
        reveal_strlit(" | ");
    }
    let parts = split_sub_exec(nl, &sep);
    let ghost pv = parts.deep_view();
    proof {
        assert(pv == split_sub(nl@, " | "@));
        assert(pv.len() == parts@.len());
    }
    if parts.len() < 2 {
        return None;
    }
    proof {
        assert(parts@[0].deep_view() =~= parts@[0]@);
        assert(parts@[1].deep_view() =~= parts@[1]@);
        if parts@.len() >= 3 {
            assert(parts@[2].deep_view() =~= parts@[2]@);
        }
        if parts@.len() >= 4 {
            assert(parts@[3].deep_view() =~= parts@[3]@);
        }
    }
    let id = trim_chars(&parts[0]);
    let message = trim_chars(&parts[1]);
    let author = if parts.len() >= 3 {
        trim_chars(&parts[2])
    } else {
        Vec::new()
    };
    let timestamp = if parts.len() >= 4 {
        trim_chars(&parts[3])
    } else {
        Vec::new()
    };
    let c = CommitInfo {
        id: chars_to_string(&id),
        message: chars_to_string(&message),
        author: chars_to_string(&author),
        timestamp: chars_to_string(&timestamp),
    };
    Some(c)
}

/// Decides whether an entry is kept for the note.
fn keep_commit_exec(c: &CommitInfo, title: &str, fallback: bool) -> (r: bool)
    ensures
        r == keep_commit(c@, title@, fallback),
{
    if c.id.as_str().unicode_len() == 0 {
        return false;
    }
    if str_eq(c.message.as_str(), "(empty)") {
        return false;
    }
    if title.unicode_len() > 0 {
        let ml = to_lower(c.message.as_str());
        let tl = to_lower(title);
        let mv = chars_of(ml.as_str());
        let tv = chars_of(tl.as_str());
        has_substring(&mv, &tv)
    } else if fallback {
        let mv = chars_of(c.message.as_str());
        let n1 = chars_of("Note:");
        let n2 = chars_of("Update:");
        let n3 = chars_of("Duplicate:");
        has_substring(&mv, &n1) || has_substring(&mv, &n2) || has_substring(&mv, &n3)
    } else {
        true
    }
}

/// `commits_of_lines` grows on the right one line at a time.
proof fn lemma_commits_push(lines: Seq<Seq<char>>, l: Seq<char>, title: Seq<char>, fallback: bool)
    ensures
        commits_of_lines(lines.push(l), title, fallback) == commits_of_lines(
            lines,
            title,
            fallback,
        ) + ({
            let nl = normalize_line(l);
            if nl.len() == 0 {
                Seq::<CommitView>::empty()
            } else {
                match commit_of_line(nl) {
                    Some(c) => if keep_commit(c, title, fallback) {
                        seq![c]
                    } else {
                        Seq::empty()
                    },
                    None => Seq::empty(),
                }
            }
        }),
    decreases lines.len(),
{
    let q = lines.push(l);
    let tailc = ({
        let nl = normalize_line(l);
        if nl.len() == 0 {
            Seq::<CommitView>::empty()
        } else {
            match commit_of_line(nl) {
                Some(c) => if keep_commit(c, title, fallback) {
                    seq![c]
                } else {
                    Seq::empty()
                },
                None => Seq::empty(),
            }
        }
    });
    if lines.len() == 0 {
        assert(q.len() == 1);
        assert(q[0] == l);
        assert(q.drop_first() =~= Seq::<Seq<char>>::empty());
        assert(commits_of_lines(Seq::empty(), title, fallback) == Seq::<CommitView>::empty());
        assert(commits_of_lines(q, title, fallback) =~= tailc);
        assert(commits_of_lines(lines, title, fallback) + tailc =~= tailc);
    } else {
        assert(q[0] == lines[0]);
        assert(q.drop_first() =~= lines.drop_first().push(l));
        lemma_commits_push(lines.drop_first(), l, title, fallback);
        let rest = commits_of_lines(lines.drop_first(), title, fallback);
        let nl0 = normalize_line(lines[0]);
        if nl0.len() == 0 {
            assert(commits_of_lines(q, title, fallback) == rest + tailc);
            assert(commits_of_lines(lines, title, fallback) == rest);
        } else {
            match commit_of_line(nl0) {
                Some(c) => {
                    if keep_commit(c, title, fallback) {
                        assert(commits_of_lines(q, title, fallback) == seq![c] + (rest + tailc));
                        assert(commits_of_lines(lines, title, fallback) == seq![c] + rest);
                        assert(seq![c] + (rest + tailc) =~= (seq![c] + rest) + tailc);
                    } else {
                        assert(commits_of_lines(q, title, fallback) == rest + tailc);
                    }
                },
                None => {
                    assert(commits_of_lines(q, title, fallback) == rest + tailc);
                },
            }
        }
    }
}

/// Collects the matching entries of one log text, oldest first.
fn log_commits_exec(text: &str, title: &str, fallback: bool) -> (out: Vec<CommitInfo>)
    ensures
        out.deep_view() == log_commits(text@, title@, fallback),
{
    let tv = chars_of(text);
    let lines = split_ch_exec(&tv, '\n');
    let ghost lv = lines.deep_view();
    let mut out: Vec<CommitInfo> = Vec::new();
    let mut k: usize = 0;
    proof {
        assert(lv.subrange(0, 0) =~= Seq::<Seq<char>>::empty());
        assert(out.deep_view() =~= commits_of_lines(lv.subrange(0, 0), title@, fallback));
    }
    while k < lines.len()
        invariant
            lv == lines.deep_view(),
            lines@.len() == lv.len(),
            k <= lv.len(),
            out.deep_view() == commits_of_lines(lv.subrange(0, k as int), title@, fallback),
        decreases lv.len() - k,
    {
        let ghost pre = lv.subrange(0, k as int);
        let ghost outpre = out.deep_view();
        proof {
            assert(lines@[k as int].deep_view() =~= lines@[k as int]@);
        }
        let nl = normalize_line_exec(&lines[k]);
        if nl.len() > 0 {
            match commit_of_line_exec(&nl) {
                Some(c) => {
                    if keep_commit_exec(&c, title, fallback) {
                        out.push(c);
                    }
                },
                None => {},
            }
        }
        proof {
            lemma_commits_push(pre, lv[k as int], title@, fallback);
            assert(pre.push(lv[k as int]) =~= lv.subrange(0, k + 1 as int));
            assert(out.deep_view() =~= commits_of_lines(lv.subrange(0, k + 1 as int), title@,
            fallback));
        }
        k += 1;
    }
    proof {
        assert(lv.subrange(0, lv.len() as int) =~= lv);
    }
    out
}

/// Reverses a list of entries.
#[verifier::loop_isolation(false)]
fn reverse_commits(v: Vec<CommitInfo>) -> (out: Vec<CommitInfo>)
    ensures
        out.deep_view() == v.deep_view().reverse(),
{
    let ghost sv = v.deep_view();
    let n = v.len();
    let mut out: Vec<CommitInfo> = Vec::new();
    let mut k: usize = 0;
    while k < n
        invariant
            sv == v.deep_view(),
            n == v@.len(),
            sv.len() == n,
            k <= n,
            out.deep_view().len() == k,
            forall|j: int| 0 <= j < k ==> out.deep_view()[j] == sv[n - 1 - j],
        decreases n - k,
    {
        let item = CommitInfo {
            id: v[n - 1 - k].id.clone(),
            message: v[n - 1 - k].message.clone(),
            author: v[n - 1 - k].author.clone(),
            timestamp: v[n - 1 - k].timestamp.clone(),
        };
        let ghost outpre = out.deep_view();
        let ghost iv = item@;
        proof {
            assert(iv == sv[n - 1 - k as int]);
        }
        out.push(item);
        k += 1;
        proof {
            assert(out.deep_view().len() == k);
            assert forall|j: int| 0 <= j < k implies out.deep_view()[j] == sv[n - 1 - j] by {
                if j < k - 1 {
                    assert(out.deep_view()[j] == outpre[j]);
                    assert(outpre[j] == sv[n - 1 - j]);
                } else {
                    assert(out.deep_view()[j] == iv);
                }
            }
        }
    }
    proof {
        assert(out.deep_view() =~= sv.reverse());
    }
    out
}

/// The note-repository view of the version-control backend: it holds the
/// configured repository path and reconciles the backend's textual logs
/// with a note.  Invoking the backend is the caller's task; this type
/// works on the log text it produced.
pub struct Jujutsu {
    repo_path: String,
}

impl Jujutsu {
    /// The configured repository root.
    pub closed spec fn path_view(&self) -> Seq<char> {
        self.repo_path@
    }

    pub fn new(repo_path: String) -> (r: Jujutsu)
        ensures
            r.path_view() == repo_path@,
    {
        Jujutsu { repo_path }
    }

    pub fn repo_path(&self) -> (r: &str)
        ensures
            r@ == self.path_view(),
    {
        self.repo_path.as_str()
    }

    /// Reconciles a note's history from the backend's logs: `scoped_log` is
    /// the file-scoped query result where one was obtained, `full_log` the
    /// unscoped log, `note_title` the current title or empty when unknown.
    /// Entries arrive oldest first and are returned newest first.
    pub fn get_file_history_with_title(
        &self,
        scoped_log: Option<&str>,
        full_log: &str,
        note_title: &str,
    ) -> (r: Vec<CommitInfo>)
        ensures
            r.deep_view() == reconcile_spec(
                match scoped_log {
                    Some(t) => Some(t@),
                    None => None,
                },
                full_log@,
                note_title@,
            ),
    {
        match scoped_log {
            Some(text) => {
                let tier1 = log_commits_exec(text, note_title, false);
                if tier1.len() > 0 {
                    proof {
                        assert(tier1.deep_view().len() == tier1@.len());
                    }
                    reverse_commits(tier1)
                } else {
                    proof {
                        assert(tier1.deep_view().len() == tier1@.len());
                    }
                    reverse_commits(log_commits_exec(full_log, note_title, true))
                }
            },
            None => reverse_commits(log_commits_exec(full_log, note_title, true)),
        }
    }

    /// History for a note file with no known title.
    pub fn get_file_history(&self, scoped_log: Option<&str>, full_log: &str) -> (r: Vec<CommitInfo>)
        ensures
            r.deep_view() == reconcile_spec(
                match scoped_log {
                    Some(t) => Some(t@),
                    None => None,
                },
                full_log@,
                Seq::empty(),
            ),
    {
        let r = self.get_file_history_with_title(scoped_log, full_log, "");
        proof {
            reveal_strlit("");
            assert(""@ =~= Seq::<char>::empty());
        }
        r
    }
}

} // verus!
