//! Commits: the commits of a project within a time window, and the records
//! that `git log` prints.
use vstd::prelude::*;
use crate::json::{json_string_array, parse_string_array};
use crate::models::{clone_opt, commits_view, opt_text, Commit, CommitView};
use crate::text::{decimal, lines_of, parsed_i64, parse_i64, same_text, split_on, split_text, text_lines, texts, write_decimal};

verus! {

/// A commit as the diary stores it, under the id of its project.
#[derive(Debug, Clone, PartialEq, Eq)]
pub struct StoredCommit {
    pub hash: String,
    pub project_id: String,
    pub message: String,
    pub author: Option<String>,
    pub committed_at_ms: i64,
}

pub struct StoredView {
    pub hash: Seq<char>,
    pub project_id: Seq<char>,
    pub message: Seq<char>,
    pub author: Option<Seq<char>>,
    pub committed_at_ms: i64,
}

impl View for StoredCommit {
    type V = StoredView;

    open spec fn view(&self) -> StoredView {
        StoredView {
            hash: self.hash@,
            project_id: self.project_id@,
            message: self.message@,
            author: opt_text(self.author),
            committed_at_ms: self.committed_at_ms,
        }
    }
}

pub open spec fn stored_view(v: Seq<StoredCommit>) -> Seq<StoredView> {
    v.map_values(|c: StoredCommit| c@)
}

/// The stored commits of project `pid` made within `[from, to]`, in their order.
pub open spec fn window_of(cs: Seq<StoredView>, pid: Seq<char>, from: int, to: int) -> Seq<StoredView> {
    cs.filter(|c: StoredView| c.project_id == pid && from <= c.committed_at_ms <= to)
}

/// A stored commit as the timeline shows it, without a project name.
pub open spec fn as_commit(c: StoredView) -> CommitView {
    CommitView {
        hash: c.hash,
        message: c.message,
        author: c.author,
        committed_at_ms: c.committed_at_ms,
        project_name: None,
    }
}

/// Oldest first.
pub open spec fn by_time(s: Seq<CommitView>) -> bool {
    forall|i: int, j: int| 0 <= i < j < s.len() ==> s[i].committed_at_ms <= s[j].committed_at_ms
}

/// `s` holds the commits of `w`, each as often, oldest first (commits made
/// at the same moment in any order).
pub open spec fn arranges(s: Seq<CommitView>, w: Seq<CommitView>) -> bool {
    by_time(s) && s.to_multiset() == w.to_multiset()
}

/// The position before the first commit of `s` made after `t`.
pub open spec fn slot_after(s: Seq<CommitView>, t: int) -> int
    decreases s.len(),
{
    if s.len() == 0 || s[0].committed_at_ms > t {
        0
    } else {
        1 + slot_after(s.drop_first(), t)
    }
}

/// `s` with `x` put after the commits made at its time or earlier.
pub open spec fn insert_by_time(s: Seq<CommitView>, x: CommitView) -> Seq<CommitView> {
    s.insert(slot_after(s, x.committed_at_ms as int), x)
}

/// `s` sorted oldest first, commits made at the same moment kept in the
/// order of `s`.
pub open spec fn sort_by_time(s: Seq<CommitView>) -> Seq<CommitView>
    decreases s.len(),
{
    if s.len() == 0 {
        s
    } else {
        insert_by_time(sort_by_time(s.drop_last()), s.last())
    }
}

proof fn lemma_slot_after(s: Seq<CommitView>, t: int, j: int)
    requires
        0 <= j <= s.len(),
        forall|q: int| 0 <= q < j ==> (#[trigger] s[q]).committed_at_ms <= t,
        j < s.len() ==> s[j].committed_at_ms > t,
    ensures
        slot_after(s, t) == j,
    decreases j,
{
    if j > 0 {
        assert(s[0].committed_at_ms <= t);
        let r = s.drop_first();
        assert forall|q: int| 0 <= q < j - 1 implies (#[trigger] r[q]).committed_at_ms <= t by {
            assert(r[q] == s[q + 1]);
        }
        if j - 1 < r.len() {
            assert(r[j - 1] == s[j]);
        }
        lemma_slot_after(r, t, j - 1);
    }
}

proof fn lemma_slot_after_bounds(s: Seq<CommitView>, t: int)
    ensures
        0 <= slot_after(s, t) <= s.len(),
    decreases s.len(),
{
    if s.len() > 0 && s[0].committed_at_ms <= t {
        lemma_slot_after_bounds(s.drop_first(), t);
    }
}

/// Sorting by time keeps every commit, each as often, and puts them oldest
/// first.
pub proof fn lemma_sort_by_time_keeps(s: Seq<CommitView>)
    ensures
        sort_by_time(s).to_multiset() == s.to_multiset(),
        sort_by_time(s).len() == s.len(),
    decreases s.len(),
{
    broadcast use vstd::seq_lib::group_to_multiset_ensures;

    if s.len() > 0 {
        let r = s.drop_last();
        lemma_sort_by_time_keeps(r);
        let t = sort_by_time(r);
        lemma_slot_after_bounds(t, s.last().committed_at_ms as int);
        vstd::seq_lib::to_multiset_insert(t, slot_after(t, s.last().committed_at_ms as int), s.last());
        assert(r.push(s.last()) =~= s);
    }
}

/// The window's commits as the timeline shows them.
pub open spec fn window_commits(cs: Seq<StoredView>, pid: Seq<char>, from: int, to: int) -> Seq<
    CommitView,
> {
    window_of(cs, pid, from, to).map_values(|c: StoredView| as_commit(c))
}

proof fn lemma_window_take_step(cs: Seq<StoredView>, k: int, pid: Seq<char>, from: int, to: int)
    requires
        0 <= k < cs.len(),
    ensures
        window_commits(cs.take(k + 1), pid, from, to) == if cs[k].project_id == pid && from
            <= cs[k].committed_at_ms <= to {
            window_commits(cs.take(k), pid, from, to).push(as_commit(cs[k]))
        } else {
            window_commits(cs.take(k), pid, from, to)
        },
{
    reveal(Seq::filter);
    assert(cs.take(k + 1).drop_last() =~= cs.take(k));
    assert(cs.take(k + 1).last() == cs[k]);
    let w = window_of(cs.take(k), pid, from, to);
    assert(w.push(cs[k]).map_values(|c: StoredView| as_commit(c)) =~= w.map_values(
        |c: StoredView| as_commit(c),
    ).push(as_commit(cs[k])));
}

/// A commit is among the commits of the window of project `pid` over
/// `[from, to]` exactly when it is a commit of `pid` made at a time from
/// `from` to `to`, both included.
pub proof fn lemma_window_members(cs: Seq<StoredView>, pid: Seq<char>, from: int, to: int, x: CommitView)
    ensures
        sort_by_time(window_commits(cs, pid, from, to)).contains(x) <==> exists|k: int|
            0 <= k < cs.len() && #[trigger] as_commit(cs[k]) == x && cs[k].project_id == pid && from
                <= cs[k].committed_at_ms <= to,
{
    broadcast use vstd::seq_lib::group_to_multiset_ensures;
    broadcast use vstd::seq_lib::group_filter_ensures;

    let w = window_commits(cs, pid, from, to);
    let wo = window_of(cs, pid, from, to);
    let pred = |c: StoredView| c.project_id == pid && from <= c.committed_at_ms <= to;
    assert(wo == cs.filter(pred));
    lemma_sort_by_time_keeps(w);
    vstd::seq_lib::to_multiset_contains(w, x);
    vstd::seq_lib::to_multiset_contains(sort_by_time(w), x);
    if w.contains(x) {
        let j = choose|j: int| 0 <= j < w.len() && w[j] == x;
        assert(wo.contains(wo[j]));
        cs.lemma_filter_contains_rev(pred, wo[j]);
        let k = choose|k: int| 0 <= k < cs.len() && cs[k] == wo[j];
        assert(pred(wo[j]));
        assert(as_commit(cs[k]) == x);
    }
    if exists|k: int|
        0 <= k < cs.len() && #[trigger] as_commit(cs[k]) == x && cs[k].project_id == pid && from
            <= cs[k].committed_at_ms <= to {
        let k = choose|k: int|
            0 <= k < cs.len() && #[trigger] as_commit(cs[k]) == x && cs[k].project_id == pid && from
                <= cs[k].committed_at_ms <= to;
        cs.lemma_filter_contains(pred, k);
        let j = choose|j: int| 0 <= j < wo.len() && wo[j] == cs[k];
        assert(w[j] == x);
        assert(w.contains(x));
    }
}

/// The commits of project `project_id` made within `[from_ms, to_ms]`,
/// oldest first; commits made at the same moment in the order of `commits`.
pub fn in_window(commits: &Vec<StoredCommit>, project_id: &str, from_ms: i64, to_ms: i64) -> (res:
    Vec<Commit>)
    ensures
        commits_view(res@) == sort_by_time(
            window_commits(stored_view(commits@), project_id@, from_ms as int, to_ms as int),
        ),
        arranges(
            commits_view(res@),
            window_commits(stored_view(commits@), project_id@, from_ms as int, to_ms as int),
        ),
{
    let ghost cs = stored_view(commits@);
    let mut res: Vec<Commit> = Vec::new();
    let mut k: usize = 0;
    proof {
        reveal(Seq::filter);
        assert(cs.take(0) =~= Seq::<StoredView>::empty());
        assert(commits_view(res@) =~= window_commits(cs.take(0), project_id@, from_ms as int, to_ms as int));
    }
    while k < commits.len()
        invariant
            cs == stored_view(commits@),
            k <= commits.len(),
            by_time(commits_view(res@)),
            commits_view(res@) == sort_by_time(
                window_commits(cs.take(k as int), project_id@, from_ms as int, to_ms as int),
            ),
            commits_view(res@).to_multiset() == window_commits(
                cs.take(k as int),
                project_id@,
                from_ms as int,
                to_ms as int,
            ).to_multiset(),
        decreases commits.len() - k,
    {
        proof {
            lemma_window_take_step(cs, k as int, project_id@, from_ms as int, to_ms as int);
        }
        let c = &commits[k];
        assert(cs[k as int] == c@);
        if same_text(c.project_id.as_str(), project_id) && from_ms <= c.committed_at_ms
            && c.committed_at_ms <= to_ms {
            let t = c.committed_at_ms;
            let mut j: usize = 0;
            while j < res.len() && res[j].committed_at_ms <= t
                invariant
                    j <= res.len(),
                    forall|q: int| 0 <= q < j ==> (#[trigger] res@[q]).committed_at_ms <= t,
                decreases res.len() - j,
            {
                j = j + 1;
            }
            let entry = Commit {
                hash: c.hash.clone(),
                message: c.message.clone(),
                author: clone_opt(&c.author),
                committed_at_ms: t,
                project_name: None,
            };
            assert(entry@ == as_commit(c@));
            let ghost before = commits_view(res@);
            let ghost old_res = res@;
            proof {
                assert forall|q: int| 0 <= q < j implies (#[trigger] before[q]).committed_at_ms <= t by {
                    assert(before[q] == old_res[q]@);
                }
                if j < before.len() {
                    assert(before[j as int] == old_res[j as int]@);
                }
                lemma_slot_after(before, t as int, j as int);
                let w = window_commits(cs.take(k + 1), project_id@, from_ms as int, to_ms as int);
                assert(w.drop_last() == window_commits(cs.take(k as int), project_id@, from_ms as int, to_ms as int));
                assert(w.last() == as_commit(c@));
            }
            res.insert(j, entry);
            proof {
                broadcast use vstd::seq_lib::group_to_multiset_ensures;
                let after = commits_view(res@);
                assert(after =~= before.insert(j as int, as_commit(c@)));
                vstd::seq_lib::to_multiset_insert(before, j as int, as_commit(c@));
                assert forall|p: int, q: int| 0 <= p < q < after.len() implies after[p].committed_at_ms
                    <= after[q].committed_at_ms by {
                    if j < before.len() {
                        assert(old_res[j as int].committed_at_ms > t);
                    }
                    if q < j {
                        assert(after[p] == before[p] && after[q] == before[q]);
                    } else if q == j {
                        assert(after[p] == before[p]);
                        assert(old_res[p].committed_at_ms <= t);
                    } else if p == j {
                        assert(after[q] == before[q - 1]);
                        if q - 1 > j {
                            assert(before[j as int].committed_at_ms <= before[q - 1].committed_at_ms);
                        }
                    } else if p < j {
                        assert(after[p] == before[p] && after[q] == before[q - 1]);
                    } else {
                        assert(after[p] == before[p - 1] && after[q] == before[q - 1]);
                    }
                }
            }
        }
        k = k + 1;
    }
    assert(cs.take(commits.len() as int) =~= cs);
    res
}


// ---------------------------------------------------------------- git log

/// The separator between the fields of a `git log` record (`%x1f`).
pub const FIELD_SEP: char = '\u{1f}';

/// The arguments after `-C <repo>` that ask `git log` for the last `limit`
/// commits, one record per line: hash, author, time in seconds, subject.
pub open spec fn log_args_spec(limit: u32) -> Seq<Seq<char>> {
    seq!["log"@, "-n"@ + decimal(limit as nat), "--pretty=format:%H%x1f%an%x1f%at%x1f%s"@]
}

pub fn log_args(limit: u32) -> (res: Vec<String>)
    ensures
        texts(res@) == log_args_spec(limit),
{
    let mut n = String::from_str("-n");
    write_decimal(&mut n, limit as u64);
    let mut res: Vec<String> = Vec::new();
    res.push(String::from_str("log"));
    res.push(n);
    res.push(String::from_str("--pretty=format:%H%x1f%an%x1f%at%x1f%s"));
    assert(texts(res@) =~= log_args_spec(limit));
    res
}

/// The seconds field of a record: its value, or 0 when it is no number.
pub open spec fn record_seconds(field: Seq<char>) -> int {
    match parsed_i64(field) {
        Some(v) => v as int,
        None => 0,
    }
}

/// A line is a record when it has exactly four fields and a hash.
pub open spec fn is_record(parts: Seq<Seq<char>>) -> bool {
    parts.len() == 4 && parts[0].len() > 0
}

/// The time of every record, in milliseconds, fits an `i64`.
pub open spec fn log_fits(lines: Seq<Seq<char>>) -> bool {
    forall|i: int|
        0 <= i < lines.len() && is_record(split_on(#[trigger] lines[i], FIELD_SEP)) ==> i64::MIN
            <= record_seconds(split_on(lines[i], FIELD_SEP)[2]) * 1000 <= i64::MAX
}

/// The commit of a record line; none for any other line.
pub open spec fn line_commit(line: Seq<char>) -> Option<CommitView> {
    let parts = split_on(line, FIELD_SEP);
    if is_record(parts) {
        Some(
            CommitView {
                hash: parts[0],
                message: parts[3],
                author: if parts[1].len() > 0 {
                    Some(parts[1])
                } else {
                    None
                },
                committed_at_ms: (record_seconds(parts[2]) * 1000) as i64,
                project_name: None,
            },
        )
    } else {
        None
    }
}

/// The commits of the record lines, in their order.
pub open spec fn log_commits(lines: Seq<Seq<char>>) -> Seq<CommitView>
    decreases lines.len(),
{
    if lines.len() == 0 {
        Seq::empty()
    } else {
        log_commits(lines.drop_last()) + match line_commit(lines.last()) {
            Some(c) => seq![c],
            None => Seq::empty(),
        }
    }
}

/// The commits that `git log` printed in `text`, one record per line; other
/// lines are skipped. None when the time of a record, in milliseconds, does
/// not fit an `i64`.
pub fn parse_log(text: &str) -> (res: Option<Vec<Commit>>)
    ensures
        match res {
            Some(v) => log_fits(text_lines(text@)) && commits_view(v@) == log_commits(
                text_lines(text@),
            ),
            None => !log_fits(text_lines(text@)),
        },
{
    let lines = lines_of(text);
    let ghost ls = text_lines(text@);
    let mut res: Vec<Commit> = Vec::new();
    let mut k: usize = 0;
    assert(ls.take(0) =~= Seq::<Seq<char>>::empty());
    while k < lines.len()
        invariant
            ls == text_lines(text@),
            texts(lines@) == ls,
            k <= lines.len(),
            commits_view(res@) == log_commits(ls.take(k as int)),
            log_fits(ls.take(k as int)),
        decreases lines.len() - k,
    {
        let parts = split_text(lines[k].as_str(), FIELD_SEP);
        let ghost line = ls[k as int];
        assert(line == lines@[k as int]@);
        assert(ls.take(k + 1).drop_last() =~= ls.take(k as int));
        assert(ls.take(k + 1).last() == line);
        let ghost before = commits_view(res@);
        if parts.len() == 4 && !parts[0].as_str().is_empty() {
            assert(texts(parts@)[0] == parts@[0]@);
            let secs: i64 = match parse_i64(parts[2].as_str()) {
                Some(v) => v,
                None => 0,
            };
            assert(secs == record_seconds(split_on(line, FIELD_SEP)[2]));
            if secs > 9223372036854775 || secs < -9223372036854775 {
                assert(!log_fits(ls)) by {
                    assert(ls[k as int] == line);
                    assert(is_record(split_on(ls[k as int], FIELD_SEP)));
                    assert(record_seconds(split_on(ls[k as int], FIELD_SEP)[2]) == secs);
                    assert(secs * 1000 > i64::MAX || secs * 1000 < i64::MIN);
                }
                return None;
            }
            let author = if parts[1].as_str().is_empty() {
                None
            } else {
                Some(parts[1].clone())
            };
            let c = Commit {
                hash: parts[0].clone(),
                message: parts[3].clone(),
                author,
                committed_at_ms: secs * 1000,
                project_name: None,
            };
            assert(Some(c@) == line_commit(line));
            res.push(c);
            assert(commits_view(res@) =~= before + seq![c@]);
        } else {
            assert(line_commit(line) is None);
            assert(commits_view(res@) =~= before + Seq::<CommitView>::empty());
        }
        assert(log_fits(ls.take(k + 1))) by {
            assert forall|i: int|
                0 <= i < ls.take(k + 1).len() && is_record(
                    split_on(#[trigger] ls.take(k + 1)[i], FIELD_SEP),
                ) implies i64::MIN <= record_seconds(split_on(ls.take(k + 1)[i], FIELD_SEP)[2]) * 1000
                <= i64::MAX by {
                if i < k {
                    assert(ls.take(k + 1)[i] == ls.take(k as int)[i]);
                }
            }
        }
        k = k + 1;
    }
    assert(ls.take(lines.len() as int) =~= ls);
    Some(res)
}

// ---------------------------------------------------------------- discovery

/// A directory one level below a workspace root: whether it is a directory,
/// whether it holds `.git`, and, when it was listed, its own entries.
#[derive(Debug, Clone, PartialEq, Eq)]
pub struct EntryListing {
    pub path: String,
    pub is_dir: bool,
    pub is_repo: bool,
    pub children: Option<Vec<ChildListing>>,
}

/// An entry two levels below a workspace root.
#[derive(Debug, Clone, PartialEq, Eq)]
pub struct ChildListing {
    pub path: String,
    pub is_dir: bool,
    pub is_repo: bool,
}

/// A workspace root: whether it is a directory and, when it could be listed,
/// its entries.
#[derive(Debug, Clone, PartialEq, Eq)]
pub struct RootListing {
    pub is_dir: bool,
    pub entries: Option<Vec<EntryListing>>,
}

pub open spec fn child_repos(cs: Seq<ChildListing>) -> Seq<Seq<char>>
    decreases cs.len(),
{
    if cs.len() == 0 {
        Seq::empty()
    } else {
        child_repos(cs.drop_last()) + if cs.last().is_dir && cs.last().is_repo {
            seq![cs.last().path@]
        } else {
            Seq::empty()
        }
    }
}

/// A directory entry is a repository itself, or, if not, the repositories
/// among its own entries count.
pub open spec fn entry_repos(e: EntryListing) -> Seq<Seq<char>> {
    if !e.is_dir {
        Seq::empty()
    } else if e.is_repo {
        seq![e.path@]
    } else {
        match e.children {
            Some(cs) => child_repos(cs@),
            None => Seq::empty(),
        }
    }
}

pub open spec fn entries_repos(es: Seq<EntryListing>) -> Seq<Seq<char>>
    decreases es.len(),
{
    if es.len() == 0 {
        Seq::empty()
    } else {
        entries_repos(es.drop_last()) + entry_repos(es.last())
    }
}

pub open spec fn root_repos(r: RootListing) -> Seq<Seq<char>> {
    if !r.is_dir {
        Seq::empty()
    } else {
        match r.entries {
            Some(es) => entries_repos(es@),
            None => Seq::empty(),
        }
    }
}

/// The repositories found under the workspace roots, up to two levels deep,
/// in walking order.
pub open spec fn discovered(roots: Seq<RootListing>) -> Seq<Seq<char>>
    decreases roots.len(),
{
    if roots.len() == 0 {
        Seq::empty()
    } else {
        discovered(roots.drop_last()) + root_repos(roots.last())
    }
}

fn push_child_repos(out: &mut Vec<String>, cs: &Vec<ChildListing>)
    ensures
        texts(final(out)@) == texts(old(out)@) + child_repos(cs@),
{
    let ghost start = texts(out@);
    let mut k: usize = 0;
    assert(cs@.take(0) =~= Seq::<ChildListing>::empty());
    assert(texts(out@) =~= start + child_repos(cs@.take(0)));
    while k < cs.len()
        invariant
            k <= cs.len(),
            texts(out@) == start + child_repos(cs@.take(k as int)),
        decreases cs.len() - k,
    {
        assert(cs@.take(k + 1).drop_last() =~= cs@.take(k as int));
        assert(cs@.take(k + 1).last() == cs@[k as int]);
        let ghost before = texts(out@);
        if cs[k].is_dir && cs[k].is_repo {
            out.push(cs[k].path.clone());
            assert(texts(out@) =~= before.push(cs@[k as int].path@));
        }
        assert(texts(out@) =~= start + child_repos(cs@.take(k + 1)));
        k = k + 1;
    }
    assert(cs@.take(cs.len() as int) =~= cs@);
}

/// The repositories to register: each directory below a root that holds
/// `.git`, and, below a directory that does not, each of its directories
/// that does.
pub fn discover_repos(roots: &Vec<RootListing>) -> (res: Vec<String>)
    ensures
        texts(res@) == discovered(roots@),
{
    let mut out: Vec<String> = Vec::new();
    let mut r: usize = 0;
    assert(roots@.take(0) =~= Seq::<RootListing>::empty());
    assert(texts(out@) =~= discovered(roots@.take(0)));
    while r < roots.len()
        invariant
            r <= roots.len(),
            texts(out@) == discovered(roots@.take(r as int)),
        decreases roots.len() - r,
    {
        let ghost base = texts(out@);
        assert(roots@.take(r + 1).drop_last() =~= roots@.take(r as int));
        assert(roots@.take(r + 1).last() == roots@[r as int]);
        let root = &roots[r];
        if root.is_dir {
            match &root.entries {
                Some(es) => {
                    let mut k: usize = 0;
                    assert(es@.take(0) =~= Seq::<EntryListing>::empty());
                    assert(texts(out@) =~= base + entries_repos(es@.take(0)));
                    while k < es.len()
                        invariant
                            k <= es.len(),
                            texts(out@) == base + entries_repos(es@.take(k as int)),
                        decreases es.len() - k,
                    {
                        let ghost before = texts(out@);
                        assert(es@.take(k + 1).drop_last() =~= es@.take(k as int));
                        assert(es@.take(k + 1).last() == es@[k as int]);
                        let e = &es[k];
                        if e.is_dir {
                            if e.is_repo {
                                out.push(e.path.clone());
                                assert(texts(out@) =~= before + entry_repos(*e));
                            } else {
                                match &e.children {
                                    Some(cs) => {
                                        push_child_repos(&mut out, cs);
                                    },
                                    None => {
                                        assert(texts(out@) =~= before + entry_repos(*e));
                                    },
                                }
                            }
                        } else {
                            assert(texts(out@) =~= before + entry_repos(*e));
                        }
                        assert(texts(out@) =~= base + entries_repos(es@.take(k + 1)));
                        k = k + 1;
                    }
                    assert(es@.take(es.len() as int) =~= es@);
                },
                None => {},
            }
        }
        assert(texts(out@) =~= base + root_repos(roots@[r as int]));
        r = r + 1;
    }
    assert(roots@.take(roots.len() as int) =~= roots@);
    out
}

/// Registering a repository found a new project when none had its path
/// before and the upsert went through.
pub fn is_new_repo(before: i64, upserted: bool) -> (res: bool)
    ensures
        res == (upserted && before == 0),
{
    upserted && before == 0
}


// ---------------------------------------------------------------- roots

/// The workspace roots: the stored JSON array of paths when there is one
/// that reads as such, else `defaults`.
pub fn workspace_roots(state: Option<String>, defaults: Vec<String>) -> (res: Vec<String>)
    ensures
        texts(res@) == match state {
            Some(s) => match json_string_array(s@) {
                Some(v) => v,
                None => texts(defaults@),
            },
            None => texts(defaults@),
        },
{
    match state {
        Some(s) => match parse_string_array(s.as_str()) {
            Some(v) => v,
            None => defaults,
        },
        None => defaults,
    }
}

/// Every workspace root is walked: the repositories found under two lists
/// of roots one after the other are those found under the first, then those
/// found under the second.
pub proof fn lemma_discovered_concat(a: Seq<RootListing>, b: Seq<RootListing>)
    ensures
        discovered(a + b) == discovered(a) + discovered(b),
    decreases b.len(),
{
    if b.len() == 0 {
        assert(a + b =~= a);
        assert(discovered(a) + discovered(b) =~= discovered(a));
    } else {
        lemma_discovered_concat(a, b.drop_last());
        assert((a + b).drop_last() =~= a + b.drop_last());
        assert((a + b).last() == b.last());
        assert(discovered(a + b) =~= discovered(a) + discovered(b));
    }
}

proof fn lemma_entries_repos_has(es: Seq<EntryListing>, t: int)
    requires
        0 <= t < es.len(),
    ensures
        forall|x: Seq<char>| entry_repos(es[t]).contains(x) ==> #[trigger] entries_repos(es).contains(x),
    decreases es.len(),
{
    let prev = entries_repos(es.drop_last());
    assert(entries_repos(es) == prev + entry_repos(es.last()));
    assert forall|x: Seq<char>| entry_repos(es[t]).contains(x) implies #[trigger] entries_repos(es).contains(x) by {
        if t == es.len() - 1 {
            let q = choose|q: int| 0 <= q < entry_repos(es[t]).len() && entry_repos(es[t])[q] == x;
            assert(entries_repos(es)[prev.len() + q] == x);
        } else {
            assert(es.drop_last()[t] == es[t]);
            lemma_entries_repos_has(es.drop_last(), t);
            assert(prev.contains(x));
            let q = choose|q: int| 0 <= q < prev.len() && prev[q] == x;
            assert(entries_repos(es)[q] == x);
        }
    }
}

proof fn lemma_child_repos_has(cs: Seq<ChildListing>, u: int)
    requires
        0 <= u < cs.len(),
        cs[u].is_dir && cs[u].is_repo,
    ensures
        child_repos(cs).contains(cs[u].path@),
    decreases cs.len(),
{
    let prev = child_repos(cs.drop_last());
    if u == cs.len() - 1 {
        assert(child_repos(cs)[prev.len() as int] == cs[u].path@);
    } else {
        assert(cs.drop_last()[u] == cs[u]);
        lemma_child_repos_has(cs.drop_last(), u);
        let q = choose|q: int| 0 <= q < prev.len() && prev[q] == cs[u].path@;
        assert(child_repos(cs)[q] == cs[u].path@);
    }
}

/// Every repository within two levels of any root is found: an entry of a
/// root that could be listed and is a directory holding `.git`; or an entry
/// of such an entry that is a directory without `.git` and could be listed.
pub proof fn lemma_discovered_has(roots: Seq<RootListing>, j: int, t: int, u: int)
    requires
        0 <= j < roots.len(),
        roots[j].is_dir,
        roots[j].entries is Some,
        0 <= t < roots[j].entries->0@.len(),
        roots[j].entries->0@[t].is_dir,
    ensures
        roots[j].entries->0@[t].is_repo ==> discovered(roots).contains(
            roots[j].entries->0@[t].path@,
        ),
        !roots[j].entries->0@[t].is_repo && roots[j].entries->0@[t].children is Some && 0 <= u
            < roots[j].entries->0@[t].children->0@.len() && roots[j].entries->0@[t].children->0@[u].is_dir
            && roots[j].entries->0@[t].children->0@[u].is_repo ==> discovered(roots).contains(
            roots[j].entries->0@[t].children->0@[u].path@,
        ),
{
    let es = roots[j].entries->0@;
    let e = es[t];
    let a = roots.take(j);
    let b = roots.skip(j);
    assert(roots =~= a + b);
    lemma_discovered_concat(a, b);
    assert(b =~= seq![roots[j]] + roots.skip(j + 1));
    lemma_discovered_concat(seq![roots[j]], roots.skip(j + 1));
    assert(seq![roots[j]].drop_last() =~= Seq::<RootListing>::empty());
    assert(seq![roots[j]].last() == roots[j]);
    assert(discovered(Seq::<RootListing>::empty()) == Seq::<Seq<char>>::empty());
    assert(discovered(seq![roots[j]].drop_last()) == Seq::<Seq<char>>::empty());
    let mid = discovered(seq![roots[j]]);
    assert(mid == Seq::<Seq<char>>::empty() + root_repos(roots[j]));
    assert(mid =~= entries_repos(es));
    lemma_entries_repos_has(es, t);
    let whole = discovered(a) + (mid + discovered(roots.skip(j + 1)));
    assert(discovered(roots) == whole);
    if e.is_repo {
        assert(entry_repos(e) == seq![e.path@]);
        assert(entry_repos(e)[0] == e.path@);
        assert(entries_repos(es).contains(e.path@));
        let q = choose|q: int| 0 <= q < mid.len() && mid[q] == e.path@;
        assert(whole[discovered(a).len() + q] == e.path@);
    } else if e.children is Some && 0 <= u < e.children->0@.len() && e.children->0@[u].is_dir
        && e.children->0@[u].is_repo {
        let cs = e.children->0@;
        lemma_child_repos_has(cs, u);
        assert(entry_repos(e) == child_repos(cs));
        assert(entries_repos(es).contains(cs[u].path@));
        let q = choose|q: int| 0 <= q < mid.len() && mid[q] == cs[u].path@;
        assert(whole[discovered(a).len() + q] == cs[u].path@);
    }
}

} // verus!
