//! The timeline: each session with the commits of its project made around
//! it, and the recent commits that no session took in.
use vstd::prelude::*;
use crate::git::{arranges, as_commit, in_window, lemma_window_members, sort_by_time, stored_view, window_commits, StoredCommit, StoredView};
use crate::models::{clone_opt, commits_view, Commit, CommitView};
use crate::report_rows::{projects_view, projects_with_id, ProjectRow, ProjectView, WINDOW_MS};
use crate::text::{same_text, texts};

verus! {

/// One day in milliseconds.
pub const DAY_MS: i64 = 86_400_000;

/// A session of the timeline, as far as matching commits goes.
#[derive(Debug, Clone, PartialEq, Eq)]
pub struct TimelineSession {
    pub project_id: String,
    pub started_at_ms: i64,
    pub ended_at_ms: i64,
}

pub struct TimelineSessionView {
    pub project_id: Seq<char>,
    pub started_at_ms: i64,
    pub ended_at_ms: i64,
}

impl View for TimelineSession {
    type V = TimelineSessionView;

    open spec fn view(&self) -> TimelineSessionView {
        TimelineSessionView {
            project_id: self.project_id@,
            started_at_ms: self.started_at_ms,
            ended_at_ms: self.ended_at_ms,
        }
    }
}

pub open spec fn timeline_view(v: Seq<TimelineSession>) -> Seq<TimelineSessionView> {
    v.map_values(|s: TimelineSession| s@)
}

/// The start of a timeline of `days` days that ends at `now_ms`.
pub fn since_ms(now_ms: i64, days: u32) -> (res: i64)
    requires
        i64::MIN <= now_ms - days * DAY_MS,
    ensures
        res == now_ms - days * DAY_MS,
{
    now_ms - (days as i64) * DAY_MS
}

/// The commits of a session's project made from `WINDOW_MS` before its
/// start to `WINDOW_MS` after its end.
pub open spec fn session_window(s: TimelineSessionView, cs: Seq<StoredView>) -> Seq<CommitView> {
    window_commits(cs, s.project_id, s.started_at_ms - WINDOW_MS, s.ended_at_ms + WINDOW_MS)
}

pub open spec fn has_hash(s: Seq<CommitView>, h: Seq<char>) -> bool {
    exists|j: int| 0 <= j < s.len() && #[trigger] s[j].hash == h
}

/// Some session of `ss` took in a commit with hash `h`.
pub open spec fn matched_hash(ss: Seq<TimelineSessionView>, cs: Seq<StoredView>, h: Seq<char>) -> bool {
    exists|i: int| 0 <= i < ss.len() && #[trigger] has_hash(session_window(ss[i], cs), h)
}

/// Commit `c` under the name of project `p`.
pub open spec fn named(c: StoredView, p: ProjectView) -> CommitView {
    CommitView {
        hash: c.hash,
        message: c.message,
        author: c.author,
        committed_at_ms: c.committed_at_ms,
        project_name: Some(p.name),
    }
}

/// The commits of `cs` made at `since` or later that no session of `ss`
/// took in (matching over all commits `all`), each under the name of each
/// project of its id.
pub open spec fn unmatched_named(
    ss: Seq<TimelineSessionView>,
    ps: Seq<ProjectView>,
    all: Seq<StoredView>,
    cs: Seq<StoredView>,
    since: int,
) -> Seq<CommitView>
    decreases cs.len(),
{
    if cs.len() == 0 {
        Seq::empty()
    } else {
        let c = cs.last();
        unmatched_named(ss, ps, all, cs.drop_last(), since) + if since <= c.committed_at_ms
            && !matched_hash(ss, all, c.hash) {
            projects_with_id(ps, c.project_id).map_values(|p: ProjectView| named(c, p))
        } else {
            Seq::empty()
        }
    }
}

/// Newest first.
pub open spec fn newest_first(s: Seq<CommitView>) -> bool {
    forall|i: int, j: int| 0 <= i < j < s.len() ==> s[i].committed_at_ms >= s[j].committed_at_ms
}

/// The position before the first commit of `s` older than `t`.
pub open spec fn slot_before_older(s: Seq<CommitView>, t: int) -> int
    decreases s.len(),
{
    if s.len() == 0 || s[0].committed_at_ms < t {
        0
    } else {
        1 + slot_before_older(s.drop_first(), t)
    }
}

/// `s` with `x` put after the commits made at its time or later.
pub open spec fn insert_newest(s: Seq<CommitView>, x: CommitView) -> Seq<CommitView> {
    s.insert(slot_before_older(s, x.committed_at_ms as int), x)
}

/// `s` sorted newest first, commits made at the same moment kept in the
/// order of `s`.
pub open spec fn sort_newest(s: Seq<CommitView>) -> Seq<CommitView>
    decreases s.len(),
{
    if s.len() == 0 {
        s
    } else {
        insert_newest(sort_newest(s.drop_last()), s.last())
    }
}

proof fn lemma_slot_before_older(s: Seq<CommitView>, t: int, j: int)
    requires
        0 <= j <= s.len(),
        forall|q: int| 0 <= q < j ==> (#[trigger] s[q]).committed_at_ms >= t,
        j < s.len() ==> s[j].committed_at_ms < t,
    ensures
        slot_before_older(s, t) == j,
    decreases j,
{
    if j > 0 {
        assert(s[0].committed_at_ms >= t);
        let r = s.drop_first();
        assert forall|q: int| 0 <= q < j - 1 implies (#[trigger] r[q]).committed_at_ms >= t by {
            assert(r[q] == s[q + 1]);
        }
        if j - 1 < r.len() {
            assert(r[j - 1] == s[j]);
        }
        lemma_slot_before_older(r, t, j - 1);
    }
}

proof fn lemma_sort_newest_push(s: Seq<CommitView>, x: CommitView)
    ensures
        sort_newest(s.push(x)) == insert_newest(sort_newest(s), x),
{
    assert(s.push(x).drop_last() =~= s);
}

/// The window bounds of every session fit an `i64`.
pub open spec fn windows_fit(ss: Seq<TimelineSessionView>) -> bool {
    forall|i: int|
        0 <= i < ss.len() ==> i64::MIN <= (#[trigger] ss[i]).started_at_ms - WINDOW_MS
            && ss[i].ended_at_ms + WINDOW_MS <= i64::MAX
}

proof fn lemma_same_hashes(s: Seq<CommitView>, w: Seq<CommitView>, h: Seq<char>)
    requires
        s.to_multiset() == w.to_multiset(),
    ensures
        has_hash(s, h) == has_hash(w, h),
{
    broadcast use vstd::seq_lib::group_to_multiset_ensures;

    if has_hash(s, h) {
        let j = choose|j: int| 0 <= j < s.len() && #[trigger] s[j].hash == h;
        assert(s.contains(s[j]));
        vstd::seq_lib::to_multiset_contains(s, s[j]);
        vstd::seq_lib::to_multiset_contains(w, s[j]);
        assert(w.contains(s[j]));
        let k = choose|k: int| 0 <= k < w.len() && w[k] == s[j];
        assert(w[k].hash == h);
    }
    if has_hash(w, h) {
        let j = choose|j: int| 0 <= j < w.len() && #[trigger] w[j].hash == h;
        assert(w.contains(w[j]));
        vstd::seq_lib::to_multiset_contains(s, w[j]);
        vstd::seq_lib::to_multiset_contains(w, w[j]);
        assert(s.contains(w[j]));
        let k = choose|k: int| 0 <= k < s.len() && s[k] == w[j];
        assert(s[k].hash == h);
    }
}

fn push_hashes(out: &mut Vec<String>, cs: &Vec<Commit>)
    ensures
        forall|h: Seq<char>|
            #[trigger] texts(final(out)@).contains(h) <==> (texts(old(out)@).contains(h) || has_hash(
                commits_view(cs@),
                h,
            )),
{
    let ghost start = texts(old(out)@);
    let ghost hs = commits_view(cs@).map_values(|c: CommitView| c.hash);
    let mut k: usize = 0;
    assert(start =~= start + hs.take(0));
    while k < cs.len()
        invariant
            hs == commits_view(cs@).map_values(|c: CommitView| c.hash),
            k <= cs.len(),
            texts(out@) == start + hs.take(k as int),
        decreases cs.len() - k,
    {
        let ghost before = texts(out@);
        out.push(cs[k].hash.clone());
        assert(texts(out@) =~= before.push(cs@[k as int].hash@));
        assert(start + hs.take(k + 1) =~= (start + hs.take(k as int)).push(hs[k as int]));
        k = k + 1;
    }
    assert(hs.take(cs.len() as int) =~= hs);
    assert forall|h: Seq<char>|
        #[trigger] texts(out@).contains(h) <==> (start.contains(h) || has_hash(commits_view(cs@), h)) by {
        let all = texts(out@);
        if all.contains(h) {
            let i = choose|i: int| 0 <= i < all.len() && all[i] == h;
            if i >= start.len() {
                assert(commits_view(cs@)[i - start.len()].hash == h);
            } else {
                assert(start[i] == h);
            }
        }
        if start.contains(h) {
            let i = choose|i: int| 0 <= i < start.len() && start[i] == h;
            assert(all[i] == h);
        }
        if has_hash(commits_view(cs@), h) {
            let j = choose|j: int| 0 <= j < commits_view(cs@).len() && #[trigger] commits_view(
                cs@,
            )[j].hash == h;
            assert(all[start.len() + j] == h);
        }
    }
}

// The matched hashes are kept in a `Vec` searched by a verified loop. vstd
// specifies `HashSet` only for key types with `obeys_key_model`, which it
// grants to integers and `bool` but not to `String`, so a `HashSet<String>`
// would give no contract to prove membership with.
fn contains_hash(v: &Vec<String>, h: &String) -> (res: bool)
    ensures
        res == texts(v@).contains(h@),
{
    let mut k: usize = 0;
    while k < v.len()
        invariant
            k <= v.len(),
            forall|j: int| 0 <= j < k ==> texts(v@)[j] != h@,
        decreases v.len() - k,
    {
        if same_text(v[k].as_str(), h.as_str()) {
            assert(texts(v@)[k as int] == h@);
            return true;
        }
        k = k + 1;
    }
    false
}

/// Inserts `c` after every commit that is not older, keeping `res` newest
/// first.
fn insert_newest_first(res: &mut Vec<Commit>, c: Commit)
    requires
        newest_first(commits_view(old(res)@)),
    ensures
        newest_first(commits_view(final(res)@)),
        commits_view(final(res)@) == insert_newest(commits_view(old(res)@), c@),
        commits_view(final(res)@).to_multiset() == commits_view(old(res)@).to_multiset().insert(c@),
{
    let t = c.committed_at_ms;
    let mut j: usize = 0;
    while j < res.len() && res[j].committed_at_ms >= t
        invariant
            j <= res.len(),
            forall|q: int| 0 <= q < j ==> (#[trigger] res@[q]).committed_at_ms >= t,
        decreases res.len() - j,
    {
        j = j + 1;
    }
    let ghost before = commits_view(res@);
    let ghost old_res = res@;
    let ghost cv = c@;
    proof {
        assert forall|q: int| 0 <= q < j implies (#[trigger] before[q]).committed_at_ms >= t by {
            assert(before[q] == old_res[q]@);
        }
        if j < before.len() {
            assert(before[j as int] == old_res[j as int]@);
        }
        lemma_slot_before_older(before, t as int, j as int);
    }
    res.insert(j, c);
    proof {
        let after = commits_view(res@);
        assert(after =~= before.insert(j as int, cv));
        vstd::seq_lib::to_multiset_insert(before, j as int, cv);
        assert forall|p: int, q: int| 0 <= p < q < after.len() implies after[p].committed_at_ms
            >= after[q].committed_at_ms by {
            if j < before.len() {
                assert(old_res[j as int].committed_at_ms < t);
            }
            if q < j {
                assert(after[p] == before[p] && after[q] == before[q]);
            } else if q == j {
                assert(after[p] == before[p]);
                assert(old_res[p].committed_at_ms >= t);
            } else if p == j {
                assert(after[q] == before[q - 1]);
                if q - 1 > j {
                    assert(before[j as int].committed_at_ms >= before[q - 1].committed_at_ms);
                }
            } else if p < j {
                assert(after[p] == before[p] && after[q] == before[q - 1]);
            } else {
                assert(after[p] == before[p - 1] && after[q] == before[q - 1]);
            }
        }
    }
}

/// For each session, the commits of its project made around it, oldest
/// first; and the commits made at `since` or later that no session took in,
/// each under the name of its project, newest first. Commits made at the
/// same moment keep the order of `commits`.
pub fn timeline_commits(
    sessions: &Vec<TimelineSession>,
    projects: &Vec<ProjectRow>,
    commits: &Vec<StoredCommit>,
    since: i64,
) -> (res: (Vec<Vec<Commit>>, Vec<Commit>))
    requires
        windows_fit(timeline_view(sessions@)),
    ensures
        res.0.len() == sessions.len(),
        forall|i: int|
            0 <= i < sessions.len() ==> commits_view(#[trigger] res.0@[i]@) == sort_by_time(
                session_window(timeline_view(sessions@)[i], stored_view(commits@)),
            ),
        commits_view(res.1@) == sort_newest(
            unmatched_named(
                timeline_view(sessions@),
                projects_view(projects@),
                stored_view(commits@),
                stored_view(commits@),
                since as int,
            ),
        ),
        newest_first(commits_view(res.1@)),
        commits_view(res.1@).to_multiset() == unmatched_named(
            timeline_view(sessions@),
            projects_view(projects@),
            stored_view(commits@),
            stored_view(commits@),
            since as int,
        ).to_multiset(),
{
    let ghost ss = timeline_view(sessions@);
    let ghost cs = stored_view(commits@);
    let ghost ps = projects_view(projects@);
    let mut per_session: Vec<Vec<Commit>> = Vec::new();
    let mut matched: Vec<String> = Vec::new();
    let mut i: usize = 0;
    while i < sessions.len()
        invariant
            ss == timeline_view(sessions@),
            cs == stored_view(commits@),
            windows_fit(ss),
            i <= sessions.len(),
            per_session.len() == i,
            forall|q: int|
                0 <= q < i ==> arranges(
                    commits_view(#[trigger] per_session@[q]@),
                    session_window(ss[q], cs),
                ) && commits_view(per_session@[q]@) == sort_by_time(session_window(ss[q], cs)),
            forall|h: Seq<char>|
                texts(matched@).contains(h) <==> exists|q: int|
                    0 <= q < i && #[trigger] has_hash(session_window(ss[q], cs), h),
        decreases sessions.len() - i,
    {
        let s = &sessions[i];
        assert(ss[i as int] == s@);
        let found = in_window(
            commits,
            s.project_id.as_str(),
            s.started_at_ms - WINDOW_MS,
            s.ended_at_ms + WINDOW_MS,
        );
        let ghost before = texts(matched@);
        push_hashes(&mut matched, &found);
        assert forall|h: Seq<char>|
            texts(matched@).contains(h) <==> exists|q: int|
                0 <= q < i + 1 && #[trigger] has_hash(session_window(ss[q], cs), h) by {
            lemma_same_hashes(commits_view(found@), session_window(ss[i as int], cs), h);
            if exists|q: int| 0 <= q < i + 1 && #[trigger] has_hash(session_window(ss[q], cs), h) {
                let q = choose|q: int|
                    0 <= q < i + 1 && #[trigger] has_hash(session_window(ss[q], cs), h);
                if q < i {
                    assert(before.contains(h));
                }
            }
        }
        per_session.push(found);
        i = i + 1;
    }
    assert forall|h: Seq<char>| texts(matched@).contains(h) <==> matched_hash(ss, cs, h) by {}
    let mut standalone: Vec<Commit> = Vec::new();
    let mut k: usize = 0;
    assert(cs.take(0) =~= Seq::<StoredView>::empty());
    assert(unmatched_named(ss, ps, cs, cs.take(0), since as int) =~= Seq::<CommitView>::empty());
    assert(commits_view(standalone@) =~= Seq::<CommitView>::empty());
    while k < commits.len()
        invariant
            ss == timeline_view(sessions@),
            cs == stored_view(commits@),
            ps == projects_view(projects@),
            k <= commits.len(),
            forall|h: Seq<char>| texts(matched@).contains(h) <==> matched_hash(ss, cs, h),
            newest_first(commits_view(standalone@)),
            commits_view(standalone@) == sort_newest(unmatched_named(ss, ps, cs, cs.take(k as int), since as int)),
            commits_view(standalone@).to_multiset() == unmatched_named(
                ss,
                ps,
                cs,
                cs.take(k as int),
                since as int,
            ).to_multiset(),
        decreases commits.len() - k,
    {
        let c = &commits[k];
        assert(cs[k as int] == c@);
        assert(cs.take(k + 1).drop_last() =~= cs.take(k as int));
        assert(cs.take(k + 1).last() == c@);
        let ghost base = unmatched_named(ss, ps, cs, cs.take(k as int), since as int);
        if since <= c.committed_at_ms && !contains_hash(&matched, &c.hash) {
            let mut t: usize = 0;
            proof {
                reveal(Seq::filter);
                assert(ps.take(0) =~= Seq::<ProjectView>::empty());
                assert(base + projects_with_id(ps.take(0), c.project_id@).map_values(
                    |p: ProjectView| named(c@, p),
                ) =~= base);
            }
            while t < projects.len()
                invariant
                    ps == projects_view(projects@),
                    t <= projects.len(),
                    newest_first(commits_view(standalone@)),
                    commits_view(standalone@) == sort_newest(base + projects_with_id(
                        ps.take(t as int),
                        c.project_id@,
                    ).map_values(|p: ProjectView| named(c@, p))),
                    commits_view(standalone@).to_multiset() == (base + projects_with_id(
                        ps.take(t as int),
                        c.project_id@,
                    ).map_values(|p: ProjectView| named(c@, p))).to_multiset(),
                decreases projects.len() - t,
            {
                let ghost f = projects_with_id(ps.take(t as int), c.project_id@);
                proof {
                    reveal(Seq::filter);
                    assert(ps.take(t + 1).drop_last() =~= ps.take(t as int));
                    assert(ps.take(t + 1).last() == projects@[t as int]@);
                }
                if same_text(projects[t].id.as_str(), c.project_id.as_str()) {
                    let entry = Commit {
                        hash: c.hash.clone(),
                        message: c.message.clone(),
                        author: clone_opt(&c.author),
                        committed_at_ms: c.committed_at_ms,
                        project_name: Some(projects[t].name.clone()),
                    };
                    assert(entry@ == named(c@, projects@[t as int]@));
                    insert_newest_first(&mut standalone, entry);
                    proof {
                        broadcast use vstd::seq_lib::group_to_multiset_ensures;
                        let m = f.map_values(|p: ProjectView| named(c@, p));
                        assert(f.push(projects@[t as int]@).map_values(|p: ProjectView| named(c@, p))
                            =~= m.push(named(c@, projects@[t as int]@)));
                        assert(base + m.push(named(c@, projects@[t as int]@)) =~= (base + m).push(
                            named(c@, projects@[t as int]@),
                        ));
                        lemma_sort_newest_push(base + m, named(c@, projects@[t as int]@));
                    }
                }
                t = t + 1;
            }
            assert(ps.take(projects.len() as int) =~= ps);
        } else {
            assert(base + Seq::<CommitView>::empty() =~= base);
        }
        k = k + 1;
    }
    assert(cs.take(commits.len() as int) =~= cs);
    (per_session, standalone)
}

proof fn lemma_slot_before_older_bounds(s: Seq<CommitView>, t: int)
    ensures
        0 <= slot_before_older(s, t) <= s.len(),
    decreases s.len(),
{
    if s.len() > 0 && s[0].committed_at_ms >= t {
        lemma_slot_before_older_bounds(s.drop_first(), t);
    }
}

proof fn lemma_sort_newest_keeps(s: Seq<CommitView>)
    ensures
        sort_newest(s).to_multiset() == s.to_multiset(),
    decreases s.len(),
{
    broadcast use vstd::seq_lib::group_to_multiset_ensures;

    if s.len() > 0 {
        let r = s.drop_last();
        lemma_sort_newest_keeps(r);
        let t = sort_newest(r);
        lemma_slot_before_older_bounds(t, s.last().committed_at_ms as int);
        vstd::seq_lib::to_multiset_insert(
            t,
            slot_before_older(t, s.last().committed_at_ms as int),
            s.last(),
        );
        assert(r.push(s.last()) =~= s);
    }
}

proof fn lemma_unmatched_not_matched(
    ss: Seq<TimelineSessionView>,
    ps: Seq<ProjectView>,
    all: Seq<StoredView>,
    cs: Seq<StoredView>,
    since: int,
    y: CommitView,
)
    requires
        unmatched_named(ss, ps, all, cs, since).contains(y),
    ensures
        !matched_hash(ss, all, y.hash),
    decreases cs.len(),
{
    let c = cs.last();
    let prev = unmatched_named(ss, ps, all, cs.drop_last(), since);
    let tail = if since <= c.committed_at_ms && !matched_hash(ss, all, c.hash) {
        projects_with_id(ps, c.project_id).map_values(|p: ProjectView| named(c, p))
    } else {
        Seq::empty()
    };
    assert(unmatched_named(ss, ps, all, cs, since) == prev + tail);
    let j = choose|j: int| 0 <= j < (prev + tail).len() && (prev + tail)[j] == y;
    if j < prev.len() {
        assert(prev[j] == y);
        lemma_unmatched_not_matched(ss, ps, all, cs.drop_last(), since, y);
    } else {
        assert(tail[j - prev.len()] == y);
    }
}

/// A session of the timeline takes in exactly the commits of its project
/// made from two minutes (120000 ms) before it starts to two minutes after
/// it ends, both included; and no standalone commit shares a hash with a
/// commit a session took in.
pub proof fn lemma_session_commits(
    ss: Seq<TimelineSessionView>,
    ps: Seq<ProjectView>,
    cs: Seq<StoredView>,
    since: int,
    i: int,
    x: CommitView,
)
    requires
        0 <= i < ss.len(),
    ensures
        sort_by_time(session_window(ss[i], cs)).contains(x) <==> exists|k: int|
            0 <= k < cs.len() && #[trigger] as_commit(cs[k]) == x && cs[k].project_id
                == ss[i].project_id && ss[i].started_at_ms - 120000 <= cs[k].committed_at_ms
                <= ss[i].ended_at_ms + 120000,
        sort_by_time(session_window(ss[i], cs)).contains(x) ==> forall|y: CommitView|
            #[trigger] sort_newest(unmatched_named(ss, ps, cs, cs, since)).contains(y) ==> y.hash
                != x.hash,
{
    broadcast use vstd::seq_lib::group_to_multiset_ensures;

    let s = ss[i];
    lemma_window_members(cs, s.project_id, s.started_at_ms - 120000, s.ended_at_ms + 120000, x);
    let w = session_window(s, cs);
    if sort_by_time(w).contains(x) {
        crate::git::lemma_sort_by_time_keeps(w);
        vstd::seq_lib::to_multiset_contains(w, x);
        vstd::seq_lib::to_multiset_contains(sort_by_time(w), x);
        let j = choose|j: int| 0 <= j < w.len() && w[j] == x;
        assert(has_hash(w, x.hash));
        assert(matched_hash(ss, cs, x.hash));
        let u = unmatched_named(ss, ps, cs, cs, since);
        assert forall|y: CommitView| #[trigger] sort_newest(u).contains(y) implies y.hash != x.hash by {
            lemma_sort_newest_keeps(u);
            vstd::seq_lib::to_multiset_contains(u, y);
            vstd::seq_lib::to_multiset_contains(sort_newest(u), y);
            lemma_unmatched_not_matched(ss, ps, cs, cs, since, y);
        }
    }
}

/// A session took in a commit with hash `h` exactly when some commit with
/// that hash belongs to the session's project and was made from two minutes
/// before the session started to two minutes after it ended.
proof fn lemma_matched_literal(ss: Seq<TimelineSessionView>, cs: Seq<StoredView>, h: Seq<char>)
    ensures
        matched_hash(ss, cs, h) <==> exists|i: int, m: int|
            #![trigger ss[i], cs[m]]
            0 <= i < ss.len() && 0 <= m < cs.len() && cs[m].hash == h && cs[m].project_id
                == ss[i].project_id && ss[i].started_at_ms - 120000 <= cs[m].committed_at_ms
                <= ss[i].ended_at_ms + 120000,
{
    broadcast use vstd::seq_lib::group_to_multiset_ensures;

    if matched_hash(ss, cs, h) {
        let i = choose|i: int| 0 <= i < ss.len() && #[trigger] has_hash(session_window(ss[i], cs), h);
        let w = session_window(ss[i], cs);
        let j = choose|j: int| 0 <= j < w.len() && #[trigger] w[j].hash == h;
        crate::git::lemma_sort_by_time_keeps(w);
        vstd::seq_lib::to_multiset_contains(w, w[j]);
        vstd::seq_lib::to_multiset_contains(sort_by_time(w), w[j]);
        lemma_window_members(
            cs,
            ss[i].project_id,
            ss[i].started_at_ms - 120000,
            ss[i].ended_at_ms + 120000,
            w[j],
        );
        let m = choose|m: int|
            0 <= m < cs.len() && #[trigger] as_commit(cs[m]) == w[j] && cs[m].project_id
                == ss[i].project_id && ss[i].started_at_ms - 120000 <= cs[m].committed_at_ms
                <= ss[i].ended_at_ms + 120000;
        assert(ss[i] == ss[i] && cs[m] == cs[m]);
    }
    if exists|i: int, m: int|
        #![trigger ss[i], cs[m]]
        0 <= i < ss.len() && 0 <= m < cs.len() && cs[m].hash == h && cs[m].project_id
            == ss[i].project_id && ss[i].started_at_ms - 120000 <= cs[m].committed_at_ms
            <= ss[i].ended_at_ms + 120000 {
        let (i, m) = choose|i: int, m: int|
            #![trigger ss[i], cs[m]]
            0 <= i < ss.len() && 0 <= m < cs.len() && cs[m].hash == h && cs[m].project_id
                == ss[i].project_id && ss[i].started_at_ms - 120000 <= cs[m].committed_at_ms
                <= ss[i].ended_at_ms + 120000;
        let w = session_window(ss[i], cs);
        lemma_window_members(
            cs,
            ss[i].project_id,
            ss[i].started_at_ms - 120000,
            ss[i].ended_at_ms + 120000,
            as_commit(cs[m]),
        );
        crate::git::lemma_sort_by_time_keeps(w);
        vstd::seq_lib::to_multiset_contains(w, as_commit(cs[m]));
        vstd::seq_lib::to_multiset_contains(sort_by_time(w), as_commit(cs[m]));
        let j = choose|j: int| 0 <= j < w.len() && w[j] == as_commit(cs[m]);
        assert(w[j].hash == h);
        assert(has_hash(w, h));
    }
}

proof fn lemma_unmatched_members(
    ss: Seq<TimelineSessionView>,
    ps: Seq<ProjectView>,
    all: Seq<StoredView>,
    cs: Seq<StoredView>,
    since: int,
    y: CommitView,
)
    ensures
        unmatched_named(ss, ps, all, cs, since).contains(y) <==> exists|k: int, q: int|
            #![trigger cs[k], ps[q]]
            0 <= k < cs.len() && 0 <= q < ps.len() && ps[q].id == cs[k].project_id && since
                <= cs[k].committed_at_ms && !matched_hash(ss, all, cs[k].hash) && y == named(
                cs[k],
                ps[q],
            ),
    decreases cs.len(),
{
    broadcast use vstd::seq_lib::group_filter_ensures;

    if cs.len() > 0 {
        let c = cs.last();
        let r = cs.drop_last();
        lemma_unmatched_members(ss, ps, all, r, since, y);
        let prev = unmatched_named(ss, ps, all, r, since);
        let pred = |p: ProjectView| p.id == c.project_id;
        let f = ps.filter(pred);
        let tail = if since <= c.committed_at_ms && !matched_hash(ss, all, c.hash) {
            f.map_values(|p: ProjectView| named(c, p))
        } else {
            Seq::empty()
        };
        assert(projects_with_id(ps, c.project_id) == f);
        let u = unmatched_named(ss, ps, all, cs, since);
        assert(u == prev + tail);
        if u.contains(y) {
            let j = choose|j: int| 0 <= j < u.len() && u[j] == y;
            if j < prev.len() {
                assert(prev[j] == y);
                let (k, q) = choose|k: int, q: int|
                    #![trigger r[k], ps[q]]
                    0 <= k < r.len() && 0 <= q < ps.len() && ps[q].id == r[k].project_id && since
                        <= r[k].committed_at_ms && !matched_hash(ss, all, r[k].hash) && y == named(
                        r[k],
                        ps[q],
                    );
                assert(cs[k] == r[k]);
            } else {
                let t = j - prev.len();
                assert(tail[t] == y);
                assert(f.contains(f[t]));
                ps.lemma_filter_contains_rev(pred, f[t]);
                let q = choose|q: int| 0 <= q < ps.len() && ps[q] == f[t];
                assert(pred(f[t]));
                assert(cs[cs.len() - 1] == c);
                assert(ps[q] == ps[q]);
            }
        }
        if exists|k: int, q: int|
            #![trigger cs[k], ps[q]]
            0 <= k < cs.len() && 0 <= q < ps.len() && ps[q].id == cs[k].project_id && since
                <= cs[k].committed_at_ms && !matched_hash(ss, all, cs[k].hash) && y == named(
                cs[k],
                ps[q],
            ) {
            let (k, q) = choose|k: int, q: int|
                #![trigger cs[k], ps[q]]
                0 <= k < cs.len() && 0 <= q < ps.len() && ps[q].id == cs[k].project_id && since
                    <= cs[k].committed_at_ms && !matched_hash(ss, all, cs[k].hash) && y == named(
                    cs[k],
                    ps[q],
                );
            if k < cs.len() - 1 {
                assert(r[k] == cs[k]);
                assert(prev.contains(y));
                let j = choose|j: int| 0 <= j < prev.len() && prev[j] == y;
                assert(u[j] == y);
            } else {
                assert(cs[k] == c);
                ps.lemma_filter_contains(pred, q);
                let t = choose|t: int| 0 <= t < f.len() && f[t] == ps[q];
                assert(tail[t] == y);
                assert(u[prev.len() + t] == y);
            }
        }
    }
}

/// The standalone commits of the timeline are exactly the commits made at
/// `since` or later, under the name of each project of their id, that no
/// session took in: no commit with the same hash belongs to a session's
/// project and was made from two minutes before the session started to two
/// minutes after it ended.
pub proof fn lemma_standalone_commits(
    ss: Seq<TimelineSessionView>,
    ps: Seq<ProjectView>,
    cs: Seq<StoredView>,
    since: int,
    y: CommitView,
)
    ensures
        sort_newest(unmatched_named(ss, ps, cs, cs, since)).contains(y) <==> exists|k: int, q: int|
            #![trigger cs[k], ps[q]]
            0 <= k < cs.len() && 0 <= q < ps.len() && ps[q].id == cs[k].project_id && since
                <= cs[k].committed_at_ms && y == named(cs[k], ps[q]) && !(exists|i: int, m: int|
                #![trigger ss[i], cs[m]]
                0 <= i < ss.len() && 0 <= m < cs.len() && cs[m].hash == cs[k].hash
                    && cs[m].project_id == ss[i].project_id && ss[i].started_at_ms - 120000
                    <= cs[m].committed_at_ms <= ss[i].ended_at_ms + 120000),
{
    broadcast use vstd::seq_lib::group_to_multiset_ensures;

    let u = unmatched_named(ss, ps, cs, cs, since);
    lemma_sort_newest_keeps(u);
    vstd::seq_lib::to_multiset_contains(u, y);
    vstd::seq_lib::to_multiset_contains(sort_newest(u), y);
    lemma_unmatched_members(ss, ps, cs, cs, since, y);
    assert forall|k: int| 0 <= k < cs.len() implies (matched_hash(ss, cs, #[trigger] cs[k].hash)
        <==> exists|i: int, m: int|
        #![trigger ss[i], cs[m]]
        0 <= i < ss.len() && 0 <= m < cs.len() && cs[m].hash == cs[k].hash && cs[m].project_id
            == ss[i].project_id && ss[i].started_at_ms - 120000 <= cs[m].committed_at_ms
            <= ss[i].ended_at_ms + 120000) by {
        lemma_matched_literal(ss, cs, cs[k].hash);
    }
}

} // verus!
