//! The rows of a report: one per session, with the commits made in its time
//! window, then the commits of the period that no window took in.
use vstd::prelude::*;
use crate::git::{as_commit, in_window, sort_by_time, stored_view, window_commits, StoredCommit, StoredView};
use crate::models::{clone_opt, commits_view, opt_text, CommitView};
use crate::report::{ReportRow, RowView, rows_view};
use crate::text::{same_text, texts};

verus! {

/// How far before its start and after its end a session takes in commits.
pub const WINDOW_MS: i64 = 120_000;

/// A session as the report reads it, under the name of its project.
#[derive(Debug, Clone, PartialEq, Eq)]
pub struct SessionRow {
    pub id: String,
    pub project: String,
    pub title: String,
    pub agent: Option<String>,
    pub model_id: Option<String>,
    pub tokens_in: i64,
    pub tokens_out: i64,
    pub message_count: i64,
    pub additions: i64,
    pub deletions: i64,
    pub files_changed: i64,
    pub started_at_ms: i64,
    pub ended_at_ms: i64,
}

pub struct SessionView {
    pub id: Seq<char>,
    pub project: Seq<char>,
    pub title: Seq<char>,
    pub agent: Option<Seq<char>>,
    pub model_id: Option<Seq<char>>,
    pub tokens_in: i64,
    pub tokens_out: i64,
    pub message_count: i64,
    pub additions: i64,
    pub deletions: i64,
    pub files_changed: i64,
    pub started_at_ms: i64,
    pub ended_at_ms: i64,
}

impl View for SessionRow {
    type V = SessionView;

    open spec fn view(&self) -> SessionView {
        SessionView {
            id: self.id@,
            project: self.project@,
            title: self.title@,
            agent: opt_text(self.agent),
            model_id: opt_text(self.model_id),
            tokens_in: self.tokens_in,
            tokens_out: self.tokens_out,
            message_count: self.message_count,
            additions: self.additions,
            deletions: self.deletions,
            files_changed: self.files_changed,
            started_at_ms: self.started_at_ms,
            ended_at_ms: self.ended_at_ms,
        }
    }
}

pub open spec fn sessions_view(v: Seq<SessionRow>) -> Seq<SessionView> {
    v.map_values(|s: SessionRow| s@)
}

/// A project of the diary: its id and its name.
#[derive(Debug, Clone, PartialEq, Eq)]
pub struct ProjectRow {
    pub id: String,
    pub name: String,
}

pub struct ProjectView {
    pub id: Seq<char>,
    pub name: Seq<char>,
}

impl View for ProjectRow {
    type V = ProjectView;

    open spec fn view(&self) -> ProjectView {
        ProjectView { id: self.id@, name: self.name@ }
    }
}

pub open spec fn projects_view(v: Seq<ProjectRow>) -> Seq<ProjectView> {
    v.map_values(|p: ProjectRow| p@)
}

// ---------------------------------------------------------------- windows

/// The id of the first project named `name`.
pub open spec fn first_project_id(ps: Seq<ProjectView>, name: Seq<char>) -> Option<Seq<char>>
    decreases ps.len(),
{
    if ps.len() == 0 {
        None
    } else if ps[0].name == name {
        Some(ps[0].id)
    } else {
        first_project_id(ps.drop_first(), name)
    }
}

/// The messages of the commits that the first project named `name` made
/// within `[from, to]`, oldest first (commits made at the same moment in the
/// order of `cs`); none if no project has that name.
pub open spec fn window_messages(
    ps: Seq<ProjectView>,
    cs: Seq<StoredView>,
    name: Seq<char>,
    from: int,
    to: int,
) -> Seq<Seq<char>> {
    match first_project_id(ps, name) {
        None => Seq::empty(),
        Some(pid) => messages_of(sort_by_time(window_commits(cs, pid, from, to))),
    }
}

/// The messages of the commits.
pub open spec fn messages_of(ws: Seq<CommitView>) -> Seq<Seq<char>> {
    ws.map_values(|c: CommitView| c.message)
}

/// The id of the first project named `name`.
pub fn find_project_id(projects: &Vec<ProjectRow>, name: &str) -> (res: Option<String>)
    ensures
        opt_text(res) == first_project_id(projects_view(projects@), name@),
{
    let ghost ps = projects_view(projects@);
    let mut k: usize = 0;
    assert(ps.skip(0) =~= ps);
    while k < projects.len()
        invariant
            ps == projects_view(projects@),
            k <= projects.len(),
            first_project_id(ps, name@) == first_project_id(ps.skip(k as int), name@),
        decreases projects.len() - k,
    {
        assert(ps.skip(k as int)[0] == projects@[k as int]@);
        if same_text(projects[k].name.as_str(), name) {
            return Some(projects[k].id.clone());
        }
        assert(ps.skip(k as int).drop_first() =~= ps.skip(k + 1));
        k = k + 1;
    }
    assert(ps.skip(k as int).len() == 0);
    None
}

/// The messages of the commits that the first project named `project_name`
/// made within `[from_ms, to_ms]`, oldest first.
pub fn commit_messages(
    projects: &Vec<ProjectRow>,
    commits: &Vec<StoredCommit>,
    project_name: &str,
    from_ms: i64,
    to_ms: i64,
) -> (res: Vec<String>)
    ensures
        texts(res@) == window_messages(
            projects_view(projects@),
            stored_view(commits@),
            project_name@,
            from_ms as int,
            to_ms as int,
        ),
{
    match find_project_id(projects, project_name) {
        None => {
            let res: Vec<String> = Vec::new();
            assert(texts(res@).len() == 0);
            res
        },
        Some(pid) => {
            let found = in_window(commits, pid.as_str(), from_ms, to_ms);
            let mut res: Vec<String> = Vec::new();
            let mut k: usize = 0;
            while k < found.len()
                invariant
                    k <= found.len(),
                    texts(res@) == commits_view(found@).take(k as int).map_values(
                        |c: CommitView| c.message,
                    ),
                decreases found.len() - k,
            {
                let ghost before = texts(res@);
                res.push(found[k].message.clone());
                assert(texts(res@) =~= before.push(found@[k as int].message@));
                assert(commits_view(found@).take(k + 1).map_values(|c: CommitView| c.message)
                    =~= commits_view(found@).take(k as int).map_values(|c: CommitView| c.message).push(
                    found@[k as int].message@,
                ));
                k = k + 1;
            }
            let ghost ws = commits_view(found@);
            assert(ws.take(found.len() as int) =~= ws);
            assert(messages_of(ws) =~= texts(res@));
            res
        },
    }
}

// ---------------------------------------------------------------- period

/// The projects with id `pid`.
pub open spec fn projects_with_id(ps: Seq<ProjectView>, pid: Seq<char>) -> Seq<ProjectView> {
    ps.filter(|p: ProjectView| p.id == pid)
}

/// (project name, message) of each commit made within `[from, to]`, joined
/// with each project of its id, in the order of the commits.
pub open spec fn range_pairs(ps: Seq<ProjectView>, cs: Seq<StoredView>, from: int, to: int) -> Seq<
    (Seq<char>, Seq<char>),
>
    decreases cs.len(),
{
    if cs.len() == 0 {
        Seq::empty()
    } else {
        let c = cs.last();
        range_pairs(ps, cs.drop_last(), from, to) + if from <= c.committed_at_ms <= to {
            projects_with_id(ps, c.project_id).map_values(
                |p: ProjectView| (p.name, c.message),
            )
        } else {
            Seq::empty()
        }
    }
}

/// The commits made within `[from_ms, to_ms]`, as (project name, message).
pub fn range_commits(projects: &Vec<ProjectRow>, commits: &Vec<StoredCommit>, from_ms: i64, to_ms: i64) -> (res: Vec<(String, String)>)
    ensures
        res@.map_values(|x: (String, String)| (x.0@, x.1@)) == range_pairs(
            projects_view(projects@),
            stored_view(commits@),
            from_ms as int,
            to_ms as int,
        ),
{
    let ghost ps = projects_view(projects@);
    let ghost cs = stored_view(commits@);
    let mut res: Vec<(String, String)> = Vec::new();
    let mut k: usize = 0;
    assert(cs.take(0) =~= Seq::<StoredView>::empty());
    assert(res@.map_values(|x: (String, String)| (x.0@, x.1@)) =~= range_pairs(ps, cs.take(0), from_ms as int, to_ms as int));
    while k < commits.len()
        invariant
            ps == projects_view(projects@),
            cs == stored_view(commits@),
            k <= commits.len(),
            res@.map_values(|x: (String, String)| (x.0@, x.1@)) == range_pairs(
                ps,
                cs.take(k as int),
                from_ms as int,
                to_ms as int,
            ),
        decreases commits.len() - k,
    {
        let c = &commits[k];
        assert(cs[k as int] == c@);
        assert(cs.take(k + 1).drop_last() =~= cs.take(k as int));
        assert(cs.take(k + 1).last() == c@);
        let ghost base = res@.map_values(|x: (String, String)| (x.0@, x.1@));
        if from_ms <= c.committed_at_ms && c.committed_at_ms <= to_ms {
            let mut t: usize = 0;
            proof {
                reveal(Seq::filter);
                assert(ps.take(0) =~= Seq::<ProjectView>::empty());
                assert(res@.map_values(|x: (String, String)| (x.0@, x.1@)) =~= base + projects_with_id(
                    ps.take(0),
                    c.project_id@,
                ).map_values(|p: ProjectView| (p.name, c.message@)));
            }
            while t < projects.len()
                invariant
                    ps == projects_view(projects@),
                    t <= projects.len(),
                    res@.map_values(|x: (String, String)| (x.0@, x.1@)) == base + projects_with_id(
                        ps.take(t as int),
                        c.project_id@,
                    ).map_values(|p: ProjectView| (p.name, c.message@)),
                decreases projects.len() - t,
            {
                let ghost f = projects_with_id(ps.take(t as int), c.project_id@);
                proof {
                    reveal(Seq::filter);
                    assert(ps.take(t + 1).drop_last() =~= ps.take(t as int));
                    assert(ps.take(t + 1).last() == projects@[t as int]@);
                }
                if same_text(projects[t].id.as_str(), c.project_id.as_str()) {
                    let ghost before = res@.map_values(|x: (String, String)| (x.0@, x.1@));
                    res.push((projects[t].name.clone(), c.message.clone()));
                    assert(res@.map_values(|x: (String, String)| (x.0@, x.1@)) =~= before.push(
                        (projects@[t as int].name@, c.message@),
                    ));
                    assert(f.push(projects@[t as int]@).map_values(
                        |p: ProjectView| (p.name, c.message@),
                    ) =~= f.map_values(|p: ProjectView| (p.name, c.message@)).push(
                        (projects@[t as int].name@, c.message@),
                    ));
                }
                t = t + 1;
            }
            assert(ps.take(projects.len() as int) =~= ps);
        } else {
            assert(base =~= base + Seq::<(Seq<char>, Seq<char>)>::empty());
        }
        k = k + 1;
    }
    assert(cs.take(commits.len() as int) =~= cs);
    res
}


// ---------------------------------------------------------------- rows

/// The row of session `r`, with `ms` as its commits.
pub open spec fn session_item(r: SessionView, ms: Seq<Seq<char>>) -> RowView {
    RowView {
        project: r.project,
        title: r.title,
        agent: r.agent,
        model_id: r.model_id,
        tokens_in: r.tokens_in,
        tokens_out: r.tokens_out,
        message_count: r.message_count,
        additions: r.additions,
        deletions: r.deletions,
        files_changed: r.files_changed,
        duration_ms: (r.ended_at_ms - r.started_at_ms) as i64,
        commits: ms,
    }
}

/// The rows of the sessions, in their order, each with the commits of its
/// project made from `WINDOW_MS` before the session's start to `WINDOW_MS`
/// after its end.
pub open spec fn session_items(rows: Seq<SessionView>, ps: Seq<ProjectView>, cs: Seq<StoredView>) -> Seq<
    RowView,
> {
    rows.map_values(
        |r: SessionView|
            session_item(
                r,
                window_messages(ps, cs, r.project, r.started_at_ms - WINDOW_MS, r.ended_at_ms + WINDOW_MS),
            ),
    )
}

/// The window bounds and the duration of every session fit an `i64`.
pub open spec fn sessions_fit(rows: Seq<SessionView>) -> bool {
    forall|i: int|
        0 <= i < rows.len() ==> {
            &&& i64::MIN <= #[trigger] rows[i].started_at_ms - WINDOW_MS
            &&& rows[i].ended_at_ms + WINDOW_MS <= i64::MAX
            &&& i64::MIN <= rows[i].ended_at_ms - rows[i].started_at_ms <= i64::MAX
        }
}

/// All commit messages of the rows, row after row.
pub open spec fn flat_commits(items: Seq<RowView>) -> Seq<Seq<char>>
    decreases items.len(),
{
    if items.len() == 0 {
        Seq::empty()
    } else {
        flat_commits(items.drop_last()) + items.last().commits
    }
}

pub open spec fn has_project(items: Seq<RowView>, p: Seq<char>) -> bool {
    exists|i: int| 0 <= i < items.len() && #[trigger] items[i].project == p
}

pub open spec fn is_first_with(items: Seq<RowView>, p: Seq<char>, i: int) -> bool {
    &&& 0 <= i < items.len()
    &&& items[i].project == p
    &&& forall|j: int| 0 <= j < i ==> #[trigger] items[j].project != p
}

/// The first row of project `p`.
pub open spec fn first_with_project(items: Seq<RowView>, p: Seq<char>) -> int {
    choose|i: int| is_first_with(items, p, i)
}

/// Row `r` with `m` added at the end of its commits.
pub open spec fn with_commit(r: RowView, m: Seq<char>) -> RowView {
    RowView { commits: r.commits.push(m), ..r }
}

/// A row without a session that carries commit `m` of project `p`.
pub open spec fn standalone_row(p: Seq<char>, m: Seq<char>) -> RowView {
    RowView {
        project: p,
        title: Seq::empty(),
        agent: None,
        model_id: None,
        tokens_in: 0,
        tokens_out: 0,
        message_count: 0,
        additions: 0,
        deletions: 0,
        files_changed: 0,
        duration_ms: 0,
        commits: seq![m],
    }
}

/// A commit of the period whose message is not in `used` joins the first
/// row of its project, or a new row of its own.
pub open spec fn place_one(items: Seq<RowView>, pair: (Seq<char>, Seq<char>), used: Seq<Seq<char>>) -> Seq<
    RowView,
> {
    if used.contains(pair.1) {
        items
    } else if has_project(items, pair.0) {
        let i = first_with_project(items, pair.0);
        items.update(i, with_commit(items[i], pair.1))
    } else {
        items.push(standalone_row(pair.0, pair.1))
    }
}

/// The commits of the period placed one after the other.
pub open spec fn placed(items: Seq<RowView>, pairs: Seq<(Seq<char>, Seq<char>)>, used: Seq<Seq<char>>) -> Seq<
    RowView,
>
    decreases pairs.len(),
{
    if pairs.len() == 0 {
        items
    } else {
        place_one(placed(items, pairs.drop_last(), used), pairs.last(), used)
    }
}

/// The rows of a report on the period `[from, to]`: the rows of the
/// sessions, then the commits of the period that no session took in.
pub open spec fn period_rows(
    rows: Seq<SessionView>,
    ps: Seq<ProjectView>,
    cs: Seq<StoredView>,
    from: int,
    to: int,
) -> Seq<RowView> {
    let items = session_items(rows, ps, cs);
    placed(items, range_pairs(ps, cs, from, to), flat_commits(items))
}

fn session_rows(rows: &Vec<SessionRow>, projects: &Vec<ProjectRow>, commits: &Vec<StoredCommit>) -> (res:
    Vec<ReportRow>)
    requires
        sessions_fit(sessions_view(rows@)),
    ensures
        rows_view(res@) == session_items(
            sessions_view(rows@),
            projects_view(projects@),
            stored_view(commits@),
        ),
{
    let ghost sv = sessions_view(rows@);
    let mut items: Vec<ReportRow> = Vec::new();
    let mut i: usize = 0;
    while i < rows.len()
        invariant
            sv == sessions_view(rows@),
            sessions_fit(sv),
            i <= rows.len(),
            items.len() == i,
            rows_view(items@) == session_items(
                sv.take(i as int),
                projects_view(projects@),
                stored_view(commits@),
            ),
        decreases rows.len() - i,
    {
        let r = &rows[i];
        assert(sv[i as int] == r@);
        let found = commit_messages(
            projects,
            commits,
            r.project.as_str(),
            r.started_at_ms - WINDOW_MS,
            r.ended_at_ms + WINDOW_MS,
        );
        let item = ReportRow {
            project: r.project.clone(),
            title: r.title.clone(),
            agent: clone_opt(&r.agent),
            model_id: clone_opt(&r.model_id),
            tokens_in: r.tokens_in,
            tokens_out: r.tokens_out,
            message_count: r.message_count,
            additions: r.additions,
            deletions: r.deletions,
            files_changed: r.files_changed,
            duration_ms: r.ended_at_ms - r.started_at_ms,
            commits: found,
        };
        assert(item@ == session_item(
            r@,
            window_messages(
                projects_view(projects@),
                stored_view(commits@),
                r@.project,
                r@.started_at_ms - WINDOW_MS,
                r@.ended_at_ms + WINDOW_MS,
            ),
        ));
        let ghost before = rows_view(items@);
        items.push(item);
        assert(sv.take(i + 1) =~= sv.take(i as int).push(r@));
        assert(rows_view(items@) =~= before.push(item@));
        assert(session_items(sv.take(i + 1), projects_view(projects@), stored_view(commits@))
            =~= session_items(sv.take(i as int), projects_view(projects@), stored_view(commits@)).push(
            item@,
        ));
        assert(rows_view(items@) =~= session_items(
            sv.take(i + 1),
            projects_view(projects@),
            stored_view(commits@),
        ));
        i = i + 1;
    }
    assert(sv.take(rows.len() as int) =~= sv);
    items
}

// The used messages are kept in a `Vec` searched by a verified loop. vstd
// specifies `HashSet` only for key types with `obeys_key_model`, which it
// grants to integers and `bool` but not to `String`, so a `HashSet<String>`
// would give no contract to prove membership with.
fn contains_text(v: &Vec<String>, m: &String) -> (res: bool)
    ensures
        res == texts(v@).contains(m@),
{
    let mut k: usize = 0;
    while k < v.len()
        invariant
            k <= v.len(),
            forall|j: int| 0 <= j < k ==> texts(v@)[j] != m@,
        decreases v.len() - k,
    {
        if same_text(v[k].as_str(), m.as_str()) {
            assert(texts(v@)[k as int] == m@);
            return true;
        }
        k = k + 1;
    }
    false
}

fn all_messages(items: &Vec<ReportRow>) -> (res: Vec<String>)
    ensures
        texts(res@) == flat_commits(rows_view(items@)),
{
    let ghost iv = rows_view(items@);
    let mut res: Vec<String> = Vec::new();
    let mut i: usize = 0;
    assert(iv.take(0) =~= Seq::<RowView>::empty());
    assert(texts(res@) =~= flat_commits(iv.take(0)));
    while i < items.len()
        invariant
            iv == rows_view(items@),
            i <= items.len(),
            texts(res@) == flat_commits(iv.take(i as int)),
        decreases items.len() - i,
    {
        let cs = &items[i].commits;
        let ghost base = texts(res@);
        let mut j: usize = 0;
        assert(base =~= base + texts(cs@).take(0));
        while j < cs.len()
            invariant
                j <= cs.len(),
                texts(res@) == base + texts(cs@).take(j as int),
            decreases cs.len() - j,
        {
            let ghost before = texts(res@);
            res.push(cs[j].clone());
            assert(texts(res@) =~= before.push(cs@[j as int]@));
            assert(texts(cs@).take(j + 1) =~= texts(cs@).take(j as int).push(cs@[j as int]@));
            assert(base + texts(cs@).take(j + 1) =~= (base + texts(cs@).take(j as int)).push(
                cs@[j as int]@,
            ));
            j = j + 1;
        }
        assert(texts(cs@).take(cs.len() as int) =~= texts(cs@));
        assert(iv.take(i + 1).drop_last() =~= iv.take(i as int));
        assert(iv.take(i + 1).last() == items@[i as int]@);
        i = i + 1;
    }
    assert(iv.take(items.len() as int) =~= iv);
    res
}

fn place(items: &mut Vec<ReportRow>, pair: &(String, String), used: &Vec<String>)
    ensures
        rows_view(final(items)@) == place_one(rows_view(old(items)@), (pair.0@, pair.1@), texts(used@)),
{
    let ghost iv = rows_view(items@);
    let ghost key = (pair.0@, pair.1@);
    if contains_text(used, &pair.1) {
        return;
    }
    let mut j: usize = 0;
    while j < items.len() && !same_text(items[j].project.as_str(), pair.0.as_str())
        invariant
            iv == rows_view(items@),
            j <= items.len(),
            forall|t: int| 0 <= t < j ==> #[trigger] iv[t].project != pair.0@,
        decreases items.len() - j,
    {
        j = j + 1;
    }
    if j < items.len() {
        assert(is_first_with(iv, pair.0@, j as int));
        assert(has_project(iv, pair.0@));
        let ghost f = first_with_project(iv, pair.0@);
        assert(is_first_with(iv, pair.0@, f));
        assert(f == j) by {
            if f < j {
                assert(iv[f].project != pair.0@);
            }
            if f > j {
                assert(iv[j as int].project != pair.0@);
            }
        }
        let mut row = items.remove(j);
        row.commits.push(pair.1.clone());
        assert(row@ == with_commit(iv[j as int], pair.1@)) by {
            assert(texts(row.commits@) =~= iv[j as int].commits.push(pair.1@));
        }
        items.insert(j, row);
        assert(rows_view(items@) =~= iv.update(j as int, with_commit(iv[j as int], pair.1@)));
    } else {
        assert(!has_project(iv, pair.0@));
        let mut commits: Vec<String> = Vec::new();
        commits.push(pair.1.clone());
        let row = ReportRow {
            project: pair.0.clone(),
            title: String::new(),
            agent: None,
            model_id: None,
            tokens_in: 0,
            tokens_out: 0,
            message_count: 0,
            additions: 0,
            deletions: 0,
            files_changed: 0,
            duration_ms: 0,
            commits,
        };
        assert(row@ == standalone_row(pair.0@, pair.1@)) by {
            assert(texts(row.commits@) =~= seq![pair.1@]);
        }
        items.push(row);
        assert(rows_view(items@) =~= iv.push(standalone_row(pair.0@, pair.1@)));
    }
}

/// The rows of the report on `[from_ms, to_ms]`. `rows` are the sessions of
/// the period in report order, `projects` and `commits` what the diary holds.
pub fn build(
    rows: &Vec<SessionRow>,
    projects: &Vec<ProjectRow>,
    commits: &Vec<StoredCommit>,
    from_ms: i64,
    to_ms: i64,
) -> (res: Vec<ReportRow>)
    requires
        sessions_fit(sessions_view(rows@)),
    ensures
        rows_view(res@) == period_rows(
            sessions_view(rows@),
            projects_view(projects@),
            stored_view(commits@),
            from_ms as int,
            to_ms as int,
        ),
{
    let mut items = session_rows(rows, projects, commits);
    let ghost items0 = rows_view(items@);
    let used = all_messages(&items);
    let pairs = range_commits(projects, commits, from_ms, to_ms);
    let ghost pv = pairs@.map_values(|x: (String, String)| (x.0@, x.1@));
    let mut k: usize = 0;
    assert(pv.take(0) =~= Seq::<(Seq<char>, Seq<char>)>::empty());
    while k < pairs.len()
        invariant
            pv == pairs@.map_values(|x: (String, String)| (x.0@, x.1@)),
            texts(used@) == flat_commits(items0),
            k <= pairs.len(),
            rows_view(items@) == placed(items0, pv.take(k as int), flat_commits(items0)),
        decreases pairs.len() - k,
    {
        place(&mut items, &pairs[k], &used);
        assert(pv.take(k + 1).drop_last() =~= pv.take(k as int));
        assert(pv.take(k + 1).last() == (pairs@[k as int].0@, pairs@[k as int].1@));
        k = k + 1;
    }
    assert(pv.take(pairs.len() as int) =~= pv);
    items
}


// ---------------------------------------------------------------- laws

/// The commits of the period whose messages are not in `used`.
pub open spec fn unused_pairs(pairs: Seq<(Seq<char>, Seq<char>)>, used: Seq<Seq<char>>) -> Seq<
    (Seq<char>, Seq<char>),
> {
    pairs.filter(|x: (Seq<char>, Seq<char>)| !used.contains(x.1))
}

/// Row `b` is row `a` with possibly more commits at the end.
pub open spec fn extends(a: RowView, b: RowView) -> bool {
    &&& b == RowView { commits: b.commits, ..a }
    &&& a.commits.len() <= b.commits.len()
    &&& b.commits.take(a.commits.len() as int) == a.commits
}

proof fn lemma_total_update(rows: Seq<RowView>, i: int, x: RowView, g: spec_fn(RowView) -> int)
    requires
        0 <= i < rows.len(),
    ensures
        crate::report::total(rows.update(i, x), g) == crate::report::total(rows, g) - g(rows[i])
            + g(x),
    decreases rows.len(),
{
    let u = rows.update(i, x);
    if i == rows.len() - 1 {
        assert(u.drop_last() =~= rows.drop_last());
    } else {
        assert(u.drop_last() =~= rows.drop_last().update(i, x));
        lemma_total_update(rows.drop_last(), i, x, g);
    }
}

proof fn lemma_total_push_one(rows: Seq<RowView>, x: RowView, g: spec_fn(RowView) -> int)
    ensures
        crate::report::total(rows.push(x), g) == crate::report::total(rows, g) + g(x),
{
    assert(rows.push(x).drop_last() =~= rows);
}

proof fn lemma_first_from(items: Seq<RowView>, p: Seq<char>, w: int)
    requires
        0 <= w < items.len(),
        items[w].project == p,
    ensures
        exists|i: int| is_first_with(items, p, i),
    decreases w,
{
    if forall|j: int| 0 <= j < w ==> #[trigger] items[j].project != p {
        assert(is_first_with(items, p, w));
    } else {
        let j = choose|j: int| 0 <= j < w && #[trigger] items[j].project == p;
        lemma_first_from(items, p, j);
    }
}

/// When some row is of project `p`, `first_with_project` names the first.
pub proof fn lemma_first_with_project(items: Seq<RowView>, p: Seq<char>)
    requires
        has_project(items, p),
    ensures
        is_first_with(items, p, first_with_project(items, p)),
{
    let w = choose|w: int| 0 <= w < items.len() && #[trigger] items[w].project == p;
    lemma_first_from(items, p, w);
}

/// No commit of the period is lost: the rows carry the commits of the
/// sessions plus one for each commit of the period whose message no session
/// took in.
pub proof fn lemma_no_commit_lost(
    items: Seq<RowView>,
    pairs: Seq<(Seq<char>, Seq<char>)>,
    used: Seq<Seq<char>>,
)
    ensures
        crate::report::total(placed(items, pairs, used), crate::report::commit_weight())
            == crate::report::total(items, crate::report::commit_weight()) + unused_pairs(
            pairs,
            used,
        ).len(),
    decreases pairs.len(),
{
    let cw = crate::report::commit_weight();
    if pairs.len() == 0 {
        reveal(Seq::filter);
    } else {
        lemma_no_commit_lost(items, pairs.drop_last(), used);
        assert(unused_pairs(pairs, used) == if !used.contains(pairs.last().1) {
            unused_pairs(pairs.drop_last(), used).push(pairs.last())
        } else {
            unused_pairs(pairs.drop_last(), used)
        }) by {
            reveal(Seq::filter);
        }
        let prev = placed(items, pairs.drop_last(), used);
        let pair = pairs.last();
        if used.contains(pair.1) {
        } else if has_project(prev, pair.0) {
            let i = first_with_project(prev, pair.0);
            lemma_first_with_project(prev, pair.0);
            lemma_total_update(prev, i, with_commit(prev[i], pair.1), cw);
        } else {
            lemma_total_push_one(prev, standalone_row(pair.0, pair.1), cw);
        }
    }
}


proof fn lemma_extends_trans(a: RowView, b: RowView, c: RowView)
    requires
        extends(a, b),
        extends(b, c),
    ensures
        extends(a, c),
{
    assert(c.commits.take(a.commits.len() as int) =~= c.commits.take(b.commits.len() as int).take(
        a.commits.len() as int,
    ));
}

/// Placing the commits of the period keeps every row, in its place, and its
/// commits: a row only gains commits at its end.
pub proof fn lemma_rows_kept(
    items: Seq<RowView>,
    pairs: Seq<(Seq<char>, Seq<char>)>,
    used: Seq<Seq<char>>,
)
    ensures
        placed(items, pairs, used).len() >= items.len(),
        forall|i: int| 0 <= i < items.len() ==> extends(items[i], #[trigger] placed(items, pairs, used)[i]),
    decreases pairs.len(),
{
    if pairs.len() == 0 {
        assert forall|i: int| 0 <= i < items.len() implies extends(items[i], #[trigger] placed(items, pairs, used)[i]) by {
            assert(items[i].commits.take(items[i].commits.len() as int) =~= items[i].commits);
        }
    } else {
        lemma_rows_kept(items, pairs.drop_last(), used);
        let prev = placed(items, pairs.drop_last(), used);
        let pair = pairs.last();
        let next = placed(items, pairs, used);
        if !used.contains(pair.1) && has_project(prev, pair.0) {
            lemma_first_with_project(prev, pair.0);
        }
        assert(next.len() >= prev.len());
        assert forall|i: int| 0 <= i < prev.len() implies extends(prev[i], #[trigger] next[i]) by {
            assert(prev[i].commits.take(prev[i].commits.len() as int) =~= prev[i].commits);
            if !used.contains(pair.1) && has_project(prev, pair.0) {
                let f = first_with_project(prev, pair.0);
                lemma_first_with_project(prev, pair.0);
                if i == f {
                    assert(next[i] == with_commit(prev[i], pair.1));
                    assert(next[i].commits.take(prev[i].commits.len() as int) =~= prev[i].commits);
                }
            }
        }
        assert forall|i: int| 0 <= i < items.len() implies extends(items[i], #[trigger] next[i]) by {
            assert(extends(items[i], prev[i]));
            assert(extends(prev[i], next[i]));
            lemma_extends_trans(items[i], prev[i], next[i]);
        }
    }
}

/// Each session's row of a period's report carries the session's own
/// project, title, agent, model, token and message counts, lines added and
/// deleted and files changed, field for field, and lasts from the session's
/// start to its end; and it holds the message of every commit of the
/// session's project (the first project of that name) made from two minutes
/// (120000 ms) before the session starts to two minutes after it ends.
pub proof fn lemma_session_row(
    rows: Seq<SessionView>,
    ps: Seq<ProjectView>,
    cs: Seq<StoredView>,
    from: int,
    to: int,
    i: int,
)
    requires
        0 <= i < rows.len(),
        sessions_fit(rows),
    ensures
        i < period_rows(rows, ps, cs, from, to).len(),
        ({
            let x = period_rows(rows, ps, cs, from, to)[i];
            let r = rows[i];
            &&& x.project == r.project
            &&& x.title == r.title
            &&& x.agent == r.agent
            &&& x.model_id == r.model_id
            &&& x.tokens_in == r.tokens_in
            &&& x.tokens_out == r.tokens_out
            &&& x.message_count == r.message_count
            &&& x.additions == r.additions
            &&& x.deletions == r.deletions
            &&& x.files_changed == r.files_changed
            &&& x.duration_ms == r.ended_at_ms - r.started_at_ms
            &&& forall|k: int|
                0 <= k < cs.len() && first_project_id(ps, r.project) == Some(cs[k].project_id)
                    && r.started_at_ms - 120000 <= cs[k].committed_at_ms <= r.ended_at_ms + 120000
                    ==> x.commits.contains(#[trigger] cs[k].message)
        }),
{
    let items = session_items(rows, ps, cs);
    let pairs = range_pairs(ps, cs, from, to);
    lemma_rows_kept(items, pairs, flat_commits(items));
    let x = period_rows(rows, ps, cs, from, to);
    let r = rows[i];
    assert(extends(items[i], x[i]));
    assert(items[i] == session_item(
        r,
        window_messages(ps, cs, r.project, r.started_at_ms - WINDOW_MS, r.ended_at_ms + WINDOW_MS),
    ));
    assert(sessions_fit(rows));
    assert(i64::MIN <= rows[i].ended_at_ms - rows[i].started_at_ms <= i64::MAX);
    assert forall|k: int|
        0 <= k < cs.len() && first_project_id(ps, r.project) == Some(cs[k].project_id)
            && r.started_at_ms - 120000 <= cs[k].committed_at_ms <= r.ended_at_ms + 120000
            implies x[i].commits.contains(#[trigger] cs[k].message) by {
        let pid = cs[k].project_id;
        let from_w = r.started_at_ms - WINDOW_MS;
        let to_w = r.ended_at_ms + WINDOW_MS;
        crate::git::lemma_window_members(cs, pid, from_w, to_w, as_commit(cs[k]));
        let sw = sort_by_time(window_commits(cs, pid, from_w, to_w));
        assert(sw.contains(as_commit(cs[k])));
        let j = choose|j: int| 0 <= j < sw.len() && sw[j] == as_commit(cs[k]);
        let ms = messages_of(sw);
        assert(ms[j] == cs[k].message);
        assert(items[i].commits == ms);
        assert(x[i].commits.take(ms.len() as int)[j] == cs[k].message);
        assert(x[i].commits[j] == cs[k].message);
    }
}

} // verus!
