use breadcrumbs::git::StoredCommit;
use breadcrumbs::report::{fmt_dur, project_order_of, render, token_figures, ReportRow};
use breadcrumbs::report_rows::{build, commit_messages, range_commits, ProjectRow, SessionRow};

fn row(project: &str, title: &str, tin: i64, tout: i64, dur: i64, adds: i64, dels: i64, files: i64, commits: &[&str]) -> ReportRow {
    ReportRow {
        project: project.to_string(),
        title: title.to_string(),
        agent: None,
        model_id: None,
        tokens_in: tin,
        tokens_out: tout,
        message_count: 0,
        additions: adds,
        deletions: dels,
        files_changed: files,
        duration_ms: dur,
        commits: commits.iter().map(|c| c.to_string()).collect(),
    }
}

fn strings(v: &[&str]) -> Vec<String> {
    v.iter().map(|s| s.to_string()).collect()
}

#[test]
fn durations() {
    assert_eq!(fmt_dur(0), "0m");
    assert_eq!(fmt_dur(59_999), "0m");
    assert_eq!(fmt_dur(60_000), "1m");
    assert_eq!(fmt_dur(59 * 60_000), "59m");
    assert_eq!(fmt_dur(60 * 60_000), "1h00m");
    assert_eq!(fmt_dur(3_900_000), "1h05m");
    assert_eq!(fmt_dur(25 * 3_600_000 + 61_000), "25h01m");
    assert_eq!(fmt_dur(-5), "0m");
    assert_eq!(fmt_dur(-120_000), "0m");
}

#[test]
fn empty_report() {
    let md = render("Daily Report — Test", &Vec::new(), &Vec::new());
    assert_eq!(md, "# Daily Report — Test\n\n_No activity recorded._\n");
}

fn sample_rows() -> Vec<ReportRow> {
    vec![
        row("web", "Fix login", 1200, 300, 7_500_000, 10, 2, 3, &["fix: login"]),
        row("api", "", 0, 0, 0, 0, 0, 0, &["chore: deps"]),
        row("web", "Refactor", 50, 50, 30_000, 0, 0, 0, &[]),
    ]
}

#[test]
fn projects_in_ascending_order_once() {
    assert_eq!(project_order_of(&sample_rows()), strings(&["api", "web"]));
    let rows = vec![
        row("b", "x", 0, 0, 0, 0, 0, 0, &[]),
        row("a", "y", 0, 0, 0, 0, 0, 0, &[]),
        row("b", "z", 0, 0, 0, 0, 0, 0, &[]),
        row("B", "w", 0, 0, 0, 0, 0, 0, &[]),
    ];
    assert_eq!(project_order_of(&rows), strings(&["B", "a", "b"]));
}

#[test]
fn token_figures_per_project_then_total() {
    assert_eq!(token_figures(&sample_rows()), vec![0, 1600, 1600]);
    // a row without a title counts for its project but not for the total
    let rows = vec![row("p", "", 5, 5, 0, 0, 0, 0, &[]), row("p", "s", 1, 2, 0, 0, 0, 0, &[])];
    assert_eq!(token_figures(&rows), vec![13, 3]);
}

#[test]
fn full_report() {
    let rows = sample_rows();
    let md = render("Daily", &rows, &strings(&["0", "1.6k", "1.6k"]));
    let expected = "# Daily\n\
\n## api\n_1 session, 1 commit, 0 tokens_\n\n  - chore: deps\n\
\n## web\n_2 sessions, 1 commit, 1.6k tokens_\n\n\
- Fix login (2h05m), +10/−2 lines across 3 files\n  - fix: login\n\
- Refactor (0m)\n\
\n---\n**Totals:** 2 sessions, 2 commits, 1.6k tokens\n";
    assert_eq!(md, expected);
    assert!(md.contains("Daily"));
}

#[test]
fn totals_count_titled_rows_and_all_commits() {
    let rows = vec![
        row("one", "", 0, 0, 0, 0, 0, 0, &["a", "b"]),
        row("one", "Work", 1, 0, 0, -3, 1, 0, &["c"]),
    ];
    let md = render("T", &rows, &strings(&["1", "1"]));
    assert_eq!(
        md,
        "# T\n\n## one\n_2 sessions, 3 commits, 1 tokens_\n\n  - a\n  - b\n- Work\n  - c\n\n---\n**Totals:** 1 session, 3 commits, 1 tokens\n"
    );
}

fn stored(hash: &str, project_id: &str, message: &str, t: i64) -> StoredCommit {
    StoredCommit {
        hash: hash.to_string(),
        project_id: project_id.to_string(),
        message: message.to_string(),
        author: None,
        committed_at_ms: t,
    }
}

fn projects() -> Vec<ProjectRow> {
    vec![
        ProjectRow { id: "p1".to_string(), name: "web".to_string() },
        ProjectRow { id: "p2".to_string(), name: "api".to_string() },
    ]
}

fn commits() -> Vec<StoredCommit> {
    vec![
        stored("h2", "p1", "late commit", 5_000_000),
        stored("h1", "p1", "fix: login", 1_000_000),
        stored("h3", "p2", "chore: deps", 2_000_000),
        stored("h4", "p1", "old", 10),
        stored("h5", "p1", "first", 900_000),
    ]
}

fn session(project: &str, start: i64, end: i64) -> SessionRow {
    SessionRow {
        id: "s1".to_string(),
        project: project.to_string(),
        title: "Fix login".to_string(),
        agent: Some("build".to_string()),
        model_id: Some("qwen".to_string()),
        tokens_in: 1200,
        tokens_out: 300,
        message_count: 4,
        additions: 10,
        deletions: 2,
        files_changed: 3,
        started_at_ms: start,
        ended_at_ms: end,
    }
}

#[test]
fn window_messages_oldest_first() {
    let got = commit_messages(&projects(), &commits(), "web", 0, 1_500_000);
    assert_eq!(commit_messages(&projects(), &commits(), "web", 11, 1_000_000), strings(&["first", "fix: login"]));
    assert_eq!(got, strings(&["old", "first", "fix: login"]));
    assert_eq!(commit_messages(&projects(), &commits(), "nope", 0, i64::MAX), Vec::<String>::new());
}

#[test]
fn same_moment_commits_keep_their_order() {
    let commits = vec![
        stored("t3", "p1", "third at 500", 500),
        stored("t1", "p1", "first at 100", 100),
        stored("t4", "p1", "fourth at 500", 500),
        stored("t2", "p1", "second at 500", 500),
    ];
    let want = strings(&["first at 100", "third at 500", "fourth at 500", "second at 500"]);
    assert_eq!(commit_messages(&projects(), &commits, "web", 0, 1_000), want);
    assert_eq!(commit_messages(&projects(), &commits, "web", 0, 1_000), commit_messages(&projects(), &commits, "web", 0, 1_000));
}

#[test]
fn range_joined_with_project_names() {
    let got = range_commits(&projects(), &commits(), 500_000, 6_000_000);
    let expected: Vec<(String, String)> = vec![
        ("web".into(), "late commit".into()),
        ("web".into(), "fix: login".into()),
        ("api".into(), "chore: deps".into()),
        ("web".into(), "first".into()),
    ];
    assert_eq!(got, expected);
}

#[test]
fn rows_of_a_period() {
    let rows = build(&vec![session("web", 1_000_000, 1_100_000)], &projects(), &commits(), 500_000, 6_000_000);
    assert_eq!(rows.len(), 2);
    assert_eq!(rows[0].project, "web");
    assert_eq!(rows[0].title, "Fix login");
    assert_eq!(rows[0].duration_ms, 100_000);
    assert_eq!(rows[0].agent.as_deref(), Some("build"));
    // the window takes in "first" and "fix: login"; "late commit" joins the session's row
    assert_eq!(rows[0].commits, strings(&["first", "fix: login", "late commit"]));
    // nothing of project api had a session: a row of its own, without tokens
    assert_eq!(rows[1], row("api", "", 0, 0, 0, 0, 0, 0, &["chore: deps"]));
    // no commit of the period is lost
    let total: usize = rows.iter().map(|r| r.commits.len()).sum();
    assert_eq!(total, 4);
}

#[test]
fn period_without_sessions() {
    let rows = build(&Vec::new(), &projects(), &commits(), 0, 3_000_000);
    assert_eq!(rows.len(), 2);
    assert_eq!(rows[0].project, "web");
    assert_eq!(rows[0].commits, strings(&["fix: login", "old", "first"]));
    assert_eq!(rows[1].commits, strings(&["chore: deps"]));
    let figures = token_figures(&rows);
    assert_eq!(figures, vec![0, 0, 0]);
}
