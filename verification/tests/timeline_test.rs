use breadcrumbs::git::StoredCommit;
use breadcrumbs::models::Commit;
use breadcrumbs::report_rows::ProjectRow;
use breadcrumbs::timeline::{since_ms, timeline_commits, TimelineSession, DAY_MS};

fn stored(hash: &str, project_id: &str, t: i64) -> StoredCommit {
    StoredCommit {
        hash: hash.to_string(),
        project_id: project_id.to_string(),
        message: format!("msg {hash}"),
        author: Some("me".to_string()),
        committed_at_ms: t,
    }
}

fn named(hash: &str, project: &str, t: i64) -> Commit {
    Commit {
        hash: hash.to_string(),
        message: format!("msg {hash}"),
        author: Some("me".to_string()),
        committed_at_ms: t,
        project_name: Some(project.to_string()),
    }
}

#[test]
fn timeline_start() {
    assert_eq!(DAY_MS, 86_400_000);
    assert_eq!(since_ms(1_000_000_000_000, 7), 1_000_000_000_000 - 7 * 86_400_000);
    assert_eq!(since_ms(5, 0), 5);
}

#[test]
fn sessions_take_their_commits() {
    let projects = vec![
        ProjectRow { id: "p1".into(), name: "web".into() },
        ProjectRow { id: "p2".into(), name: "api".into() },
    ];
    let commits = vec![
        stored("a", "p1", 1_100_000),
        stored("b", "p1", 880_000),
        stored("c", "p2", 1_050_000),
        stored("d", "p1", 3_000_000),
        stored("e", "p2", 500),
        stored("f", "p1", 1_000_000),
    ];
    let sessions = vec![
        TimelineSession { project_id: "p1".into(), started_at_ms: 1_000_000, ended_at_ms: 1_200_000 },
        TimelineSession { project_id: "p3".into(), started_at_ms: 0, ended_at_ms: 10 },
    ];
    let (per_session, standalone) = timeline_commits(&sessions, &projects, &commits, 1_000);
    assert_eq!(per_session.len(), 2);
    let hashes: Vec<&str> = per_session[0].iter().map(|c| c.hash.as_str()).collect();
    assert_eq!(hashes, vec!["b", "f", "a"]);
    assert!(per_session[0].iter().all(|c| c.project_name.is_none()));
    assert!(per_session[1].is_empty());
    assert_eq!(standalone, vec![named("d", "web", 3_000_000), named("c", "api", 1_050_000)]);
}

#[test]
fn nothing_matched_without_sessions() {
    let projects = vec![ProjectRow { id: "p1".into(), name: "web".into() }];
    let commits = vec![stored("x", "p1", 10), stored("y", "p1", 30), stored("z", "p9", 20)];
    let (per_session, standalone) = timeline_commits(&Vec::new(), &projects, &commits, 0);
    assert!(per_session.is_empty());
    assert_eq!(standalone, vec![named("y", "web", 30), named("x", "web", 10)]);
}

#[test]
fn same_moment_commits_keep_their_order_in_the_timeline() {
    let projects = vec![ProjectRow { id: "p1".into(), name: "web".into() }];
    let commits = vec![stored("b", "p1", 50), stored("a", "p1", 50), stored("c", "p1", 10), stored("d", "p1", 50)];
    let sessions = vec![TimelineSession { project_id: "p1".into(), started_at_ms: 0, ended_at_ms: 100 }];
    let (per_session, standalone) = timeline_commits(&sessions, &projects, &commits, 0);
    let hashes: Vec<&str> = per_session[0].iter().map(|c| c.hash.as_str()).collect();
    assert_eq!(hashes, vec!["c", "b", "a", "d"]);
    assert!(standalone.is_empty());
    let (_, standalone) = timeline_commits(&Vec::new(), &projects, &commits, 0);
    let hashes: Vec<&str> = standalone.iter().map(|c| c.hash.as_str()).collect();
    assert_eq!(hashes, vec!["b", "a", "d", "c"]);
}
