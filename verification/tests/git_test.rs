use breadcrumbs::git::{
    discover_repos, in_window, is_new_repo, log_args, parse_log, workspace_roots, ChildListing,
    EntryListing, RootListing, StoredCommit,
};
use breadcrumbs::models::Commit;

fn strings(v: &[&str]) -> Vec<String> {
    v.iter().map(|s| s.to_string()).collect()
}

#[test]
fn git_log_arguments() {
    assert_eq!(log_args(300), strings(&["log", "-n300", "--pretty=format:%H%x1f%an%x1f%at%x1f%s"]));
    assert_eq!(log_args(0)[1], "-n0");
}

#[test]
fn parsing_git_log_records() {
    let text = "abc\u{1f}Fixture\u{1f}1700000000\u{1f}add world file\n\
                def\u{1f}\u{1f}notanumber\u{1f}initial commit\r\n\
                broken line\n\
                \u{1f}x\u{1f}1\u{1f}no hash\n\
                ghi\u{1f}A\u{1f}2\u{1f}too\u{1f}many\n";
    let got = parse_log(text).unwrap();
    assert_eq!(
        got,
        vec![
            Commit {
                hash: "abc".into(),
                message: "add world file".into(),
                author: Some("Fixture".into()),
                committed_at_ms: 1_700_000_000_000,
                project_name: None,
            },
            Commit {
                hash: "def".into(),
                message: "initial commit".into(),
                author: None,
                committed_at_ms: 0,
                project_name: None,
            },
        ]
    );
    assert_eq!(parse_log("").unwrap(), Vec::new());
}

#[test]
fn git_log_time_out_of_range() {
    assert!(parse_log("a\u{1f}b\u{1f}9223372036854776\u{1f}m").is_none());
    assert_eq!(parse_log("a\u{1f}b\u{1f}9223372036854775\u{1f}m").unwrap()[0].committed_at_ms, 9223372036854775000);
}

fn stored(hash: &str, project_id: &str, t: i64) -> StoredCommit {
    StoredCommit {
        hash: hash.to_string(),
        project_id: project_id.to_string(),
        message: format!("msg {hash}"),
        author: Some("me".to_string()),
        committed_at_ms: t,
    }
}

#[test]
fn commits_in_a_window_oldest_first() {
    let all = vec![stored("c", "p", 30), stored("a", "p", 10), stored("x", "q", 20), stored("b", "p", 20), stored("z", "p", 99)];
    let got = in_window(&all, "p", 10, 30);
    let hashes: Vec<&str> = got.iter().map(|c| c.hash.as_str()).collect();
    assert_eq!(hashes, vec!["a", "b", "c"]);
    assert_eq!(got[0].message, "msg a");
    assert_eq!(got[0].author.as_deref(), Some("me"));
    assert!(got.iter().all(|c| c.project_name.is_none()));
    assert!(in_window(&all, "p", 40, 50).is_empty());
}

#[test]
fn workspace_roots_from_settings() {
    let defaults = strings(&["/home/me/Git"]);
    assert_eq!(workspace_roots(Some("[\"/a\", \"/b\"]".to_string()), defaults.clone()), strings(&["/a", "/b"]));
    assert_eq!(workspace_roots(Some("not json".to_string()), defaults.clone()), defaults);
    assert_eq!(workspace_roots(Some("[1, 2]".to_string()), defaults.clone()), defaults);
    assert_eq!(workspace_roots(None, defaults.clone()), defaults);
    assert_eq!(workspace_roots(Some("[]".to_string()), defaults), Vec::<String>::new());
}

#[test]
fn discovering_repositories_two_levels_deep() {
    let roots = vec![
        RootListing { is_dir: false, entries: None },
        RootListing {
            is_dir: true,
            entries: Some(vec![
                EntryListing { path: "/g/breadcrumbs".into(), is_dir: true, is_repo: true, children: None },
                EntryListing { path: "/g/file.txt".into(), is_dir: false, is_repo: false, children: None },
                EntryListing {
                    path: "/g/org".into(),
                    is_dir: true,
                    is_repo: false,
                    children: Some(vec![
                        ChildListing { path: "/g/org/one".into(), is_dir: true, is_repo: true },
                        ChildListing { path: "/g/org/plain".into(), is_dir: true, is_repo: false },
                        ChildListing { path: "/g/org/f".into(), is_dir: false, is_repo: true },
                    ]),
                },
                EntryListing { path: "/g/unreadable".into(), is_dir: true, is_repo: false, children: None },
            ]),
        },
        RootListing { is_dir: true, entries: None },
    ];
    assert_eq!(discover_repos(&roots), strings(&["/g/breadcrumbs", "/g/org/one"]));
}

#[test]
fn registering_counts_only_new_projects() {
    assert!(is_new_repo(0, true));
    assert!(!is_new_repo(1, true));
    assert!(!is_new_repo(0, false));
}
