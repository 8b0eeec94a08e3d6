use breadcrumbs::db::{git_root_for, hash_path, resolve_git_root, PathStep};

fn fnv(path: &str) -> String {
    let mut h: u64 = 0xcbf29ce484222325;
    for b in path.as_bytes() {
        h ^= *b as u64;
        h = h.wrapping_mul(0x100000001b3);
    }
    format!("prj_{h:016x}")
}

#[test]
fn project_ids() {
    assert_eq!(hash_path(""), "prj_cbf29ce484222325");
    assert_eq!(hash_path("a"), "prj_af63dc4c8601ec8c");
    for p in ["/Users/me/Git/breadcrumbs", "/tmp/é", "x"] {
        assert_eq!(hash_path(p), fnv(p));
    }
    assert_eq!(hash_path("/a"), hash_path("/a"));
    assert_ne!(hash_path("/a"), hash_path("/b"));
}

fn step(path: &str, name: Option<&str>, has_git: bool) -> PathStep {
    PathStep { path: path.to_string(), name: name.map(String::from), has_git }
}

#[test]
fn git_roots() {
    let steps = vec![
        step("/g/repo/src/ui", Some("ui"), false),
        step("/g/repo/src", Some("src"), false),
        step("/g/repo", Some("repo"), true),
        step("/g", Some("g"), true),
        step("/", None, false),
    ];
    assert_eq!(resolve_git_root(&steps), "/g/repo");
    assert_eq!(git_root_for(&steps), ("repo".to_string(), "/g/repo".to_string()));
    let none = vec![step("/tmp/x", Some("x"), false), step("/tmp", Some("tmp"), false), step("/", None, false)];
    assert_eq!(resolve_git_root(&none), "/tmp/x");
    assert_eq!(git_root_for(&none), ("x".to_string(), "/tmp/x".to_string()));
    let root = vec![step("/", None, true)];
    assert_eq!(git_root_for(&root), ("unknown".to_string(), "/".to_string()));
}
