use breadcrumbs::models::SyncStats;
use breadcrumbs::opencode::{
    cursor_state, inspect_source, is_noise, last_synced, parse_model, plan_batch, record_session,
    row_to_raw, session_select_sql, RawColumns, RawSession, SourceSchema, SyncCursor, BATCH_SIZE,
    LAST_ID_KEY, LAST_UPDATED_KEY,
};

fn strings(v: &[&str]) -> Vec<String> {
    v.iter().map(|s| s.to_string()).collect()
}

#[test]
fn schema_with_everything() {
    let session = strings(&[
        "id", "directory", "title", "time_created", "time_updated", "parent_id", "model",
        "agent", "cost", "tokens_input", "summary_files", "unrelated",
    ]);
    let message = strings(&["id", "session_id", "data"]);
    let schema = inspect_source(&session, &message).unwrap();
    assert!(schema.has_parent_id);
    assert!(schema.has_message_table);
    assert_eq!(schema.select_cols, strings(&["agent", "model", "cost", "tokens_input", "summary_files"]));
}

#[test]
fn schema_without_optional_parts() {
    let session = strings(&["time_updated", "title", "id", "directory", "time_created"]);
    let schema = inspect_source(&session, &Vec::new()).unwrap();
    assert!(!schema.has_parent_id);
    assert!(!schema.has_message_table);
    assert!(schema.select_cols.is_empty());
}

#[test]
fn schema_missing_columns() {
    let session = strings(&["id", "time_created", "time_updated"]);
    assert_eq!(
        inspect_source(&session, &Vec::new()),
        Err("opencode.db schema mismatch, missing: [\"directory\", \"title\"]".to_string())
    );
    assert_eq!(
        inspect_source(&Vec::new(), &Vec::new()),
        Err("opencode.db schema mismatch, missing: [\"directory\", \"id\", \"time_created\", \"time_updated\", \"title\"]".to_string())
    );
}

#[test]
fn batch_query_text() {
    let full = SourceSchema {
        has_parent_id: true,
        has_message_table: true,
        select_cols: strings(&["model", "tokens_input"]),
    };
    assert_eq!(
        session_select_sql(&full),
        "SELECT id, directory, title, time_created, time_updated, model, tokens_input, parent_id, \
         (SELECT COUNT(*) FROM message m WHERE m.session_id = s.id) AS msg_count FROM session s \
         WHERE (time_updated > ?1 OR (time_updated = ?1 AND id > ?2)) AND time_created != time_updated \
         ORDER BY time_updated ASC, id ASC LIMIT 500"
    );
    let bare = SourceSchema { has_parent_id: false, has_message_table: false, select_cols: Vec::new() };
    assert_eq!(
        session_select_sql(&bare),
        "SELECT id, directory, title, time_created, time_updated, 0 AS msg_count FROM session s \
         WHERE (time_updated > ?1 OR (time_updated = ?1 AND id > ?2)) AND time_created != time_updated \
         ORDER BY time_updated ASC, id ASC LIMIT 500"
    );
}

fn cursor(t: i64, id: &str) -> SyncCursor {
    SyncCursor { time_updated: t, id: id.to_string() }
}

#[test]
fn sync_cursor_from_state() {
    assert_eq!(LAST_UPDATED_KEY, "opencode_last_time_updated");
    assert_eq!(LAST_ID_KEY, "opencode_last_id");
    assert_eq!(last_synced(None, None), cursor(0, ""));
    assert_eq!(last_synced(Some("1700000000123".to_string()), None), cursor(1700000000123, ""));
    assert_eq!(last_synced(Some("-5".to_string()), Some("ses_9".to_string())), cursor(-5, "ses_9"));
    assert_eq!(last_synced(Some("abc".to_string()), Some("ses_9".to_string())), cursor(0, ""));
    assert_eq!(last_synced(Some("".to_string()), None), cursor(0, ""));
    assert_eq!(last_synced(Some("99999999999999999999".to_string()), None), cursor(0, ""));
    assert_eq!(last_synced(None, Some("ses_9".to_string())), cursor(0, ""));
}

#[test]
fn stored_cursor_reads_back() {
    for c in [cursor(0, ""), cursor(1700000000123, "ses_1"), cursor(-42, "x"), cursor(i64::MIN, "a"), cursor(i64::MAX, "z")] {
        let st = cursor_state(&c);
        assert_eq!(st[0].0, LAST_UPDATED_KEY);
        assert_eq!(st[1].0, LAST_ID_KEY);
        assert_eq!(st[0].1, c.time_updated.to_string());
        assert_eq!(last_synced(Some(st[0].1.clone()), Some(st[1].1.clone())), c);
    }
}

fn columns() -> RawColumns {
    RawColumns {
        id: None,
        directory: None,
        title: None,
        time_created: None,
        time_updated: None,
        agent: None,
        model: None,
        tokens_input: None,
        tokens_output: None,
        tokens_reasoning: None,
        summary_additions: None,
        summary_deletions: None,
        summary_files: None,
        msg_count: None,
        parent_id: None,
    }
}

#[test]
fn rows_with_defaults() {
    let empty = row_to_raw(columns());
    assert_eq!(empty.id, "");
    assert_eq!(empty.directory, "");
    assert_eq!(empty.time_updated, 0);
    assert_eq!(empty.message_count, 0);
    assert!(!empty.is_subagent);

    let mut c = columns();
    c.id = Some("ses_1".into());
    c.directory = Some("/g/repo".into());
    c.title = Some("Fix".into());
    c.time_created = Some(10);
    c.time_updated = Some(20);
    c.agent = Some("build".into());
    c.tokens_input = Some(100);
    c.tokens_output = Some(7);
    c.summary_additions = Some(3);
    c.summary_files = Some(1);
    c.msg_count = Some(4);
    c.parent_id = Some("".into());
    let r = row_to_raw(c);
    assert_eq!(r.id, "ses_1");
    assert_eq!(r.title, "Fix");
    assert_eq!((r.time_created, r.time_updated), (10, 20));
    assert_eq!(r.agent.as_deref(), Some("build"));
    assert_eq!(r.model, None);
    assert_eq!((r.tokens_input, r.tokens_output, r.tokens_reasoning), (100, 7, 0));
    assert_eq!((r.additions, r.deletions, r.files_changed), (3, 0, 1));
    assert_eq!(r.message_count, 4);
    assert!(!r.is_subagent);

    let mut child = columns();
    child.parent_id = Some("ses_0".into());
    assert!(row_to_raw(child).is_subagent);
}

fn session(id: &str, dir: &str, updated: i64, tin: i64, tout: i64, msgs: i64, sub: bool) -> RawSession {
    RawSession {
        id: id.into(),
        directory: dir.into(),
        title: String::new(),
        time_created: 1,
        time_updated: updated,
        agent: None,
        model: None,
        tokens_input: tin,
        tokens_output: tout,
        tokens_reasoning: 0,
        additions: 0,
        deletions: 0,
        files_changed: 0,
        message_count: msgs,
        is_subagent: sub,
    }
}

#[test]
fn noise_rows() {
    assert!(is_noise(&session("", "/d", 5, 1, 1, 1, false)));
    assert!(is_noise(&session("a", "", 5, 1, 1, 1, false)));
    assert!(is_noise(&session("a", "/d", 5, 0, 0, 0, false)));
    assert!(!is_noise(&session("a", "/d", 5, 0, 0, 1, false)));
    assert!(!is_noise(&session("a", "/d", 5, 0, 9, 0, false)));
}

#[test]
fn model_column() {
    assert_eq!(parse_model(None), (None, None));
    assert_eq!(
        parse_model(Some(r#"{"providerID":"openrouter","id":"qwen3-coder"}"#.into())),
        (Some("openrouter".to_string()), Some("qwen3-coder".to_string()))
    );
    assert_eq!(parse_model(Some(r#"{"id":"gpt-5"}"#.into())), (None, Some("gpt-5".to_string())));
    assert_eq!(parse_model(Some(r#"{"providerID":3,"id":null}"#.into())), (None, None));
    assert_eq!(parse_model(Some("gpt-4o".into())), (None, Some("gpt-4o".to_string())));
    assert_eq!(parse_model(Some("42".into())), (None, None));
}

#[test]
fn batch_plans() {
    let batch = vec![
        session("a", "/d", 30, 5, 5, 2, false),
        session("b", "/d", 40, 5, 5, 2, true),
        session("c", "", 40, 5, 5, 2, false),
        session("d", "/d", 45, 1, 0, 0, false),
    ];
    let plan = plan_batch(&cursor(10, "z"), &batch);
    assert_eq!(plan.cursor, cursor(45, "d"));
    assert_eq!(plan.keep, vec![0, 3]);
    assert!(!plan.more);

    let empty = plan_batch(&cursor(7, "q"), &Vec::new());
    assert_eq!(empty.cursor, cursor(7, "q"));
    assert!(empty.keep.is_empty());
    assert!(!empty.more);

    // a full batch whose rows all share one time of change: the next batch
    // starts after the last id read, so none at that time is skipped
    let full: Vec<RawSession> =
        (0..BATCH_SIZE).map(|i| session(&format!("s{i:04}"), "/d", 99, 1, 1, 1, false)).collect();
    let plan = plan_batch(&cursor(0, ""), &full);
    assert!(plan.more);
    assert_eq!(plan.cursor, cursor(99, "s0499"));
    assert_eq!(plan.keep.len(), full.len());
}

#[test]
fn counting_imports() {
    let s = SyncStats { new_sessions: 2, updated_sessions: 5 };
    assert_eq!(record_session(s.clone(), true), SyncStats { new_sessions: 2, updated_sessions: 6 });
    assert_eq!(record_session(s, false), SyncStats { new_sessions: 3, updated_sessions: 5 });
}

/// The batch query over `src` (in time-of-change, then id order).
fn query(src: &[RawSession], c: &SyncCursor) -> Vec<RawSession> {
    src.iter()
        .filter(|r| r.time_updated > c.time_updated || (r.time_updated == c.time_updated && r.id > c.id))
        .take(BATCH_SIZE as usize)
        .cloned()
        .collect()
}

/// One pass of a sync over `src` from the stored cursor; the ids read and
/// the cursor stored afterwards.
fn pass(src: &[RawSession], stored: &[(String, String)]) -> (Vec<String>, Vec<(String, String)>) {
    let mut c = last_synced(Some(stored[0].1.clone()), Some(stored[1].1.clone()));
    let mut read = Vec::new();
    loop {
        let batch = query(src, &c);
        read.extend(batch.iter().map(|r| r.id.clone()));
        let plan = plan_batch(&c, &batch);
        assert!(plan.cursor == c || plan.cursor.time_updated >= c.time_updated);
        c = plan.cursor;
        if !plan.more {
            break;
        }
    }
    (read, cursor_state(&c))
}

#[test]
fn every_session_read_once_and_second_pass_reads_nothing() {
    // 600 sessions, the first 520 changed at the same moment
    let src: Vec<RawSession> = (0..600)
        .map(|i| session(&format!("s{i:04}"), "/d", if i < 520 { 77 } else { 100 + i }, 1, 1, 1, false))
        .collect();
    let start = cursor_state(&cursor(0, ""));
    let (read, stored) = pass(&src, &start);
    let all: Vec<String> = src.iter().map(|r| r.id.clone()).collect();
    assert_eq!(read, all);
    assert_eq!(last_synced(Some(stored[0].1.clone()), Some(stored[1].1.clone())), cursor(699, "s0599"));
    let (again, stored_again) = pass(&src, &stored);
    assert!(again.is_empty());
    assert_eq!(stored_again, stored);
}
