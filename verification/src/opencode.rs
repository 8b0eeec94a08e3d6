//! Importing sessions from OpenCode's database: what its schema must offer,
//! how a session row is read and judged, and how a sync proceeds batch by
//! batch.
use vstd::prelude::*;
use crate::json::{is_json_document, json_document, json_string_member, string_member};
use crate::models::{opt_text, SyncStats};
use crate::order::{chars_le, lemma_text_order_total, text_order};
use crate::text::{
    decimal, i64_text, lemma_parse_signed_decimal, parse_i64, parsed_i64, same_text, signed_decimal,
    texts,
};

verus! {

/// The key under which the diary keeps the last `time_updated` synced.
pub const LAST_UPDATED_KEY: &'static str = "opencode_last_time_updated";

/// The key under which the diary keeps the id of the last session synced.
pub const LAST_ID_KEY: &'static str = "opencode_last_id";

/// The number of sessions read per query.
pub const BATCH_SIZE: i64 = 500;

// ---------------------------------------------------------------- schema

/// The columns of `session` a sync cannot do without, in ascending order.
pub open spec fn required_columns() -> Seq<Seq<char>> {
    seq!["directory"@, "id"@, "time_created"@, "time_updated"@, "title"@]
}

/// The columns of `session` a sync reads when they are there.
pub open spec fn optional_columns() -> Seq<Seq<char>> {
    seq![
        "agent"@,
        "model"@,
        "cost"@,
        "tokens_input"@,
        "tokens_output"@,
        "tokens_reasoning"@,
        "tokens_cache_read"@,
        "tokens_cache_write"@,
        "summary_additions"@,
        "summary_deletions"@,
        "summary_files"@,
    ]
}

fn required_list() -> (res: Vec<String>)
    ensures
        texts(res@) == required_columns(),
{
    let mut v: Vec<String> = Vec::new();
    v.push(String::from_str("directory"));
    v.push(String::from_str("id"));
    v.push(String::from_str("time_created"));
    v.push(String::from_str("time_updated"));
    v.push(String::from_str("title"));
    assert(texts(v@) =~= required_columns());
    v
}

fn optional_list() -> (res: Vec<String>)
    ensures
        texts(res@) == optional_columns(),
{
    let mut v: Vec<String> = Vec::new();
    v.push(String::from_str("agent"));
    v.push(String::from_str("model"));
    v.push(String::from_str("cost"));
    v.push(String::from_str("tokens_input"));
    v.push(String::from_str("tokens_output"));
    v.push(String::from_str("tokens_reasoning"));
    v.push(String::from_str("tokens_cache_read"));
    v.push(String::from_str("tokens_cache_write"));
    v.push(String::from_str("summary_additions"));
    v.push(String::from_str("summary_deletions"));
    v.push(String::from_str("summary_files"));
    assert(texts(v@) =~= optional_columns());
    v
}

/// What the source database offers.
#[derive(Debug, Clone, PartialEq, Eq)]
pub struct SourceSchema {
    pub has_parent_id: bool,
    pub has_message_table: bool,
    pub select_cols: Vec<String>,
}

/// The names of `names` that `cols` holds (`keep`) or lacks (`!keep`), in order.
pub open spec fn columns_where(names: Seq<Seq<char>>, cols: Seq<Seq<char>>, keep: bool) -> Seq<
    Seq<char>,
> {
    names.filter(|n: Seq<char>| cols.contains(n) == keep)
}

/// `names` as `{:?}` renders a list of strings: `["a", "b"]`.
pub open spec fn debug_list(names: Seq<Seq<char>>) -> Seq<char> {
    seq!['['] + debug_items(names) + seq![']']
}

pub open spec fn debug_items(names: Seq<Seq<char>>) -> Seq<char>
    decreases names.len(),
{
    if names.len() == 0 {
        Seq::empty()
    } else if names.len() == 1 {
        seq!['"'] + names[0] + seq!['"']
    } else {
        debug_items(names.drop_last()) + ", "@ + seq!['"'] + names.last() + seq!['"']
    }
}

// A table's columns are kept in a `Vec` searched by a verified loop. vstd
// specifies `HashSet` only for key types with `obeys_key_model`, which it
// grants to integers and `bool` but not to `String`, so a `HashSet<String>`
// would give no contract to prove membership with.
fn contains_name(cols: &Vec<String>, name: &String) -> (res: bool)
    ensures
        res == texts(cols@).contains(name@),
{
    let mut k: usize = 0;
    while k < cols.len()
        invariant
            k <= cols.len(),
            forall|j: int| 0 <= j < k ==> texts(cols@)[j] != name@,
        decreases cols.len() - k,
    {
        if same_text(cols[k].as_str(), name.as_str()) {
            assert(texts(cols@)[k as int] == name@);
            return true;
        }
        k = k + 1;
    }
    false
}

fn select_columns(names: &Vec<String>, cols: &Vec<String>, keep: bool) -> (res: Vec<String>)
    ensures
        texts(res@) == columns_where(texts(names@), texts(cols@), keep),
{
    let ghost ns = texts(names@);
    let mut res: Vec<String> = Vec::new();
    let mut k: usize = 0;
    proof {
        reveal(Seq::filter);
        assert(ns.take(0) =~= Seq::<Seq<char>>::empty());
    }
    while k < names.len()
        invariant
            ns == texts(names@),
            k <= names.len(),
            texts(res@) == columns_where(ns.take(k as int), texts(cols@), keep),
        decreases names.len() - k,
    {
        proof {
            reveal(Seq::filter);
            assert(ns.take(k + 1).drop_last() =~= ns.take(k as int));
            assert(ns.take(k + 1).last() == names@[k as int]@);
        }
        let ghost before = texts(res@);
        if contains_name(cols, &names[k]) == keep {
            res.push(names[k].clone());
            assert(texts(res@) =~= before.push(names@[k as int]@));
        }
        k = k + 1;
    }
    assert(ns.take(names.len() as int) =~= ns);
    res
}

fn debug_list_text(names: &Vec<String>) -> (res: String)
    ensures
        res@ == debug_list(texts(names@)),
{
    let ghost ns = texts(names@);
    let mut out = String::new();
    out.push('[');
    let mut k: usize = 0;
    assert(ns.take(0) =~= Seq::<Seq<char>>::empty());
    while k < names.len()
        invariant
            ns == texts(names@),
            k <= names.len(),
            out@ == seq!['['] + debug_items(ns.take(k as int)),
        decreases names.len() - k,
    {
        let ghost before = out@;
        if k > 0 {
            out.append(", ");
        }
        out.push('"');
        out.append(names[k].as_str());
        out.push('"');
        assert(ns.take(k + 1).drop_last() =~= ns.take(k as int));
        assert(ns.take(k + 1).last() == names@[k as int]@);
        if k == 0 {
            assert(ns.take(1)[0] == names@[0]@);
        }
        assert(out@ =~= seq!['['] + debug_items(ns.take(k + 1)));
        k = k + 1;
    }
    out.push(']');
    assert(ns.take(names.len() as int) =~= ns);
    assert(out@ =~= debug_list(ns));
    out
}

/// Checks the source's `session` columns (`session_cols`) and notes which
/// optional ones it has; `message_cols` are the columns of its `message`
/// table. An error names the required columns that are missing.
pub fn inspect_source(session_cols: &Vec<String>, message_cols: &Vec<String>) -> (res: Result<
    SourceSchema,
    String,
>)
    ensures
        ({
            let missing = columns_where(required_columns(), texts(session_cols@), false);
            &&& missing.len() > 0 <==> res is Err
            &&& res is Err ==> res->Err_0@ == "opencode.db schema mismatch, missing: "@
                + debug_list(missing)
            &&& res is Ok ==> {
                let s = res->Ok_0;
                &&& s.has_parent_id == texts(session_cols@).contains("parent_id"@)
                &&& s.has_message_table == texts(message_cols@).contains("session_id"@)
                &&& texts(s.select_cols@) == columns_where(
                    optional_columns(),
                    texts(session_cols@),
                    true,
                )
            }
        }),
{
    let required = required_list();
    let missing = select_columns(&required, session_cols, false);
    if missing.len() > 0 {
        let mut m = String::from_str("opencode.db schema mismatch, missing: ");
        let list = debug_list_text(&missing);
        m.append(list.as_str());
        return Err(m);
    }
    let optional = optional_list();
    let present = select_columns(&optional, session_cols, true);
    let parent = String::from_str("parent_id");
    let session_id = String::from_str("session_id");
    Ok(
        SourceSchema {
            has_parent_id: contains_name(session_cols, &parent),
            has_message_table: contains_name(message_cols, &session_id),
            select_cols: present,
        },
    )
}

// ---------------------------------------------------------------- query

/// `parts` joined with `sep` between them.
pub open spec fn joined(parts: Seq<Seq<char>>, sep: Seq<char>) -> Seq<char>
    decreases parts.len(),
{
    if parts.len() == 0 {
        Seq::empty()
    } else if parts.len() == 1 {
        parts[0]
    } else {
        joined(parts.drop_last(), sep) + sep + parts.last()
    }
}

/// The columns a sync selects: the required ones, the optional ones the
/// source has, and `parent_id` when it is there.
pub open spec fn select_list(select_cols: Seq<Seq<char>>, has_parent_id: bool) -> Seq<Seq<char>> {
    seq!["id"@, "directory"@, "title"@, "time_created"@, "time_updated"@] + select_cols + if has_parent_id {
        seq!["parent_id"@]
    } else {
        Seq::empty()
    }
}

/// The query that reads the next batch of sessions after the cursor
/// (`?1`, `?2`): changed later, or at that time with a greater id; ordered
/// by time of change, then id, with their message counts when there is a
/// `message` table.
pub open spec fn session_query(select_cols: Seq<Seq<char>>, has_parent_id: bool, has_message_table: bool) -> Seq<
    char,
> {
    "SELECT "@ + joined(select_list(select_cols, has_parent_id), ", "@) + ", "@ + (if has_message_table {
        "(SELECT COUNT(*) FROM message m WHERE m.session_id = s.id)"@
    } else {
        "0"@
    }) + " AS msg_count FROM session s WHERE (time_updated > ?1 OR (time_updated = ?1 AND id > ?2)) AND time_created != time_updated ORDER BY time_updated ASC, id ASC LIMIT "@
        + decimal(BATCH_SIZE as nat)
}

/// The query for the next batch of sessions.
pub fn session_select_sql(schema: &SourceSchema) -> (res: String)
    ensures
        res@ == session_query(texts(schema.select_cols@), schema.has_parent_id, schema.has_message_table),
{
    let mut cols: Vec<String> = Vec::new();
    cols.push(String::from_str("id"));
    cols.push(String::from_str("directory"));
    cols.push(String::from_str("title"));
    cols.push(String::from_str("time_created"));
    cols.push(String::from_str("time_updated"));
    let ghost head = texts(cols@);
    let mut k: usize = 0;
    while k < schema.select_cols.len()
        invariant
            k <= schema.select_cols.len(),
            texts(cols@) == head + texts(schema.select_cols@).take(k as int),
        decreases schema.select_cols.len() - k,
    {
        let ghost before = texts(cols@);
        cols.push(schema.select_cols[k].clone());
        assert(texts(cols@) =~= before.push(schema.select_cols@[k as int]@));
        assert(texts(schema.select_cols@).take(k + 1) =~= texts(schema.select_cols@).take(
            k as int,
        ).push(schema.select_cols@[k as int]@));
        k = k + 1;
    }
    assert(texts(schema.select_cols@).take(schema.select_cols.len() as int) =~= texts(
        schema.select_cols@,
    ));
    if schema.has_parent_id {
        let ghost before = texts(cols@);
        cols.push(String::from_str("parent_id"));
        assert(texts(cols@) =~= before.push("parent_id"@));
    }
    assert(texts(cols@) =~= select_list(texts(schema.select_cols@), schema.has_parent_id));
    let ghost cv = texts(cols@);
    let mut sql = String::from_str("SELECT ");
    let ghost start = sql@;
    let mut i: usize = 0;
    assert(cv.take(0) =~= Seq::<Seq<char>>::empty());
    while i < cols.len()
        invariant
            cv == texts(cols@),
            i <= cols.len(),
            sql@ == start + joined(cv.take(i as int), ", "@),
        decreases cols.len() - i,
    {
        if i > 0 {
            sql.append(", ");
        }
        sql.append(cols[i].as_str());
        assert(cv.take(i + 1).drop_last() =~= cv.take(i as int));
        assert(cv.take(i + 1).last() == cols@[i as int]@);
        if i == 0 {
            assert(cv.take(1)[0] == cols@[0]@);
        }
        assert(sql@ =~= start + joined(cv.take(i + 1), ", "@));
        i = i + 1;
    }
    assert(cv.take(cols.len() as int) =~= cv);
    sql.append(", ");
    if schema.has_message_table {
        sql.append("(SELECT COUNT(*) FROM message m WHERE m.session_id = s.id)");
    } else {
        sql.append("0");
    }
    sql.append(
        " AS msg_count FROM session s WHERE (time_updated > ?1 OR (time_updated = ?1 AND id > ?2)) AND time_created != time_updated ORDER BY time_updated ASC, id ASC LIMIT ",
    );
    crate::text::write_decimal(&mut sql, BATCH_SIZE as u64);
    assert(sql@ =~= session_query(
        texts(schema.select_cols@),
        schema.has_parent_id,
        schema.has_message_table,
    ));
    sql
}

/// Where a sync stands: the time of change and the id of the last session
/// read.
#[derive(Debug, Clone, PartialEq, Eq)]
pub struct SyncCursor {
    pub time_updated: i64,
    pub id: String,
}

/// A position in the order of the batch query: (time of change, id).
pub open spec fn cursor_key(c: SyncCursor) -> (i64, Seq<char>) {
    (c.time_updated, c.id@)
}

/// The cursor read from the stored time and id: the time read as a number
/// and the id, or the start (0 and no id) when no time reads as a number.
pub open spec fn synced_cursor(time_state: Option<Seq<char>>, id_state: Option<Seq<char>>) -> (
    i64,
    Seq<char>,
) {
    let t = match time_state {
        Some(s) => parsed_i64(s),
        None => None,
    };
    match t {
        Some(v) => (
            v,
            match id_state {
                Some(i) => i,
                None => Seq::empty(),
            },
        ),
        None => (0, Seq::empty()),
    }
}

/// Where the last sync stopped, from the values stored under
/// `LAST_UPDATED_KEY` and `LAST_ID_KEY`.
pub fn last_synced(time_state: Option<String>, id_state: Option<String>) -> (res: SyncCursor)
    ensures
        cursor_key(res) == synced_cursor(opt_text(time_state), opt_text(id_state)),
{
    let t = match time_state {
        Some(s) => parse_i64(s.as_str()),
        None => None,
    };
    match t {
        Some(v) => SyncCursor {
            time_updated: v,
            id: match id_state {
                Some(i) => i,
                None => String::new(),
            },
        },
        None => SyncCursor { time_updated: 0, id: String::new() },
    }
}

/// The (key, value) pairs that store cursor `c`: its time in decimal, and
/// its id.
pub open spec fn stored_cursor(c: (i64, Seq<char>)) -> Seq<(Seq<char>, Seq<char>)> {
    seq![(LAST_UPDATED_KEY@, signed_decimal(c.0 as int)), (LAST_ID_KEY@, c.1)]
}

/// The (key, value) pairs to store for `c`.
pub fn cursor_state(c: &SyncCursor) -> (res: Vec<(String, String)>)
    ensures
        res@.map_values(|x: (String, String)| (x.0@, x.1@)) == stored_cursor(cursor_key(*c)),
{
    let mut v: Vec<(String, String)> = Vec::new();
    v.push((String::from_str(LAST_UPDATED_KEY), i64_text(c.time_updated)));
    v.push((String::from_str(LAST_ID_KEY), c.id.clone()));
    assert(v@.map_values(|x: (String, String)| (x.0@, x.1@)) =~= stored_cursor(cursor_key(*c)));
    v
}

/// A stored cursor reads back as the same cursor.
pub proof fn lemma_cursor_round_trip(c: (i64, Seq<char>))
    ensures
        ({
            let st = stored_cursor(c);
            synced_cursor(Some(st[0].1), Some(st[1].1)) == c
        }),
{
    lemma_parse_signed_decimal(c.0);
}

// ---------------------------------------------------------------- rows

/// A session row of the source, as the sync reads it (its cost aside).
#[derive(Debug, Clone, PartialEq, Eq)]
pub struct RawSession {
    pub id: String,
    pub directory: String,
    pub title: String,
    pub time_created: i64,
    pub time_updated: i64,
    pub agent: Option<String>,
    pub model: Option<String>,
    pub tokens_input: i64,
    pub tokens_output: i64,
    pub tokens_reasoning: i64,
    pub additions: i64,
    pub deletions: i64,
    pub files_changed: i64,
    pub message_count: i64,
    pub is_subagent: bool,
}

/// The columns of a session row, each `None` where the column is missing,
/// `NULL` or of another type.
#[derive(Debug, Clone, PartialEq, Eq)]
pub struct RawColumns {
    pub id: Option<String>,
    pub directory: Option<String>,
    pub title: Option<String>,
    pub time_created: Option<i64>,
    pub time_updated: Option<i64>,
    pub agent: Option<String>,
    pub model: Option<String>,
    pub tokens_input: Option<i64>,
    pub tokens_output: Option<i64>,
    pub tokens_reasoning: Option<i64>,
    pub summary_additions: Option<i64>,
    pub summary_deletions: Option<i64>,
    pub summary_files: Option<i64>,
    pub msg_count: Option<i64>,
    pub parent_id: Option<String>,
}

pub open spec fn text_or_empty(o: Option<String>) -> Seq<char> {
    match o {
        Some(s) => s@,
        None => Seq::empty(),
    }
}

pub open spec fn int_or_zero(o: Option<i64>) -> i64 {
    match o {
        Some(v) => v,
        None => 0,
    }
}

fn take_text(o: Option<String>) -> (res: String)
    ensures
        res@ == text_or_empty(o),
{
    match o {
        Some(s) => s,
        None => String::new(),
    }
}

fn take_int(o: Option<i64>) -> (res: i64)
    ensures
        res == int_or_zero(o),
{
    match o {
        Some(v) => v,
        None => 0,
    }
}

/// A session row with defaults for what is missing: empty text, zero
/// counts; a session with a non-empty parent is a subagent's.
pub fn row_to_raw(c: RawColumns) -> (res: RawSession)
    ensures
        res.id@ == text_or_empty(c.id),
        res.directory@ == text_or_empty(c.directory),
        res.title@ == text_or_empty(c.title),
        res.time_created == int_or_zero(c.time_created),
        res.time_updated == int_or_zero(c.time_updated),
        opt_text(res.agent) == opt_text(c.agent),
        opt_text(res.model) == opt_text(c.model),
        res.tokens_input == int_or_zero(c.tokens_input),
        res.tokens_output == int_or_zero(c.tokens_output),
        res.tokens_reasoning == int_or_zero(c.tokens_reasoning),
        res.additions == int_or_zero(c.summary_additions),
        res.deletions == int_or_zero(c.summary_deletions),
        res.files_changed == int_or_zero(c.summary_files),
        res.message_count == int_or_zero(c.msg_count),
        res.is_subagent == (c.parent_id matches Some(p) && p@.len() > 0),
{
    let is_subagent = match &c.parent_id {
        Some(p) => !p.as_str().is_empty(),
        None => false,
    };
    RawSession {
        id: take_text(c.id),
        directory: take_text(c.directory),
        title: take_text(c.title),
        time_created: take_int(c.time_created),
        time_updated: take_int(c.time_updated),
        agent: c.agent,
        model: c.model,
        tokens_input: take_int(c.tokens_input),
        tokens_output: take_int(c.tokens_output),
        tokens_reasoning: take_int(c.tokens_reasoning),
        additions: take_int(c.summary_additions),
        deletions: take_int(c.summary_deletions),
        files_changed: take_int(c.summary_files),
        message_count: take_int(c.msg_count),
        is_subagent,
    }
}

/// A row not worth importing: no id, no directory, or no tokens and no
/// messages.
pub open spec fn noise(s: RawSession) -> bool {
    ||| s.id@.len() == 0
    ||| s.directory@.len() == 0
    ||| (s.tokens_input == 0 && s.tokens_output == 0 && s.message_count == 0)
}

pub fn is_noise(s: &RawSession) -> (res: bool)
    ensures
        res == noise(*s),
{
    s.id.as_str().is_empty() || s.directory.as_str().is_empty() || (s.tokens_input == 0
        && s.tokens_output == 0 && s.message_count == 0)
}

/// (provider, model id) of a session's `model` column: the `providerID`
/// and `id` strings of a JSON object; text that is no JSON is a model id.
pub open spec fn model_parts(raw: Option<Seq<char>>) -> (Option<Seq<char>>, Option<Seq<char>>) {
    match raw {
        None => (None, None),
        Some(r) => if json_document(r) {
            (json_string_member(r, "providerID"@), json_string_member(r, "id"@))
        } else {
            (None, Some(r))
        },
    }
}

pub fn parse_model(raw: Option<String>) -> (res: (Option<String>, Option<String>))
    ensures
        (opt_text(res.0), opt_text(res.1)) == model_parts(opt_text(raw)),
{
    match raw {
        None => (None, None),
        Some(r) => {
            if !is_json_document(r.as_str()) {
                return (None, Some(r));
            }
            let provider = string_member(r.as_str(), "providerID");
            let id = string_member(r.as_str(), "id");
            (provider, id)
        },
    }
}

// ---------------------------------------------------------------- batches

/// What to do with a batch of session rows.
#[derive(Debug, Clone, PartialEq, Eq)]
pub struct BatchPlan {
    /// Where the sync stands after the batch.
    pub cursor: SyncCursor,
    /// The rows to import, by index.
    pub keep: Vec<usize>,
    /// Whether another batch may follow.
    pub more: bool,
}

/// The position of a session row in the order of the batch query.
pub open spec fn row_key(r: RawSession) -> (i64, Seq<char>) {
    (r.time_updated, r.id@)
}

pub open spec fn row_keys(rows: Seq<RawSession>) -> Seq<(i64, Seq<char>)> {
    rows.map_values(|r: RawSession| row_key(r))
}

/// The cursor after reading `keys` at cursor `c`: the last key read, or `c`
/// when nothing was read.
pub open spec fn next_cursor(c: (i64, Seq<char>), keys: Seq<(i64, Seq<char>)>) -> (i64, Seq<char>) {
    if keys.len() == 0 {
        c
    } else {
        keys.last()
    }
}

/// Whether row `r` is imported: it is no subagent's and no noise.
pub open spec fn imported(r: RawSession) -> bool {
    !r.is_subagent && !noise(r)
}

/// The indices of the rows to import, in order.
pub open spec fn kept_indices(rows: Seq<RawSession>) -> Seq<usize>
    decreases rows.len(),
{
    if rows.len() == 0 {
        Seq::empty()
    } else {
        kept_indices(rows.drop_last()) + if imported(rows.last()) {
            seq![(rows.len() - 1) as usize]
        } else {
            Seq::empty()
        }
    }
}

/// The plan for a batch read at `cursor`, in the order of the batch query:
/// the cursor moves to the last row read (whether it is imported or not),
/// subagents' sessions and noise are skipped, and a full batch means more
/// may follow.
pub fn plan_batch(cursor: &SyncCursor, batch: &Vec<RawSession>) -> (res: BatchPlan)
    ensures
        cursor_key(res.cursor) == next_cursor(cursor_key(*cursor), row_keys(batch@)),
        res.keep@ == kept_indices(batch@),
        res.more == (batch.len() >= BATCH_SIZE),
{
    let mut keep: Vec<usize> = Vec::new();
    let mut k: usize = 0;
    assert(batch@.take(0) =~= Seq::<RawSession>::empty());
    while k < batch.len()
        invariant
            k <= batch.len(),
            keep@ == kept_indices(batch@.take(k as int)),
        decreases batch.len() - k,
    {
        assert(batch@.take(k + 1).drop_last() =~= batch@.take(k as int));
        assert(batch@.take(k + 1).last() == batch@[k as int]);
        let r = &batch[k];
        let ghost before = keep@;
        if !r.is_subagent && !is_noise(r) {
            keep.push(k);
            assert(keep@ =~= before + seq![k]);
        } else {
            assert(keep@ =~= before + Seq::<usize>::empty());
        }
        k = k + 1;
    }
    assert(batch@.take(batch.len() as int) =~= batch@);
    let next = if batch.len() == 0 {
        SyncCursor { time_updated: cursor.time_updated, id: cursor.id.clone() }
    } else {
        let last = &batch[batch.len() - 1];
        SyncCursor { time_updated: last.time_updated, id: last.id.clone() }
    };
    proof {
        if batch.len() > 0 {
            assert(row_keys(batch@).last() == row_key(batch@[batch.len() - 1]));
        }
    }
    BatchPlan { cursor: next, keep, more: batch.len() >= BATCH_SIZE as usize }
}

/// The counts after importing one session: new unless it `existed`.
pub fn record_session(stats: SyncStats, existed: bool) -> (res: SyncStats)
    requires
        existed ==> stats.updated_sessions < u32::MAX,
        !existed ==> stats.new_sessions < u32::MAX,
    ensures
        existed ==> res.updated_sessions == stats.updated_sessions + 1 && res.new_sessions
            == stats.new_sessions,
        !existed ==> res.new_sessions == stats.new_sessions + 1 && res.updated_sessions
            == stats.updated_sessions,
{
    if existed {
        SyncStats { new_sessions: stats.new_sessions, updated_sessions: stats.updated_sessions + 1 }
    } else {
        SyncStats { new_sessions: stats.new_sessions + 1, updated_sessions: stats.updated_sessions }
    }
}


// ---------------------------------------------------------------- laws

/// `a` comes before `b` in the order of the batch query: earlier change, or
/// the same time of change and a smaller id.
pub open spec fn key_lt(a: (i64, Seq<char>), b: (i64, Seq<char>)) -> bool {
    a.0 < b.0 || (a.0 == b.0 && chars_le(a.1, b.1) && a.1 != b.1)
}

/// Whether a key lies after cursor `c`.
pub open spec fn after(c: (i64, Seq<char>)) -> spec_fn((i64, Seq<char>)) -> bool {
    |k: (i64, Seq<char>)| key_lt(c, k)
}

/// The keys of the sessions the query selects, each once, in its order.
pub open spec fn ascending_keys(src: Seq<(i64, Seq<char>)>) -> bool {
    forall|i: int, j: int| 0 <= i < j < src.len() ==> key_lt(#[trigger] src[i], #[trigger] src[j])
}

/// What the batch query returns at cursor `c` from the selected sessions
/// `src`: the first `BATCH_SIZE` of those after `c`.
pub open spec fn query_batch(src: Seq<(i64, Seq<char>)>, c: (i64, Seq<char>)) -> Seq<
    (i64, Seq<char>),
> {
    let a = src.filter(after(c));
    if a.len() <= BATCH_SIZE {
        a
    } else {
        a.take(BATCH_SIZE as int)
    }
}

/// The cursor after `n` batches of a sync that starts at `c`.
pub open spec fn cursor_after(src: Seq<(i64, Seq<char>)>, c: (i64, Seq<char>), n: nat) -> (
    i64,
    Seq<char>,
)
    decreases n,
{
    if n == 0 {
        c
    } else {
        let p = cursor_after(src, c, (n - 1) as nat);
        next_cursor(p, query_batch(src, p))
    }
}

/// A sync reads batch `n`: every batch before it was full.
pub open spec fn batch_reached(src: Seq<(i64, Seq<char>)>, c: (i64, Seq<char>), n: nat) -> bool {
    forall|m: nat| m < n ==> #[trigger] query_batch(src, cursor_after(src, c, m)).len() == BATCH_SIZE
}

proof fn lemma_key_lt_trans(a: (i64, Seq<char>), b: (i64, Seq<char>), d: (i64, Seq<char>))
    requires
        key_lt(a, b),
        key_lt(b, d),
    ensures
        key_lt(a, d),
{
    lemma_text_order_total();
    if a.0 == b.0 && b.0 == d.0 {
        assert(text_order()(a.1, b.1) && text_order()(b.1, d.1));
        assert(text_order()(a.1, d.1));
        if a.1 == d.1 {
            assert(text_order()(b.1, a.1));
            assert(a.1 == b.1);
        }
    }
}

/// The index of the first key of `src` after `c`.
spec fn first_after(src: Seq<(i64, Seq<char>)>, c: (i64, Seq<char>)) -> int
    decreases src.len(),
{
    if src.len() == 0 || key_lt(c, src[0]) {
        0
    } else {
        1 + first_after(src.drop_first(), c)
    }
}

proof fn lemma_first_after(src: Seq<(i64, Seq<char>)>, c: (i64, Seq<char>))
    ensures
        0 <= first_after(src, c) <= src.len(),
        forall|q: int| 0 <= q < first_after(src, c) ==> !key_lt(c, #[trigger] src[q]),
        first_after(src, c) < src.len() ==> key_lt(c, src[first_after(src, c)]),
    decreases src.len(),
{
    if src.len() > 0 && !key_lt(c, src[0]) {
        let r = src.drop_first();
        lemma_first_after(r, c);
        assert forall|q: int| 0 <= q < first_after(src, c) implies !key_lt(c, #[trigger] src[q]) by {
            if q > 0 {
                assert(src[q] == r[q - 1]);
            }
        }
        if first_after(src, c) < src.len() {
            assert(src[first_after(src, c)] == r[first_after(r, c)]);
        }
    }
}

/// When the keys after `c` are exactly those from index `i` on, they are
/// `src.skip(i)`.
proof fn lemma_after_suffix(src: Seq<(i64, Seq<char>)>, c: (i64, Seq<char>), i: int)
    requires
        0 <= i <= src.len(),
        forall|q: int| 0 <= q < i ==> !key_lt(c, #[trigger] src[q]),
        forall|q: int| i <= q < src.len() ==> key_lt(c, #[trigger] src[q]),
    ensures
        src.filter(after(c)) == src.skip(i),
    decreases src.len(),
{
    if src.len() == i {
        assert forall|q: int| 0 <= q < src.len() implies !after(c)(#[trigger] src[q]) by {}
        assert(src.all(|x: (i64, Seq<char>)| !after(c)(x)));
        src.lemma_all_neg_filter_empty(after(c));
        assert(src.skip(i) =~= Seq::<(i64, Seq<char>)>::empty());
        assert(src.filter(after(c)) =~= Seq::<(i64, Seq<char>)>::empty());
    } else {
        let s = src.drop_last();
        assert forall|q: int| 0 <= q < i implies !key_lt(c, #[trigger] s[q]) by {
            assert(s[q] == src[q]);
        }
        assert forall|q: int| i <= q < s.len() implies key_lt(c, #[trigger] s[q]) by {
            assert(s[q] == src[q]);
        }
        lemma_after_suffix(s, c, i);
        assert(s.push(src.last()) =~= src);
        s.lemma_filter_push(src.last(), after(c));
        assert(key_lt(c, src[src.len() - 1]));
        assert(src.skip(i) =~= s.skip(i).push(src.last()));
    }
}

/// The keys after any cursor are those from `first_after` on.
proof fn lemma_after_is_suffix(src: Seq<(i64, Seq<char>)>, c: (i64, Seq<char>))
    requires
        ascending_keys(src),
    ensures
        src.filter(after(c)) == src.skip(first_after(src, c)),
{
    let f = first_after(src, c);
    lemma_first_after(src, c);
    assert forall|q: int| f <= q < src.len() implies key_lt(c, #[trigger] src[q]) by {
        if q > f {
            lemma_key_lt_trans(c, src[f], src[q]);
        }
    }
    lemma_after_suffix(src, c, f);
}

/// While a sync stays within `src`, batch `n` is reached and starts
/// `n` full batches after the first key past the start.
proof fn lemma_batch_start(src: Seq<(i64, Seq<char>)>, c: (i64, Seq<char>), n: nat)
    requires
        ascending_keys(src),
        first_after(src, c) + BATCH_SIZE * n <= src.len(),
    ensures
        batch_reached(src, c, n),
        src.filter(after(cursor_after(src, c, n))) == src.skip(first_after(src, c) + BATCH_SIZE * n),
    decreases n,
{
    let f = first_after(src, c);
    lemma_first_after(src, c);
    if n == 0 {
        lemma_after_is_suffix(src, c);
    } else {
        let m = (n - 1) as nat;
        lemma_batch_start(src, c, m);
        let p = cursor_after(src, c, m);
        let start = f + BATCH_SIZE * m;
        let b = query_batch(src, p);
        assert(src.skip(start).len() >= BATCH_SIZE);
        assert(b.len() == BATCH_SIZE);
        assert forall|k: nat| k < n implies #[trigger] query_batch(src, cursor_after(src, c, k)).len()
            == BATCH_SIZE by {
            if k < m {
                assert(query_batch(src, cursor_after(src, c, k)).len() == BATCH_SIZE);
            }
        }
        let j = start + BATCH_SIZE - 1;
        assert(cursor_after(src, c, n) == src[j]);
        assert forall|q: int| 0 <= q < j + 1 implies !key_lt(src[j], #[trigger] src[q]) by {
            if q < j && key_lt(src[j], src[q]) {
                assert(key_lt(src[q], src[j]));
                lemma_key_lt_trans(src[q], src[j], src[q]);
            }
        }
        assert forall|q: int| j + 1 <= q < src.len() implies key_lt(src[j], #[trigger] src[q]) by {}
        lemma_after_suffix(src, src[j], j + 1);
    }
}

/// A sync that starts at cursor `c` reads every selected session after `c`:
/// some batch that it reaches holds it.
pub proof fn lemma_every_session_read(src: Seq<(i64, Seq<char>)>, c: (i64, Seq<char>), r: int)
    requires
        ascending_keys(src),
        0 <= r < src.len(),
        key_lt(c, src[r]),
    ensures
        exists|n: nat|
            batch_reached(src, c, n) && #[trigger] query_batch(src, cursor_after(src, c, n)).contains(
                src[r],
            ),
{
    let f = first_after(src, c);
    lemma_first_after(src, c);
    assert(f <= r);
    let n = ((r - f) / (BATCH_SIZE as int)) as nat;
    assert(BATCH_SIZE * n <= r - f < BATCH_SIZE * n + BATCH_SIZE);
    lemma_batch_start(src, c, n);
    let start = f + BATCH_SIZE * n;
    let b = query_batch(src, cursor_after(src, c, n));
    assert(src.skip(start).len() == src.len() - start);
    assert(0 <= r - start < b.len());
    assert(b[r - start] == src.skip(start)[r - start]);
    assert(b[r - start] == src[r]);
    assert(b.contains(src[r]));
}

/// Each batch moves the cursor forward, or leaves it where it is when
/// nothing follows it.
pub proof fn lemma_cursor_advances(src: Seq<(i64, Seq<char>)>, c: (i64, Seq<char>))
    ensures
        ({
            let n = next_cursor(c, query_batch(src, c));
            n == c || key_lt(c, n)
        }),
{
    let b = query_batch(src, c);
    if b.len() > 0 {
        let all = src.filter(after(c));
        assert(b.len() <= all.len());
        src.lemma_filter_pred(after(c), b.len() - 1);
        assert(b.last() == all[b.len() - 1]);
    }
}


/// A pass ends on the first batch that is not full; run again over the
/// same selected sessions from the cursor it stored, the query returns no
/// row, so the second pass imports nothing.
pub proof fn lemma_second_pass_reads_nothing(src: Seq<(i64, Seq<char>)>, c: (i64, Seq<char>), n: nat)
    requires
        ascending_keys(src),
        batch_reached(src, c, n),
        query_batch(src, cursor_after(src, c, n)).len() < BATCH_SIZE,
    ensures
        query_batch(src, cursor_after(src, c, n + 1)).len() == 0,
        kept_indices(Seq::<RawSession>::empty()).len() == 0,
{
    let p = cursor_after(src, c, n);
    let b = query_batch(src, p);
    lemma_after_is_suffix(src, p);
    let f = first_after(src, p);
    lemma_first_after(src, p);
    assert(cursor_after(src, c, n + 1) == next_cursor(p, b));
    if b.len() == 0 {
        assert(next_cursor(p, b) == p);
    } else {
        assert(b == src.skip(f));
        let j = src.len() - 1;
        assert(b.last() == src[j]);
        assert forall|q: int| 0 <= q < j + 1 implies !key_lt(src[j], #[trigger] src[q]) by {
            if q < j && key_lt(src[j], src[q]) {
                assert(key_lt(src[q], src[j]));
                lemma_key_lt_trans(src[q], src[j], src[q]);
            }
        }
        lemma_after_suffix(src, src[j], j + 1);
        assert(src.skip(j + 1).len() == 0);
    }
}

/// Over any number of batches, the cursor never moves back.
pub proof fn lemma_cursor_never_moves_back(src: Seq<(i64, Seq<char>)>, c: (i64, Seq<char>), n: nat)
    ensures
        cursor_after(src, c, n) == c || key_lt(c, cursor_after(src, c, n)),
    decreases n,
{
    if n > 0 {
        let m = (n - 1) as nat;
        lemma_cursor_never_moves_back(src, c, m);
        let p = cursor_after(src, c, m);
        lemma_cursor_advances(src, p);
        let q = cursor_after(src, c, n);
        if p != c && q != p {
            lemma_key_lt_trans(c, p, q);
        }
    }
}

/// A batch imports exactly its rows that are no subagent's session and
/// have an id, a directory, and some tokens or messages; in the order read.
pub proof fn lemma_kept_rows(rows: Seq<RawSession>)
    requires
        rows.len() <= usize::MAX,
    ensures
        forall|i: int|
            #![trigger rows[i]]
            0 <= i < rows.len() ==> (kept_indices(rows).contains(i as usize) <==> (!rows[i].is_subagent
                && rows[i].id@.len() > 0 && rows[i].directory@.len() > 0 && !(rows[i].tokens_input == 0
                && rows[i].tokens_output == 0 && rows[i].message_count == 0))),
        forall|a: int, b: int|
            0 <= a < b < kept_indices(rows).len() ==> kept_indices(rows)[a] < kept_indices(rows)[b],
        forall|a: int| 0 <= a < kept_indices(rows).len() ==> kept_indices(rows)[a] < rows.len(),
    decreases rows.len(),
{
    if rows.len() > 0 {
        let r = rows.drop_last();
        lemma_kept_rows(r);
        let n = (rows.len() - 1) as usize;
        let prev = kept_indices(r);
        let tail = if imported(rows.last()) {
            seq![n]
        } else {
            Seq::empty()
        };
        assert(kept_indices(rows) == prev + tail);
        let all = kept_indices(rows);
        assert forall|a: int, b: int| 0 <= a < b < all.len() implies all[a] < all[b] by {
            if b >= prev.len() {
                assert(all[b] == n);
                assert(all[a] == prev[a]);
            } else {
                assert(all[a] == prev[a] && all[b] == prev[b]);
            }
        }
        assert forall|a: int| 0 <= a < all.len() implies all[a] < rows.len() by {
            if a < prev.len() {
                assert(all[a] == prev[a]);
            }
        }
        assert forall|i: int|
            #![trigger rows[i]]
            0 <= i < rows.len() implies (kept_indices(rows).contains(i as usize) <==> (
            !rows[i].is_subagent && rows[i].id@.len() > 0 && rows[i].directory@.len() > 0
                && !(rows[i].tokens_input == 0 && rows[i].tokens_output == 0 && rows[i].message_count
                == 0))) by {
            let all = kept_indices(rows);
            if i < rows.len() - 1 {
                assert(r[i] == rows[i]);
                if prev.contains(i as usize) {
                    let q = choose|q: int| 0 <= q < prev.len() && prev[q] == i as usize;
                    assert(all[q] == i as usize);
                }
                if all.contains(i as usize) {
                    let q = choose|q: int| 0 <= q < all.len() && all[q] == i as usize;
                    if q >= prev.len() {
                        assert(tail[q - prev.len()] == n);
                    } else {
                        assert(prev[q] == i as usize);
                    }
                }
            } else {
                if imported(rows.last()) {
                    assert(all[prev.len() as int] == n);
                }
                if all.contains(i as usize) {
                    let q = choose|q: int| 0 <= q < all.len() && all[q] == i as usize;
                    if q < prev.len() {
                        assert(prev[q] < r.len());
                    }
                }
            }
        }
    }
}

} // verus!
