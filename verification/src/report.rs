//! The deterministic markdown report: what a report says of a list of rows
//! (`report_text`), and `render`, which writes it.
use vstd::prelude::*;
use vstd::relations::sorted_by;
use crate::models::opt_text;
use crate::order::{chars_le, lemma_text_order_total, text_le, text_order};
use crate::text::{
    decimal, signed_decimal, texts, two_digits, write_decimal, write_signed, write_two_digits,
    same_text,
};

verus! {

/// One line of a report: a coding session, or a group of commits that no
/// session window took in.
#[derive(Debug, Clone, PartialEq, Eq)]
pub struct ReportRow {
    pub project: String,
    pub title: String,
    pub agent: Option<String>,
    pub model_id: Option<String>,
    pub tokens_in: i64,
    pub tokens_out: i64,
    pub message_count: i64,
    pub additions: i64,
    pub deletions: i64,
    pub files_changed: i64,
    pub duration_ms: i64,
    pub commits: Vec<String>,
}

/// A `ReportRow` with its strings taken as character sequences.
pub struct RowView {
    pub project: Seq<char>,
    pub title: Seq<char>,
    pub agent: Option<Seq<char>>,
    pub model_id: Option<Seq<char>>,
    pub tokens_in: i64,
    pub tokens_out: i64,
    pub message_count: i64,
    pub additions: i64,
    pub deletions: i64,
    pub files_changed: i64,
    pub duration_ms: i64,
    pub commits: Seq<Seq<char>>,
}

impl View for ReportRow {
    type V = RowView;

    open spec fn view(&self) -> RowView {
        RowView {
            project: self.project@,
            title: self.title@,
            agent: opt_text(self.agent),
            model_id: opt_text(self.model_id),
            tokens_in: self.tokens_in,
            tokens_out: self.tokens_out,
            message_count: self.message_count,
            additions: self.additions,
            deletions: self.deletions,
            files_changed: self.files_changed,
            duration_ms: self.duration_ms,
            commits: texts(self.commits@),
        }
    }
}

/// The views of a sequence of rows.
pub open spec fn rows_view(v: Seq<ReportRow>) -> Seq<RowView> {
    v.map_values(|r: ReportRow| r@)
}

// ---------------------------------------------------------------- sums

/// The sum of `g` over the rows.
pub open spec fn total(rows: Seq<RowView>, g: spec_fn(RowView) -> int) -> int
    decreases rows.len(),
{
    if rows.len() == 0 {
        0
    } else {
        total(rows.drop_last(), g) + g(rows.last())
    }
}

/// The sum of a sequence of integers.
pub open spec fn sum_of(s: Seq<int>) -> int
    decreases s.len(),
{
    if s.len() == 0 {
        0
    } else {
        sum_of(s.drop_last()) + s.last()
    }
}

/// A row with a session title; rows without one only carry commits.
pub open spec fn is_titled(r: RowView) -> bool {
    r.title.len() > 0
}

pub open spec fn session_weight() -> spec_fn(RowView) -> int {
    |r: RowView| if is_titled(r) { 1int } else { 0int }
}

pub open spec fn commit_weight() -> spec_fn(RowView) -> int {
    |r: RowView| r.commits.len() as int
}

pub open spec fn token_weight() -> spec_fn(RowView) -> int {
    |r: RowView| r.tokens_in + r.tokens_out
}

pub open spec fn titled_token_weight() -> spec_fn(RowView) -> int {
    |r: RowView| if is_titled(r) { r.tokens_in + r.tokens_out } else { 0int }
}

// ---------------------------------------------------------------- grouping

/// The rows of project `p`, in their order.
pub open spec fn in_project(rows: Seq<RowView>, p: Seq<char>) -> Seq<RowView> {
    rows.filter(|r: RowView| r.project == p)
}

pub open spec fn project_names(rows: Seq<RowView>) -> Seq<Seq<char>> {
    rows.map_values(|r: RowView| r.project)
}

/// `ps` holds the projects of the rows, each once, in ascending order.
pub open spec fn is_project_order(ps: Seq<Seq<char>>, rows: Seq<RowView>) -> bool {
    &&& sorted_by(ps, text_order())
    &&& ps.no_duplicates()
    &&& ps.to_set() == project_names(rows).to_set()
}

/// The projects of the rows, each once, in ascending order: the order in
/// which a report lists them.
pub open spec fn project_order(rows: Seq<RowView>) -> Seq<Seq<char>> {
    choose|ps: Seq<Seq<char>>| is_project_order(ps, rows)
}

/// The per-project sums of `g`, in the order of `ps`.
pub open spec fn group_sums(ps: Seq<Seq<char>>, rows: Seq<RowView>, g: spec_fn(RowView) -> int) -> Seq<
    int,
> {
    ps.map_values(|p: Seq<char>| total(in_project(rows, p), g))
}

// ---------------------------------------------------------------- text

/// "s" unless there is exactly one.
pub open spec fn plural(n: int) -> Seq<char> {
    if n == 1 {
        Seq::empty()
    } else {
        seq!['s']
    }
}

/// Whole minutes of a duration; a negative duration counts as none.
pub open spec fn duration_minutes(ms: int) -> int {
    if ms < 0 {
        0
    } else {
        ms / 60000
    }
}

/// A duration as `12m`, or as `1h05m` from one hour on.
pub open spec fn duration_text(ms: int) -> Seq<char> {
    let m = duration_minutes(ms);
    if m < 60 {
        decimal(m as nat) + seq!['m']
    } else {
        decimal((m / 60) as nat) + seq!['h'] + two_digits((m % 60) as nat) + seq!['m']
    }
}

/// One line per commit message.
pub open spec fn commit_lines(cs: Seq<Seq<char>>) -> Seq<char>
    decreases cs.len(),
{
    if cs.len() == 0 {
        Seq::empty()
    } else {
        commit_lines(cs.drop_last()) + "  - "@ + cs.last() + "\n"@
    }
}

/// The line of a session (for a titled row) and the lines of its commits.
pub open spec fn entry_text(r: RowView) -> Seq<char> {
    (if is_titled(r) {
        "- "@ + r.title + (if r.duration_ms > 0 {
            " ("@ + duration_text(r.duration_ms as int) + ")"@
        } else {
            Seq::empty()
        }) + (if r.additions + r.deletions > 0 {
            ", +"@ + signed_decimal(r.additions as int) + "/−"@ + signed_decimal(
                r.deletions as int,
            ) + " lines across "@ + signed_decimal(r.files_changed as int) + " files"@
        } else {
            Seq::empty()
        }) + "\n"@
    } else {
        Seq::empty()
    }) + commit_lines(r.commits)
}

pub open spec fn entries_text(es: Seq<RowView>) -> Seq<char>
    decreases es.len(),
{
    if es.len() == 0 {
        Seq::empty()
    } else {
        entries_text(es.drop_last()) + entry_text(es.last())
    }
}

/// The section of one project; `tok` is its token figure as text.
pub open spec fn project_text(p: Seq<char>, es: Seq<RowView>, tok: Seq<char>) -> Seq<char> {
    let c = total(es, commit_weight());
    "\n## "@ + p + "\n_"@ + decimal(es.len()) + " session"@ + plural(es.len() as int) + ", "@
        + decimal(c as nat) + " commit"@ + plural(c) + ", "@ + tok + " tokens_\n\n"@
        + entries_text(es)
}

/// The sections of the projects `ps`, with token texts `toks` in that order.
pub open spec fn projects_text(ps: Seq<Seq<char>>, rows: Seq<RowView>, toks: Seq<Seq<char>>) -> Seq<
    char,
>
    decreases ps.len(),
{
    if ps.len() == 0 {
        Seq::empty()
    } else {
        projects_text(ps.drop_last(), rows, toks) + project_text(
            ps.last(),
            in_project(rows, ps.last()),
            toks[ps.len() - 1],
        )
    }
}

/// The closing line: titled rows, all commits, and the token figure `tok`.
pub open spec fn totals_text(rows: Seq<RowView>, tok: Seq<char>) -> Seq<char> {
    let s = total(rows, session_weight());
    let c = total(rows, commit_weight());
    "\n---\n**Totals:** "@ + decimal(s as nat) + " session"@ + plural(s) + ", "@ + decimal(
        c as nat,
    ) + " commit"@ + plural(c) + ", "@ + tok + " tokens\n"@
}

/// The whole report on `rows` under `title`. `toks` holds the token figures
/// as text: one per project in report order, then the total.
pub open spec fn report_text(title: Seq<char>, rows: Seq<RowView>, toks: Seq<Seq<char>>) -> Seq<
    char,
> {
    if rows.len() == 0 {
        "# "@ + title + "\n\n_No activity recorded._\n"@
    } else {
        let ps = project_order(rows);
        "# "@ + title + "\n"@ + projects_text(ps, rows, toks) + totals_text(rows, toks[ps.len() as int])
    }
}

/// The token figures that a report shows: each project's tokens (input plus
/// output of all its rows) in report order, then the tokens of the titled
/// rows.
pub open spec fn token_figures_of(rows: Seq<RowView>) -> Seq<int> {
    group_sums(project_order(rows), rows, token_weight()).push(
        total(rows, titled_token_weight()),
    )
}

/// The sums that `render` computes fit its integer types.
pub open spec fn render_fits(rows: Seq<RowView>) -> bool {
    &&& total(rows, commit_weight()) <= usize::MAX
    &&& forall|i: int|
        0 <= i < rows.len() && is_titled(#[trigger] rows[i]) ==> i64::MIN <= rows[i].additions
            + rows[i].deletions <= i64::MAX
}

// ---------------------------------------------------------------- lemmas

proof fn lemma_total_push(rows: Seq<RowView>, x: RowView, g: spec_fn(RowView) -> int)
    ensures
        total(rows.push(x), g) == total(rows, g) + g(x),
{
    assert(rows.push(x).drop_last() =~= rows);
}

proof fn lemma_filter_take_step(rows: Seq<RowView>, k: int, p: Seq<char>)
    requires
        0 <= k < rows.len(),
    ensures
        in_project(rows.take(k + 1), p) == if rows[k].project == p {
            in_project(rows.take(k), p).push(rows[k])
        } else {
            in_project(rows.take(k), p)
        },
{
    reveal(Seq::filter);
    assert(rows.take(k + 1).drop_last() =~= rows.take(k));
    assert(rows.take(k + 1).last() == rows[k]);
}

proof fn lemma_total_nonneg(rows: Seq<RowView>, g: spec_fn(RowView) -> int)
    requires
        forall|r: RowView| #[trigger] g(r) >= 0,
    ensures
        total(rows, g) >= 0,
    decreases rows.len(),
{
    if rows.len() > 0 {
        lemma_total_nonneg(rows.drop_last(), g);
    }
}

proof fn lemma_total_prefix_le(rows: Seq<RowView>, k: int, g: spec_fn(RowView) -> int)
    requires
        0 <= k <= rows.len(),
        forall|r: RowView| #[trigger] g(r) >= 0,
    ensures
        total(rows.take(k), g) <= total(rows, g),
    decreases rows.len(),
{
    if k == rows.len() {
        assert(rows.take(k) =~= rows);
    } else {
        assert(rows.drop_last().take(k) =~= rows.take(k));
        lemma_total_prefix_le(rows.drop_last(), k, g);
    }
}

proof fn lemma_total_filter_le(rows: Seq<RowView>, p: Seq<char>, g: spec_fn(RowView) -> int)
    requires
        forall|r: RowView| #[trigger] g(r) >= 0,
    ensures
        total(in_project(rows, p), g) <= total(rows, g),
    decreases rows.len(),
{
    if rows.len() > 0 {
        let k = rows.len() - 1;
        lemma_filter_take_step(rows, k, p);
        assert(rows.take(k + 1) =~= rows);
        assert(rows.take(k) =~= rows.drop_last());
        lemma_total_filter_le(rows.drop_last(), p, g);
        if rows[k].project == p {
            lemma_total_push(in_project(rows.drop_last(), p), rows[k], g);
        }
    }
}

proof fn lemma_sum_prefix_le(s: Seq<int>, k: int)
    requires
        0 <= k <= s.len(),
        forall|i: int| 0 <= i < s.len() ==> s[i] >= 0,
    ensures
        sum_of(s.take(k)) <= sum_of(s),
    decreases s.len(),
{
    if k < s.len() {
        assert(s.drop_last().take(k) =~= s.take(k));
        lemma_sum_prefix_le(s.drop_last(), k);
    } else {
        assert(s.take(k) =~= s);
    }
}

proof fn lemma_sum_push(s: Seq<int>, x: int)
    ensures
        sum_of(s.push(x)) == sum_of(s) + x,
{
    assert(s.push(x).drop_last() =~= s);
}

/// Adding a row adds its weight to the group of its project, if that group
/// is among `ps`.
proof fn lemma_group_sums_push(
    ps: Seq<Seq<char>>,
    rows: Seq<RowView>,
    x: RowView,
    g: spec_fn(RowView) -> int,
)
    requires
        ps.no_duplicates(),
    ensures
        sum_of(group_sums(ps, rows.push(x), g)) == sum_of(group_sums(ps, rows, g)) + if ps.contains(
            x.project,
        ) {
            g(x)
        } else {
            0
        },
    decreases ps.len(),
{
    if ps.len() > 0 {
        let q = ps.drop_last();
        assert(q.no_duplicates());
        lemma_group_sums_push(q, rows, x, g);
        assert(group_sums(ps, rows.push(x), g).drop_last() =~= group_sums(q, rows.push(x), g));
        assert(group_sums(ps, rows, g).drop_last() =~= group_sums(q, rows, g));
        let last = ps.last();
        assert(rows.push(x).drop_last() =~= rows);
        assert(in_project(rows.push(x), last) == if x.project == last {
            in_project(rows, last).push(x)
        } else {
            in_project(rows, last)
        }) by {
            reveal(Seq::filter);
        }
        if x.project == last {
            lemma_total_push(in_project(rows, last), x, g);
            assert(!q.contains(x.project)) by {
                if q.contains(x.project) {
                    let j = choose|j: int| 0 <= j < q.len() && q[j] == x.project;
                    assert(ps[j] == ps[ps.len() - 1]);
                }
            }
        } else {
            assert(q.contains(x.project) == ps.contains(x.project)) by {
                if ps.contains(x.project) {
                    let j = choose|j: int| 0 <= j < ps.len() && ps[j] == x.project;
                    assert(q[j] == x.project);
                }
            }
        }
    }
}

proof fn lemma_group_sums_empty(ps: Seq<Seq<char>>, g: spec_fn(RowView) -> int)
    ensures
        sum_of(group_sums(ps, Seq::empty(), g)) == 0,
    decreases ps.len(),
{
    if ps.len() > 0 {
        assert(group_sums(ps, Seq::empty(), g).drop_last() =~= group_sums(
            ps.drop_last(),
            Seq::empty(),
            g,
        ));
        lemma_group_sums_empty(ps.drop_last(), g);
    }
}

/// The groups of `ps` split the rows: their sums add up to the sum over all
/// rows, when every row's project is among `ps` once.
pub proof fn lemma_groups_partition(ps: Seq<Seq<char>>, rows: Seq<RowView>, g: spec_fn(RowView) -> int)
    requires
        ps.no_duplicates(),
        forall|i: int| 0 <= i < rows.len() ==> ps.contains(#[trigger] rows[i].project),
    ensures
        sum_of(group_sums(ps, rows, g)) == total(rows, g),
    decreases rows.len(),
{
    if rows.len() == 0 {
        lemma_group_sums_empty(ps, g);
        assert(rows =~= Seq::<RowView>::empty());
    } else {
        let r = rows.drop_last();
        assert forall|i: int| 0 <= i < r.len() implies ps.contains(#[trigger] r[i].project) by {
            assert(r[i] == rows[i]);
        }
        lemma_groups_partition(ps, r, g);
        assert(r.push(rows.last()) =~= rows);
        lemma_group_sums_push(ps, r, rows.last(), g);
        assert(ps.contains(rows[rows.len() - 1].project));
    }
}

/// Two project orders of the same rows are equal.
proof fn lemma_project_order_unique(a: Seq<Seq<char>>, b: Seq<Seq<char>>, rows: Seq<RowView>)
    requires
        is_project_order(a, rows),
        is_project_order(b, rows),
    ensures
        a == b,
{
    broadcast use vstd::seq_lib::group_to_multiset_ensures;

    lemma_text_order_total();
    a.lemma_multiset_has_no_duplicates();
    b.lemma_multiset_has_no_duplicates();
    assert forall|x: Seq<char>| a.to_multiset().count(x) == b.to_multiset().count(x) by {
        assert(a.to_set().contains(x) == a.contains(x));
        assert(b.to_set().contains(x) == b.contains(x));
    }
    assert(a.to_multiset() =~= b.to_multiset());
    vstd::seq_lib::lemma_sorted_unique(a, b, text_order());
}

/// Any project order of the rows is the one that `project_order` names.
pub proof fn lemma_is_the_project_order(ps: Seq<Seq<char>>, rows: Seq<RowView>)
    requires
        is_project_order(ps, rows),
    ensures
        project_order(rows) == ps,
{
    lemma_project_order_unique(project_order(rows), ps, rows);
}

proof fn lemma_project_order_covers(ps: Seq<Seq<char>>, rows: Seq<RowView>)
    requires
        is_project_order(ps, rows),
    ensures
        forall|i: int| 0 <= i < rows.len() ==> ps.contains(#[trigger] rows[i].project),
{
    assert forall|i: int| 0 <= i < rows.len() implies ps.contains(#[trigger] rows[i].project) by {
        assert(project_names(rows)[i] == rows[i].project);
        assert(project_names(rows).contains(rows[i].project));
        assert(project_names(rows).to_set().contains(rows[i].project));
        assert(ps.to_set().contains(rows[i].project));
    }
}

// ---------------------------------------------------------------- grouping

// The projects are collected into a sorted `Vec` without duplicates rather
// than the keys of a `BTreeMap<&str, _>`: vstd's `BTreeMap` specification
// rests on `obeys_cmp` for its key type, which vstd does not give `str` or
// `String`, so a map keyed by project name would give no contract to prove
// the grouping with.
/// The projects of `items`, each once, in ascending order.
pub fn project_order_of(items: &Vec<ReportRow>) -> (res: Vec<String>)
    ensures
        texts(res@) == project_order(rows_view(items@)),
        is_project_order(texts(res@), rows_view(items@)),
{
    let ghost rows = rows_view(items@);
    proof {
        lemma_text_order_total();
    }
    let mut res: Vec<String> = Vec::new();
    let mut k: usize = 0;
    assert(project_names(rows.take(0)).to_set() =~= texts(res@).to_set());
    while k < items.len()
        invariant
            rows == rows_view(items@),
            k <= items.len(),
            vstd::relations::total_ordering(text_order()),
            sorted_by(texts(res@), text_order()),
            texts(res@).no_duplicates(),
            texts(res@).to_set() == project_names(rows.take(k as int)).to_set(),
        decreases items.len() - k,
    {
        let x = items[k].project.clone();
        let ghost before = texts(res@);
        assert(project_names(rows.take(k + 1)) =~= project_names(rows.take(k as int)).push(x@));
        let mut present = false;
        let mut t: usize = 0;
        while t < res.len()
            invariant
                t <= res.len(),
                present == exists|u: int| 0 <= u < t && #[trigger] res@[u]@ == x@,
            decreases res.len() - t,
        {
            if same_text(res[t].as_str(), x.as_str()) {
                present = true;
            }
            t = t + 1;
        }
        if present {
            let ghost u = choose|u: int| 0 <= u < res.len() && #[trigger] res@[u]@ == x@;
            assert(before[u] == x@);
            proof {
                project_names(rows.take(k as int)).lemma_push_to_set_commute(x@);
                assert(before.to_set().contains(x@));
                assert(texts(res@).to_set() =~= project_names(rows.take(k + 1)).to_set());
            }
        } else {
            let mut j: usize = 0;
            while j < res.len() && text_le(res[j].as_str(), x.as_str())
                invariant
                    j <= res.len(),
                    forall|t: int| 0 <= t < j ==> chars_le(#[trigger] res@[t]@, x@),
                decreases res.len() - j,
            {
                j = j + 1;
            }
            let ghost old_res = res@;
            res.insert(j, x);
            proof {
                let tb = before;
                let tr = texts(res@);
                assert(tr =~= tb.insert(j as int, x@));
                assert forall|p: int, q: int| 0 <= p < q < tr.len() implies #[trigger] text_order()(
                    tr[p],
                    tr[q],
                ) by {
                    if q < j {
                        assert(tr[p] == tb[p] && tr[q] == tb[q]);
                    } else if q == j {
                        assert(tr[p] == tb[p]);
                        assert(chars_le(old_res[p]@, x@));
                    } else if p == j {
                        assert(tr[q] == tb[q - 1]);
                        assert(!chars_le(old_res[j as int]@, x@));
                        assert(tb[j as int] == old_res[j as int]@);
                        assert(text_order()(tb[j as int], x@) || text_order()(x@, tb[j as int]));
                        assert(text_order()(x@, tb[j as int]));
                        if q - 1 > j {
                            assert(text_order()(tb[j as int], tb[q - 1]));
                        }
                    } else if p < j {
                        assert(tr[p] == tb[p] && tr[q] == tb[q - 1]);
                    } else {
                        assert(tr[p] == tb[p - 1] && tr[q] == tb[q - 1]);
                    }
                }
                assert forall|p: int, q: int| 0 <= p < tr.len() && 0 <= q < tr.len() && p != q implies tr[p]
                    != tr[q] by {
                    if p != j && q != j {
                        let pp = if p < j { p } else { p - 1 };
                        let qq = if q < j { q } else { q - 1 };
                        assert(tr[p] == tb[pp] && tr[q] == tb[qq]);
                    } else if p == j {
                        let qq = if q < j { q } else { q - 1 };
                        assert(tr[q] == old_res[qq]@);
                    } else {
                        let pp = if p < j { p } else { p - 1 };
                        assert(tr[p] == old_res[pp]@);
                    }
                }
                assert forall|y: Seq<char>| tr.contains(y) == tb.push(x@).contains(y) by {
                    if tr.contains(y) {
                        let i = choose|i: int| 0 <= i < tr.len() && tr[i] == y;
                        if i < j {
                            assert(tb.push(x@)[i] == y);
                        } else if i > j {
                            assert(tb.push(x@)[i - 1] == y);
                        } else {
                            assert(tb.push(x@)[tb.len() as int] == y);
                        }
                    }
                    if tb.push(x@).contains(y) {
                        let i = choose|i: int| 0 <= i < tb.len() + 1 && tb.push(x@)[i] == y;
                        if i == tb.len() {
                            assert(tr[j as int] == y);
                        } else if i < j {
                            assert(tr[i] == y);
                        } else {
                            assert(tr[i + 1] == y);
                        }
                    }
                }
                tb.lemma_push_to_set_commute(x@);
                assert(tr.to_set() =~= tb.push(x@).to_set());
                project_names(rows.take(k as int)).lemma_push_to_set_commute(x@);
            }
        }
        k = k + 1;
    }
    proof {
        assert(rows.take(items.len() as int) =~= rows);
        lemma_is_the_project_order(texts(res@), rows);
    }
    res
}


proof fn lemma_session_total_le_len(rows: Seq<RowView>)
    ensures
        0 <= total(rows, session_weight()) <= rows.len(),
    decreases rows.len(),
{
    if rows.len() > 0 {
        lemma_session_total_le_len(rows.drop_last());
    }
}

// ---------------------------------------------------------------- writing

/// Appends a duration as `fmt_dur` renders it.
pub fn write_duration(out: &mut String, ms: i64)
    ensures
        final(out)@ == old(out)@ + duration_text(ms as int),
{
    let ghost start = out@;
    let m: u64 = if ms < 0 {
        0
    } else {
        (ms / 60000) as u64
    };
    assert(m == duration_minutes(ms as int));
    if m < 60 {
        write_decimal(out, m);
        out.push('m');
    } else {
        write_decimal(out, m / 60);
        out.push('h');
        write_two_digits(out, m % 60);
        out.push('m');
    }
    assert(out@ =~= start + duration_text(ms as int));
}

/// A duration in whole minutes: `12m`, or `1h05m` from one hour on.
pub fn fmt_dur(ms: i64) -> (res: String)
    ensures
        res@ == duration_text(ms as int),
{
    let mut out = String::new();
    write_duration(&mut out, ms);
    assert(out@ =~= duration_text(ms as int));
    out
}

fn write_plural(out: &mut String, n: usize)
    ensures
        final(out)@ == old(out)@ + plural(n as int),
{
    if n != 1 {
        out.push('s');
    } else {
        assert(out@ =~= old(out)@ + plural(n as int));
    }
}

fn write_commit_lines(out: &mut String, commits: &Vec<String>)
    ensures
        final(out)@ == old(out)@ + commit_lines(texts(commits@)),
{
    let ghost start = out@;
    let ghost cs = texts(commits@);
    let mut i: usize = 0;
    assert(cs.take(0) =~= Seq::<Seq<char>>::empty());
    while i < commits.len()
        invariant
            cs == texts(commits@),
            i <= commits.len(),
            out@ == start + commit_lines(cs.take(i as int)),
        decreases commits.len() - i,
    {
        out.append("  - ");
        out.append(commits[i].as_str());
        out.append("\n");
        assert(cs.take(i + 1).drop_last() =~= cs.take(i as int));
        i = i + 1;
        assert(out@ =~= start + commit_lines(cs.take(i as int)));
    }
    assert(cs.take(commits.len() as int) =~= cs);
}

fn write_entry(out: &mut String, e: &ReportRow)
    requires
        is_titled(e@) ==> i64::MIN <= e.additions + e.deletions <= i64::MAX,
    ensures
        final(out)@ == old(out)@ + entry_text(e@),
{
    let ghost start = out@;
    if !e.title.as_str().is_empty() {
        out.append("- ");
        out.append(e.title.as_str());
        if e.duration_ms > 0 {
            out.append(" (");
            write_duration(out, e.duration_ms);
            out.append(")");
        }
        if e.additions + e.deletions > 0 {
            out.append(", +");
            write_signed(out, e.additions);
            out.append("/−");
            write_signed(out, e.deletions);
            out.append(" lines across ");
            write_signed(out, e.files_changed);
            out.append(" files");
        }
        out.append("\n");
    }
    let ghost mid = out@;
    write_commit_lines(out, &e.commits);
    assert(out@ =~= start + entry_text(e@));
}

/// Appends the lines of the rows of project `p`.
fn write_entries(out: &mut String, items: &Vec<ReportRow>, p: &String)
    requires
        render_fits(rows_view(items@)),
    ensures
        final(out)@ == old(out)@ + entries_text(in_project(rows_view(items@), p@)),
{
    let ghost start = out@;
    let ghost rows = rows_view(items@);
    let mut k: usize = 0;
    assert(rows.take(0) =~= Seq::<RowView>::empty());
    assert(in_project(rows.take(0), p@) =~= Seq::<RowView>::empty()) by {
        reveal(Seq::filter);
    }
    while k < items.len()
        invariant
            rows == rows_view(items@),
            render_fits(rows),
            k <= items.len(),
            out@ == start + entries_text(in_project(rows.take(k as int), p@)),
        decreases items.len() - k,
    {
        proof {
            lemma_filter_take_step(rows, k as int, p@);
        }
        let ghost es = in_project(rows.take(k as int), p@);
        if same_text(items[k].project.as_str(), p.as_str()) {
            assert(rows[k as int] == items@[k as int]@);
            write_entry(out, &items[k]);
            assert(es.push(rows[k as int]).drop_last() =~= es);
            assert(out@ =~= start + entries_text(es.push(rows[k as int])));
        }
        k = k + 1;
    }
    assert(rows.take(items.len() as int) =~= rows);
}

/// The number of rows of project `p`, their commits, and their titled rows.
fn project_counts(items: &Vec<ReportRow>, p: &String) -> (res: (usize, usize, usize))
    requires
        render_fits(rows_view(items@)),
    ensures
        res.0 == in_project(rows_view(items@), p@).len(),
        res.1 == total(in_project(rows_view(items@), p@), commit_weight()),
        res.2 == total(in_project(rows_view(items@), p@), session_weight()),
{
    let ghost rows = rows_view(items@);
    let mut count: usize = 0;
    let mut commits: usize = 0;
    let mut sessions: usize = 0;
    let mut k: usize = 0;
    assert(rows.take(0) =~= Seq::<RowView>::empty());
    assert(in_project(rows.take(0), p@) =~= Seq::<RowView>::empty()) by {
        reveal(Seq::filter);
    }
    while k < items.len()
        invariant
            rows == rows_view(items@),
            render_fits(rows),
            k <= items.len(),
            count == in_project(rows.take(k as int), p@).len(),
            count <= k,
            sessions <= count,
            commits == total(in_project(rows.take(k as int), p@), commit_weight()),
            sessions == total(in_project(rows.take(k as int), p@), session_weight()),
        decreases items.len() - k,
    {
        proof {
            lemma_filter_take_step(rows, k as int, p@);
        }
        let ghost es = in_project(rows.take(k as int), p@);
        if same_text(items[k].project.as_str(), p.as_str()) {
            let e = &items[k];
            assert(rows[k as int] == e@);
            proof {
                lemma_total_push(es, rows[k as int], commit_weight());
                lemma_total_push(es, rows[k as int], session_weight());
                lemma_total_filter_le(rows.take(k + 1), p@, commit_weight());
                lemma_total_prefix_le(rows, k + 1, commit_weight());
            }
            count = count + 1;
            commits = commits + e.commits.len();
            if !e.title.as_str().is_empty() {
                sessions = sessions + 1;
            }
        }
        k = k + 1;
    }
    assert(rows.take(items.len() as int) =~= rows);
    (count, commits, sessions)
}

fn write_project(
    out: &mut String,
    items: &Vec<ReportRow>,
    p: &String,
    count: usize,
    commits: usize,
    tok: &String,
)
    requires
        render_fits(rows_view(items@)),
        count == in_project(rows_view(items@), p@).len(),
        commits == total(in_project(rows_view(items@), p@), commit_weight()),
    ensures
        final(out)@ == old(out)@ + project_text(p@, in_project(rows_view(items@), p@), tok@),
{
    let ghost start = out@;
    out.append("\n## ");
    out.append(p.as_str());
    out.append("\n_");
    write_decimal(out, count as u64);
    out.append(" session");
    write_plural(out, count);
    out.append(", ");
    write_decimal(out, commits as u64);
    out.append(" commit");
    write_plural(out, commits);
    out.append(", ");
    out.append(tok.as_str());
    out.append(" tokens_\n\n");
    write_entries(out, items, p);
    assert(out@ =~= start + project_text(p@, in_project(rows_view(items@), p@), tok@));
}

#[verifier::rlimit(40)]
#[verifier::spinoff_prover]
/// Writes the report on `items` under `title`. `tokens` holds the token
/// figures (those of `token_figures`) rendered as text, in the same order.
pub fn render(title: &str, items: &Vec<ReportRow>, tokens: &Vec<String>) -> (res: String)
    requires
        items.len() > 0 ==> tokens.len() == project_order(rows_view(items@)).len() + 1,
        render_fits(rows_view(items@)),
    ensures
        res@ == report_text(title@, rows_view(items@), texts(tokens@)),
{
    let ghost rows = rows_view(items@);
    let ghost toks = texts(tokens@);
    let mut out = String::new();
    out.append("# ");
    out.append(title);
    if items.len() == 0 {
        out.append("\n\n_No activity recorded._\n");
        assert(out@ =~= report_text(title@, rows, toks));
        return out;
    }
    out.append("\n");
    let ps = project_order_of(items);
    let ghost pv = texts(ps@);
    let ghost head = out@;
    proof {
        lemma_project_order_covers(pv, rows);
        lemma_groups_partition(pv, rows, session_weight());
        lemma_groups_partition(pv, rows, commit_weight());
        lemma_session_total_le_len(rows);
        assert forall|t: int| 0 <= t < group_sums(pv, rows, commit_weight()).len() implies group_sums(
            pv,
            rows,
            commit_weight(),
        )[t] >= 0 by {
            lemma_total_nonneg(in_project(rows, pv[t]), commit_weight());
        }
        assert forall|t: int| 0 <= t < group_sums(pv, rows, session_weight()).len() implies group_sums(
            pv,
            rows,
            session_weight(),
        )[t] >= 0 by {
            lemma_session_total_le_len(in_project(rows, pv[t]));
        }
    }
    let mut total_sessions: usize = 0;
    let mut total_commits: usize = 0;
    let mut i: usize = 0;
    assert(pv.take(0) =~= Seq::<Seq<char>>::empty());
    assert(group_sums(pv.take(0), rows, session_weight()) =~= Seq::<int>::empty());
    assert(group_sums(pv.take(0), rows, commit_weight()) =~= Seq::<int>::empty());
    assert(out@ =~= head + projects_text(pv.take(0), rows, toks));
    while i < ps.len()
        invariant
            rows == rows_view(items@),
            toks == texts(tokens@),
            pv == texts(ps@),
            pv == project_order(rows),
            render_fits(rows),
            tokens.len() == pv.len() + 1,
            i <= ps.len(),
            out@ == head + projects_text(pv.take(i as int), rows, toks),
            total_sessions == sum_of(group_sums(pv.take(i as int), rows, session_weight())),
            total_commits == sum_of(group_sums(pv.take(i as int), rows, commit_weight())),
            sum_of(group_sums(pv, rows, session_weight())) == total(rows, session_weight()),
            sum_of(group_sums(pv, rows, commit_weight())) == total(rows, commit_weight()),
            total(rows, session_weight()) <= rows.len(),
            forall|t: int|
                0 <= t < group_sums(pv, rows, commit_weight()).len() ==> #[trigger] group_sums(
                    pv,
                    rows,
                    commit_weight(),
                )[t] >= 0,
            forall|t: int|
                0 <= t < group_sums(pv, rows, session_weight()).len() ==> #[trigger] group_sums(
                    pv,
                    rows,
                    session_weight(),
                )[t] >= 0,
        decreases ps.len() - i,
    {
        let (count, commits, sessions) = project_counts(items, &ps[i]);
        write_project(&mut out, items, &ps[i], count, commits, &tokens[i]);
        proof {
            let q = pv.take(i + 1);
            assert(q.drop_last() =~= pv.take(i as int));
            assert(q.last() == pv[i as int]);
            assert(out@ =~= head + projects_text(q, rows, toks));
            assert(group_sums(q, rows, session_weight()) =~= group_sums(
                pv.take(i as int),
                rows,
                session_weight(),
            ).push(sessions as int));
            assert(group_sums(q, rows, commit_weight()) =~= group_sums(
                pv.take(i as int),
                rows,
                commit_weight(),
            ).push(commits as int));
            lemma_sum_push(group_sums(pv.take(i as int), rows, session_weight()), sessions as int);
            lemma_sum_push(group_sums(pv.take(i as int), rows, commit_weight()), commits as int);
            assert(group_sums(q, rows, session_weight()) =~= group_sums(pv, rows, session_weight()).take(
                i + 1,
            ));
            assert(group_sums(q, rows, commit_weight()) =~= group_sums(pv, rows, commit_weight()).take(
                i + 1,
            ));
            lemma_sum_prefix_le(group_sums(pv, rows, session_weight()), i + 1);
            lemma_sum_prefix_le(group_sums(pv, rows, commit_weight()), i + 1);
            assert(rows.len() == items.len());
            assert(total_sessions + sessions <= items.len());
        }
        total_sessions = total_sessions + sessions;
        total_commits = total_commits + commits;
        i = i + 1;
    }
    assert(pv.take(ps.len() as int) =~= pv);
    let ghost body = out@;
    out.append("\n---\n**Totals:** ");
    write_decimal(&mut out, total_sessions as u64);
    out.append(" session");
    write_plural(&mut out, total_sessions);
    out.append(", ");
    write_decimal(&mut out, total_commits as u64);
    out.append(" commit");
    write_plural(&mut out, total_commits);
    out.append(", ");
    out.append(tokens[ps.len()].as_str());
    out.append(" tokens\n");
    assert(out@ =~= body + totals_text(rows, toks[pv.len() as int]));
    assert(out@ =~= report_text(title@, rows, toks));
    out
}


// ---------------------------------------------------------------- token figures

pub open spec fn fits_i64(x: int) -> bool {
    i64::MIN <= x <= i64::MAX
}

/// Every running sum along `s` fits an `i64`.
pub open spec fn prefix_sums_fit(s: Seq<int>) -> bool {
    forall|k: int| 0 <= k <= s.len() ==> fits_i64(sum_of(#[trigger] s.take(k)))
}

/// The weights of the rows, project group after project group in the order
/// of `ps`.
pub open spec fn grouped(ps: Seq<Seq<char>>, rows: Seq<RowView>, g: spec_fn(RowView) -> int) -> Seq<
    int,
>
    decreases ps.len(),
{
    if ps.len() == 0 {
        Seq::empty()
    } else {
        grouped(ps.drop_last(), rows, g) + in_project(rows, ps.last()).map_values(g)
    }
}

/// The running sums that `token_figures` computes fit an `i64`: those of each
/// project's tokens, and those of the titled rows' tokens in report order.
pub open spec fn token_fits(rows: Seq<RowView>) -> bool {
    let ps = project_order(rows);
    &&& forall|i: int| 0 <= i < rows.len() ==> fits_i64(#[trigger] token_weight()(rows[i]))
    &&& forall|t: int|
        0 <= t < ps.len() ==> prefix_sums_fit(
            #[trigger] in_project(rows, ps[t]).map_values(token_weight()),
        )
    &&& prefix_sums_fit(grouped(ps, rows, titled_token_weight()))
}

proof fn lemma_sum_concat(a: Seq<int>, b: Seq<int>)
    ensures
        sum_of(a + b) == sum_of(a) + sum_of(b),
    decreases b.len(),
{
    if b.len() == 0 {
        assert(a + b =~= a);
    } else {
        assert((a + b).drop_last() =~= a + b.drop_last());
        lemma_sum_concat(a, b.drop_last());
    }
}

proof fn lemma_sum_map(rows: Seq<RowView>, g: spec_fn(RowView) -> int)
    ensures
        sum_of(rows.map_values(g)) == total(rows, g),
    decreases rows.len(),
{
    if rows.len() > 0 {
        assert(rows.map_values(g).drop_last() =~= rows.drop_last().map_values(g));
        lemma_sum_map(rows.drop_last(), g);
    }
}

proof fn lemma_grouped_sum(ps: Seq<Seq<char>>, rows: Seq<RowView>, g: spec_fn(RowView) -> int)
    ensures
        sum_of(grouped(ps, rows, g)) == sum_of(group_sums(ps, rows, g)),
    decreases ps.len(),
{
    if ps.len() > 0 {
        lemma_grouped_sum(ps.drop_last(), rows, g);
        lemma_sum_concat(
            grouped(ps.drop_last(), rows, g),
            in_project(rows, ps.last()).map_values(g),
        );
        lemma_sum_map(in_project(rows, ps.last()), g);
        assert(group_sums(ps, rows, g).drop_last() =~= group_sums(ps.drop_last(), rows, g));
    }
}

proof fn lemma_grouped_prefix(ps: Seq<Seq<char>>, j: int, rows: Seq<RowView>, g: spec_fn(RowView) -> int)
    requires
        0 <= j <= ps.len(),
    ensures
        grouped(ps.take(j), rows, g).len() <= grouped(ps, rows, g).len(),
        grouped(ps, rows, g).take(grouped(ps.take(j), rows, g).len() as int) == grouped(
            ps.take(j),
            rows,
            g,
        ),
    decreases ps.len(),
{
    if j == ps.len() {
        assert(ps.take(j) =~= ps);
        assert(grouped(ps, rows, g).take(grouped(ps, rows, g).len() as int) =~= grouped(ps, rows, g));
    } else {
        assert(ps.drop_last().take(j) =~= ps.take(j));
        lemma_grouped_prefix(ps.drop_last(), j, rows, g);
        let a = grouped(ps.drop_last(), rows, g);
        let b = in_project(rows, ps.last()).map_values(g);
        assert((a + b).take(grouped(ps.take(j), rows, g).len() as int) =~= a.take(
            grouped(ps.take(j), rows, g).len() as int,
        ));
    }
}

proof fn lemma_filter_prefix(rows: Seq<RowView>, k: int, p: Seq<char>)
    requires
        0 <= k <= rows.len(),
    ensures
        in_project(rows.take(k), p).len() <= in_project(rows, p).len(),
        in_project(rows, p).take(in_project(rows.take(k), p).len() as int) == in_project(
            rows.take(k),
            p,
        ),
    decreases rows.len(),
{
    if k == rows.len() {
        assert(rows.take(k) =~= rows);
        assert(in_project(rows, p).take(in_project(rows, p).len() as int) =~= in_project(rows, p));
    } else {
        let r = rows.drop_last();
        assert(r.take(k) =~= rows.take(k));
        lemma_filter_prefix(r, k, p);
        lemma_filter_take_step(rows, rows.len() - 1, p);
        assert(rows.take(rows.len() - 1) =~= r);
        assert(rows.take(rows.len() as int) =~= rows);
        let f = in_project(r, p);
        let n = in_project(rows.take(k), p).len() as int;
        assert(f.push(rows.last()).take(n) =~= f.take(n));
    }
}

/// The token figures of a report on `items`: each project's tokens in report
/// order, then the tokens of the titled rows.
pub fn token_figures(items: &Vec<ReportRow>) -> (res: Vec<i64>)
    requires
        token_fits(rows_view(items@)),
    ensures
        res@.map_values(|x: i64| x as int) == token_figures_of(rows_view(items@)),
{
    let ghost rows = rows_view(items@);
    let ghost tw = token_weight();
    let ghost ttw = titled_token_weight();
    let ps = project_order_of(items);
    let ghost pv = texts(ps@);
    let mut figs: Vec<i64> = Vec::new();
    let mut total_tokens: i64 = 0;
    let mut i: usize = 0;
    assert(pv.take(0) =~= Seq::<Seq<char>>::empty());
    assert(grouped(pv.take(0), rows, ttw) =~= Seq::<int>::empty());
    assert(figs@.map_values(|x: i64| x as int) =~= group_sums(pv.take(0), rows, tw));
    while i < ps.len()
        invariant
            rows == rows_view(items@),
            tw == token_weight(),
            ttw == titled_token_weight(),
            pv == texts(ps@),
            pv == project_order(rows),
            token_fits(rows),
            i <= ps.len(),
            figs@.map_values(|x: i64| x as int) == group_sums(pv.take(i as int), rows, tw),
            total_tokens == sum_of(grouped(pv.take(i as int), rows, ttw)),
        decreases ps.len() - i,
    {
        let p = &ps[i];
        let ghost base = grouped(pv.take(i as int), rows, ttw);
        let ghost all = in_project(rows, p@);
        proof {
            assert(pv.take(i + 1).drop_last() =~= pv.take(i as int));
            assert(pv.take(i + 1).last() == p@);
            lemma_grouped_prefix(pv, i + 1, rows, ttw);
        }
        let mut sum: i64 = 0;
        let mut k: usize = 0;
        assert(rows.take(0) =~= Seq::<RowView>::empty());
        assert(in_project(rows.take(0), p@) =~= Seq::<RowView>::empty()) by {
            reveal(Seq::filter);
        }
        assert(base + in_project(rows.take(0), p@).map_values(ttw) =~= base);
        while k < items.len()
            invariant
                rows == rows_view(items@),
                tw == token_weight(),
                ttw == titled_token_weight(),
                pv == project_order(rows),
                token_fits(rows),
                i < pv.len(),
                p@ == pv[i as int],
                all == in_project(rows, p@),
                base == grouped(pv.take(i as int), rows, ttw),
                grouped(pv.take(i + 1), rows, ttw) == base + all.map_values(ttw),
                grouped(pv, rows, ttw).take(grouped(pv.take(i + 1), rows, ttw).len() as int)
                    == grouped(pv.take(i + 1), rows, ttw),
                grouped(pv.take(i + 1), rows, ttw).len() <= grouped(pv, rows, ttw).len(),
                k <= items.len(),
                sum == sum_of(in_project(rows.take(k as int), p@).map_values(tw)),
                total_tokens == sum_of(base + in_project(rows.take(k as int), p@).map_values(ttw)),
            decreases items.len() - k,
        {
            proof {
                lemma_filter_take_step(rows, k as int, p@);
                lemma_filter_prefix(rows, k + 1, p@);
            }
            let ghost es = in_project(rows.take(k as int), p@);
            if same_text(items[k].project.as_str(), p.as_str()) {
                let e = &items[k];
                let ghost ne = es.push(rows[k as int]);
                proof {
                    assert(rows[k as int] == e@);
                    assert(fits_i64(tw(rows[k as int])));
                    assert(ne.map_values(tw) =~= es.map_values(tw).push(tw(e@)));
                    lemma_sum_push(es.map_values(tw), tw(e@));
                    assert(ne.map_values(tw) =~= all.map_values(tw).take(ne.len() as int));
                    assert(pv[i as int] == p@);
                    assert(prefix_sums_fit(in_project(rows, pv[i as int]).map_values(tw)));
                    assert(fits_i64(sum_of(all.map_values(tw).take(ne.len() as int))));
                    let x = base + ne.map_values(ttw);
                    assert(x =~= (base + es.map_values(ttw)).push(ttw(e@)));
                    lemma_sum_push(base + es.map_values(ttw), ttw(e@));
                    assert(ne.map_values(ttw) =~= all.map_values(ttw).take(ne.len() as int));
                    let gi = grouped(pv.take(i + 1), rows, ttw);
                    let gall = grouped(pv, rows, ttw);
                    assert(ne.len() <= all.len());
                    assert(x.len() <= gi.len());
                    assert(x =~= gi.take(x.len() as int));
                    assert(gall.take(gi.len() as int) == gi);
                    assert(gi.len() <= gall.len());
                    assert(gall.take(gi.len() as int).take(x.len() as int) =~= gall.take(x.len() as int));
                    assert(x =~= gall.take(x.len() as int));
                    assert(0 <= x.len() <= gall.len());
                    assert(fits_i64(sum_of(grouped(pv, rows, ttw).take(x.len() as int))));
                }
                let t = e.tokens_in + e.tokens_out;
                sum = sum + t;
                if !e.title.as_str().is_empty() {
                    total_tokens = total_tokens + t;
                }
            }
            k = k + 1;
        }
        assert(rows.take(items.len() as int) =~= rows);
        proof {
            lemma_sum_map(all, tw);
            assert(group_sums(pv.take(i + 1), rows, tw) =~= group_sums(pv.take(i as int), rows, tw).push(
                total(all, tw),
            ));
        }
        let ghost before = figs@;
        figs.push(sum);
        assert(figs@.map_values(|x: i64| x as int) =~= before.map_values(|x: i64| x as int).push(
            sum as int,
        ));
        i = i + 1;
    }
    proof {
        assert(pv.take(ps.len() as int) =~= pv);
        lemma_grouped_sum(pv, rows, ttw);
        lemma_project_order_covers(pv, rows);
        lemma_groups_partition(pv, rows, ttw);
    }
    let ghost before = figs@;
    figs.push(total_tokens);
    assert(figs@.map_values(|x: i64| x as int) =~= before.map_values(|x: i64| x as int).push(
        total_tokens as int,
    ));
    figs
}


// ---------------------------------------------------------------- laws

proof fn lemma_total_same(rows: Seq<RowView>, f: spec_fn(RowView) -> int, g: spec_fn(RowView) -> int)
    requires
        forall|i: int| 0 <= i < rows.len() ==> f(#[trigger] rows[i]) == g(rows[i]),
    ensures
        total(rows, f) == total(rows, g),
    decreases rows.len(),
{
    if rows.len() > 0 {
        let r = rows.drop_last();
        assert forall|i: int| 0 <= i < r.len() implies f(#[trigger] r[i]) == g(r[i]) by {
            assert(r[i] == rows[i]);
        }
        lemma_total_same(r, f, g);
        assert(f(rows[rows.len() - 1]) == g(rows[rows.len() - 1]));
    }
}

/// The per-project session and commit counts of a report add up to the
/// counts of its totals line.
pub proof fn lemma_report_counts_add_up(ps: Seq<Seq<char>>, rows: Seq<RowView>)
    requires
        is_project_order(ps, rows),
    ensures
        sum_of(group_sums(ps, rows, session_weight())) == total(rows, session_weight()),
        sum_of(group_sums(ps, rows, commit_weight())) == total(rows, commit_weight()),
{
    lemma_project_order_covers(ps, rows);
    lemma_groups_partition(ps, rows, session_weight());
    lemma_groups_partition(ps, rows, commit_weight());
}

/// When every row without a session title has no tokens (as with the rows
/// that carry only commits), the total token figure of a report is the sum
/// of its per-project figures.
pub proof fn lemma_token_total_is_sum(ps: Seq<Seq<char>>, rows: Seq<RowView>)
    requires
        is_project_order(ps, rows),
        forall|i: int|
            0 <= i < rows.len() && !is_titled(#[trigger] rows[i]) ==> rows[i].tokens_in
                + rows[i].tokens_out == 0,
    ensures
        total(rows, titled_token_weight()) == sum_of(group_sums(ps, rows, token_weight())),
{
    assert forall|i: int| 0 <= i < rows.len() implies titled_token_weight()(#[trigger] rows[i])
        == token_weight()(rows[i]) by {
        if !is_titled(rows[i]) {
            assert(rows[i].tokens_in + rows[i].tokens_out == 0);
        }
    }
    lemma_total_same(rows, titled_token_weight(), token_weight());
    lemma_project_order_covers(ps, rows);
    lemma_groups_partition(ps, rows, token_weight());
}

/// The line of a titled row names the row, then its duration when it has
/// one, then its line counts exactly when it added or deleted lines (as in
/// `, +0/−5 lines across 1 files`), and ends the line; the lines of its
/// commits follow. A row without a title shows only its commits.
pub proof fn lemma_entry_line(r: RowView)
    ensures
        !is_titled(r) ==> entry_text(r) == commit_lines(r.commits),
        is_titled(r) && r.additions + r.deletions > 0 ==> exists|head: Seq<char>|
            #![trigger head.len()]
            entry_text(r) == "- "@ + r.title + head + ", +"@ + signed_decimal(r.additions as int)
                + "/−"@ + signed_decimal(r.deletions as int) + " lines across "@ + signed_decimal(
                r.files_changed as int,
            ) + " files"@ + "\n"@ + commit_lines(r.commits) && (head.len() == 0 <==> r.duration_ms <= 0),
        is_titled(r) && r.additions + r.deletions <= 0 ==> entry_text(r) == "- "@ + r.title + (if r.duration_ms
            > 0 {
            " ("@ + duration_text(r.duration_ms as int) + ")"@
        } else {
            Seq::empty()
        }) + "\n"@ + commit_lines(r.commits),
{
    let head = if r.duration_ms > 0 {
        " ("@ + duration_text(r.duration_ms as int) + ")"@
    } else {
        Seq::<char>::empty()
    };
    if is_titled(r) && r.additions + r.deletions > 0 {
        assert(entry_text(r) =~= "- "@ + r.title + head + ", +"@ + signed_decimal(r.additions as int)
            + "/−"@ + signed_decimal(r.deletions as int) + " lines across "@ + signed_decimal(
            r.files_changed as int,
        ) + " files"@ + "\n"@ + commit_lines(r.commits));
        if r.duration_ms > 0 {
            reveal_strlit(" (");
            assert(head.len() > 0);
        }
    }
}

} // verus!
