//! The versioned variable store: an append-only log of events per
//! environment and key, from which current values, soft deletes, copies,
//! diffs, reverts and history are derived.
//!
//! Log order is chronological: timestamps never decrease along the log, and
//! among events of one environment and key the current one is the last in
//! the log, which is the one with the greatest timestamp (a tie goes to the
//! later insert).
use vstd::prelude::*;
use crate::edit::{EditorData, EditsView};
use crate::listing::{listed_in_order, sort_rows, truncate_rows, truncated, Sort};
use crate::text::{ascii_upper, lemma_lex_total, lemma_lex_transitive, lex_lt, str_lt, upper_seq};

verus! {

/// One change to a variable: a value, or `None` for a soft delete.
#[derive(Debug, Clone, PartialEq, Eq)]
pub struct VariableEvent {
    pub env: String,
    pub key: String,
    pub value: Option<String>,
    pub created_at: u64,
}

/// An event seen through the views of its strings.
pub struct EventView {
    pub env: Seq<char>,
    pub key: Seq<char>,
    pub value: Option<Seq<char>>,
    pub created_at: u64,
}

pub open spec fn opt_view(o: Option<String>) -> Option<Seq<char>> {
    match o {
        Some(s) => Some(s@),
        None => None,
    }
}

impl View for VariableEvent {
    type V = EventView;

    open spec fn view(&self) -> EventView {
        EventView { env: self.env@, key: self.key@, value: opt_view(self.value), created_at: self.created_at }
    }
}

/// A current variable of an environment.
#[derive(Debug, Clone, PartialEq, Eq)]
pub struct EnvironmentRow {
    pub env: String,
    pub key: String,
    pub value: String,
}

/// One entry of a key's history: a value, or `None` where it was deleted.
#[derive(Debug, Clone, PartialEq, Eq)]
pub struct EnvironmentRowNullable {
    pub env: String,
    pub key: String,
    pub value: Option<String>,
    pub created_at: u64,
}

/// An environment name.
#[derive(Debug, Clone, PartialEq, Eq)]
pub struct Environment {
    pub env: String,
}

/// One difference between two environments.
#[derive(Debug, Clone, PartialEq, Eq)]
pub enum EnvironmentDiff {
    /// Key and value only in the first environment.
    InFirst(String, String),
    /// Key and value only in the second environment.
    InSecond(String, String),
    /// Key, value in the first and value in the second.
    Different(String, String, String),
}

/// A difference seen through views.
pub enum DiffView {
    InFirst(Seq<char>, Seq<char>),
    InSecond(Seq<char>, Seq<char>),
    Different(Seq<char>, Seq<char>, Seq<char>),
}

impl View for EnvironmentDiff {
    type V = DiffView;

    open spec fn view(&self) -> DiffView {
        match self {
            EnvironmentDiff::InFirst(k, v) => DiffView::InFirst(k@, v@),
            EnvironmentDiff::InSecond(k, v) => DiffView::InSecond(k@, v@),
            EnvironmentDiff::Different(k, a, b) => DiffView::Different(k@, a@, b@),
        }
    }
}

pub open spec fn diff_key(d: DiffView) -> Seq<char> {
    match d {
        DiffView::InFirst(k, _) => k,
        DiffView::InSecond(k, _) => k,
        DiffView::Different(k, _, _) => k,
    }
}

pub open spec fn diffs_view(v: Seq<EnvironmentDiff>) -> Seq<DiffView> {
    v.map_values(|d: EnvironmentDiff| d@)
}

/// Keys strictly increase along the sequence.
pub open spec fn keys_sorted(s: Seq<DiffView>) -> bool {
    forall|p: int, q: int| 0 <= p < q < s.len() ==> lex_lt(diff_key(s[p]), diff_key(s[q]))
}

/// How listed values are cut.
#[derive(Debug, Clone, Copy, PartialEq, Eq)]
pub enum Truncate {
    /// Values are listed whole.
    Whole,
    /// Values are cut to at most this many characters.
    Max(u32),
}

/// A refused store operation, naming the environment at fault.
#[derive(Debug, Clone, PartialEq, Eq)]
pub enum StoreError {
    /// The environment has no event (or, as a copy source, no current variable).
    NotFound(String),
    /// The target environment already has events.
    AlreadyExists(String),
}

/// A row seen through views: environment, key, value.
pub type RowView = (Seq<char>, Seq<char>, Seq<char>);

impl View for EnvironmentRowNullable {
    type V = EventView;

    open spec fn view(&self) -> EventView {
        EventView { env: self.env@, key: self.key@, value: opt_view(self.value), created_at: self.created_at }
    }
}

impl View for EnvironmentRow {
    type V = RowView;

    open spec fn view(&self) -> RowView {
        (self.env@, self.key@, self.value@)
    }
}

pub open spec fn rows_view(rows: Seq<EnvironmentRow>) -> Seq<RowView> {
    rows.map_values(|r: EnvironmentRow| r@)
}

pub open spec fn log_view(events: Seq<VariableEvent>) -> Seq<EventView> {
    events.map_values(|e: VariableEvent| e@)
}

pub open spec fn is_for(e: EventView, env: Seq<char>, key: Seq<char>) -> bool {
    e.env == env && e.key == key
}

/// Timestamps never decrease along the log.
pub open spec fn chronological(log: Seq<EventView>) -> bool {
    forall|i: int, j: int| 0 <= i < j < log.len() ==> log[i].created_at <= log[j].created_at
}

/// The current value of a key in an environment: that of the last event
/// for the pair, if it holds one.
pub open spec fn current(log: Seq<EventView>, env: Seq<char>, key: Seq<char>) -> Option<Seq<char>>
    decreases log.len(),
{
    if log.len() == 0 {
        None
    } else if is_for(log.last(), env, key) {
        log.last().value
    } else {
        current(log.drop_last(), env, key)
    }
}

/// The current variables of an environment.
pub open spec fn active_map(log: Seq<EventView>, env: Seq<char>) -> Map<Seq<char>, Seq<char>> {
    Map::new(|k: Seq<char>| current(log, env, k) is Some, |k: Seq<char>| current(log, env, k)->Some_0)
}

/// Event `i` is the last of its environment and key.
pub open spec fn is_latest(log: Seq<EventView>, i: int) -> bool {
    &&& 0 <= i < log.len()
    &&& forall|j: int| i < j < log.len() ==> !is_for(log[j], log[i].env, log[i].key)
}

/// Event `i` is a current variable that passes the filters.
pub open spec fn selected(log: Seq<EventView>, i: int, env: Option<Seq<char>>, key: Option<Seq<char>>) -> bool {
    &&& is_latest(log, i)
    &&& log[i].value is Some
    &&& (env matches Some(e) ==> log[i].env == e)
    &&& (key matches Some(k) ==> log[i].key == k)
}

pub open spec fn row_of(e: EventView) -> RowView {
    (e.env, e.key, e.value->Some_0)
}

/// The current variables among the first `n` events, in log order.
pub open spec fn active_upto(log: Seq<EventView>, n: int, env: Option<Seq<char>>, key: Option<Seq<char>>) -> Seq<RowView>
    decreases n,
{
    if n <= 0 {
        Seq::empty()
    } else if selected(log, n - 1, env, key) {
        active_upto(log, n - 1, env, key).push(row_of(log[n - 1]))
    } else {
        active_upto(log, n - 1, env, key)
    }
}

/// The current variables that pass the filters, ordered by the time they
/// were last set.
pub open spec fn active_rows(log: Seq<EventView>, env: Option<Seq<char>>, key: Option<Seq<char>>) -> Seq<RowView> {
    active_upto(log, log.len() as int, env, key)
}

/// The timestamp that a write at time `now` receives: never before the
/// last event.
pub open spec fn stamp(log: Seq<EventView>, now: u64) -> u64 {
    if log.len() > 0 && log.last().created_at > now {
        log.last().created_at
    } else {
        now
    }
}

/// The timestamp of a deletion marker: strictly after every event of the
/// log (but for a log that already ends at the largest timestamp).
pub open spec fn later_stamp(log: Seq<EventView>, now: u64) -> u64 {
    if log.len() > 0 && log.last().created_at >= now {
        if log.last().created_at < u64::MAX {
            (log.last().created_at + 1) as u64
        } else {
            log.last().created_at
        }
    } else {
        now
    }
}

pub open spec fn insert_spec(log: Seq<EventView>, env: Seq<char>, key: Seq<char>, value: Seq<char>, now: u64) -> Seq<EventView> {
    log.push(EventView { env, key: upper_seq(key), value: Some(value), created_at: stamp(log, now) })
}

/// Relation of `current` to the last event of a log.
pub proof fn lemma_current_push(log: Seq<EventView>, e: EventView, env: Seq<char>, key: Seq<char>)
    ensures
        current(log.push(e), env, key) == if is_for(e, env, key) { e.value } else { current(log, env, key) },
{
    assert(log.push(e).drop_last() =~= log);
}

/// The current value of a pair is the value of its latest event, and there
/// is none where the pair has no event.
#[verifier::spinoff_prover]
#[verifier::rlimit(60)]
pub proof fn lemma_current_latest(log: Seq<EventView>, env: Seq<char>, key: Seq<char>)
    ensures
        (exists|i: int| is_latest(log, i) && is_for(log[i], env, key)) || current(log, env, key) is None,
        forall|i: int| is_latest(log, i) && is_for(#[trigger] log[i], env, key) ==> current(log, env, key) == log[i].value,
    decreases log.len(),
{
    if log.len() > 0 {
        let pre = log.drop_last();
        lemma_current_latest(pre, env, key);
        let n = log.len() - 1;
        if is_for(log.last(), env, key) {
            assert(is_latest(log, n));
            assert forall|i: int| is_latest(log, i) && is_for(#[trigger] log[i], env, key) implies current(log, env, key) == log[i].value by {
                if i < n {
                    assert(is_for(log[n], log[i].env, log[i].key));
                }
            }
        } else {
            assert forall|i: int| is_latest(log, i) && is_for(#[trigger] log[i], env, key) implies current(log, env, key) == log[i].value by {
                assert(i < n);
                assert(pre[i] == log[i]);
                assert(is_latest(pre, i));
            }
            if exists|i: int| is_latest(pre, i) && is_for(pre[i], env, key) {
                let i = choose|i: int| is_latest(pre, i) && is_for(pre[i], env, key);
                assert(pre[i] == log[i]);
                assert forall|j: int| i < j < log.len() implies !is_for(log[j], log[i].env, log[i].key) by {
                    if j < n {
                        assert(pre[j] == log[j]);
                    }
                }
                assert(is_latest(log, i));
            }
        }
    }
}

/// In a chronological log the event that decides a pair's current value
/// carries the greatest timestamp among the pair's events.
pub proof fn lemma_latest_has_max_timestamp(log: Seq<EventView>, i: int, j: int)
    requires
        chronological(log),
        is_latest(log, i),
        0 <= j < log.len(),
        is_for(log[j], log[i].env, log[i].key),
    ensures
        log[j].created_at <= log[i].created_at,
{
    if j > i {
        assert(!is_for(log[j], log[i].env, log[i].key));
    }
}

/// A row lies in `active_upto(.., n, ..)` exactly where it is the row of a
/// selected event before `n`.
pub proof fn lemma_active_upto_members(log: Seq<EventView>, n: int, env: Option<Seq<char>>, key: Option<Seq<char>>)
    requires
        0 <= n <= log.len(),
    ensures
        forall|r: RowView| active_upto(log, n, env, key).contains(r)
            <==> exists|i: int| 0 <= i < n && selected(log, i, env, key) && row_of(log[i]) == r,
        forall|p: int, q: int| 0 <= p < q < active_upto(log, n, env, key).len()
            ==> !(active_upto(log, n, env, key)[p].0 == active_upto(log, n, env, key)[q].0
                && active_upto(log, n, env, key)[p].1 == active_upto(log, n, env, key)[q].1),
    decreases n,
{
    if n == 0 {
        assert(active_upto(log, n, env, key).len() == 0);
    } else {
        lemma_active_upto_members(log, n - 1, env, key);
        let prev = active_upto(log, n - 1, env, key);
        if selected(log, n - 1, env, key) {
            let cur = prev.push(row_of(log[n - 1]));
            assert(active_upto(log, n, env, key) == cur);
            assert forall|r: RowView| cur.contains(r) <==> exists|i: int| 0 <= i < n && selected(log, i, env, key) && row_of(log[i]) == r by {
                if cur.contains(r) {
                    let p = choose|p: int| 0 <= p < cur.len() && cur[p] == r;
                    if p < prev.len() {
                        assert(prev[p] == r);
                        assert(prev.contains(r));
                    }
                }
                if exists|i: int| 0 <= i < n && selected(log, i, env, key) && row_of(log[i]) == r {
                    let i = choose|i: int| 0 <= i < n && selected(log, i, env, key) && row_of(log[i]) == r;
                    if i < n - 1 {
                        assert(prev.contains(r));
                        let p = choose|p: int| 0 <= p < prev.len() && prev[p] == r;
                        assert(cur[p] == r);
                    } else {
                        assert(cur[prev.len() as int] == r);
                    }
                }
            }
            assert forall|p: int, q: int| 0 <= p < q < cur.len() implies !(cur[p].0 == cur[q].0 && cur[p].1 == cur[q].1) by {
                if q == prev.len() {
                    assert(cur[p] == prev[p]);
                    assert(prev.contains(prev[p]));
                    let i = choose|i: int| 0 <= i < n - 1 && selected(log, i, env, key) && row_of(log[i]) == prev[p];
                    assert(!is_for(log[n - 1], log[i].env, log[i].key));
                } else {
                    assert(cur[p] == prev[p]);
                    assert(cur[q] == prev[q]);
                }
            }
        } else {
            assert(active_upto(log, n, env, key) == prev);
        }
    }
}


pub open spec fn null_event(r: RowView, t: u64) -> EventView {
    EventView { env: r.0, key: r.1, value: None, created_at: t }
}

pub open spec fn copy_event(r: RowView, env: Seq<char>, t: u64) -> EventView {
    EventView { env, key: r.1, value: Some(r.2), created_at: t }
}

pub open spec fn nulls(rows: Seq<RowView>, t: u64) -> Seq<EventView> {
    rows.map_values(|r: RowView| null_event(r, t))
}

pub open spec fn copies(rows: Seq<RowView>, env: Seq<char>, t: u64) -> Seq<EventView> {
    rows.map_values(|r: RowView| copy_event(r, env, t))
}

pub open spec fn has_pair(rows: Seq<RowView>, env: Seq<char>, key: Seq<char>) -> bool {
    exists|j: int| 0 <= j < rows.len() && rows[j].0 == env && rows[j].1 == key
}

pub open spec fn has_key(rows: Seq<RowView>, key: Seq<char>) -> bool {
    exists|j: int| 0 <= j < rows.len() && rows[j].1 == key
}

pub open spec fn passes(f: Option<Seq<char>>, x: Seq<char>) -> bool {
    f matches Some(y) ==> x == y
}

/// Soft deletion of every current variable that passes the filters.
pub open spec fn soft_delete_spec(log: Seq<EventView>, env: Option<Seq<char>>, key: Option<Seq<char>>, now: u64) -> Seq<EventView> {
    log + nulls(active_rows(log, env, key), later_stamp(log, now))
}

/// Copy of the current variables of `src` into `tgt`.
pub open spec fn duplicate_spec(log: Seq<EventView>, src: Seq<char>, tgt: Seq<char>, now: u64) -> Seq<EventView> {
    log + copies(active_rows(log, Some(src), None), tgt, stamp(log, now))
}

/// The rows of `src` that a sync copies into `tgt`.
pub open spec fn sync_rows(log: Seq<EventView>, src: Seq<char>, tgt: Seq<char>, overwrite: bool) -> Seq<RowView> {
    active_rows(log, Some(src), None).filter(|r: RowView| overwrite || current(log, tgt, r.1) is None)
}

pub open spec fn sync_spec(log: Seq<EventView>, src: Seq<char>, tgt: Seq<char>, overwrite: bool, now: u64) -> Seq<EventView> {
    log + copies(sync_rows(log, src, tgt, overwrite), tgt, stamp(log, now))
}

/// Whether any event was ever recorded for the environment.
pub open spec fn env_seen(log: Seq<EventView>, env: Seq<char>) -> bool {
    exists|i: int| 0 <= i < log.len() && log[i].env == env
}

pub open spec fn not_in_env(env: Seq<char>) -> spec_fn(EventView) -> bool {
    |e: EventView| e.env != env
}

/// The log positions of the events that `active_upto` lists, in order.
pub open spec fn active_positions(log: Seq<EventView>, n: int, env: Option<Seq<char>>, key: Option<Seq<char>>) -> Seq<int>
    decreases n,
{
    if n <= 0 {
        Seq::empty()
    } else if selected(log, n - 1, env, key) {
        active_positions(log, n - 1, env, key).push(n - 1)
    } else {
        active_positions(log, n - 1, env, key)
    }
}

proof fn lemma_active_positions(log: Seq<EventView>, n: int, env: Option<Seq<char>>, key: Option<Seq<char>>)
    requires
        0 <= n <= log.len(),
    ensures
        active_positions(log, n, env, key).len() == active_upto(log, n, env, key).len(),
        forall|p: int| #![trigger active_positions(log, n, env, key)[p]] 0 <= p < active_positions(log, n, env, key).len() ==> {
            let i = active_positions(log, n, env, key)[p];
            0 <= i < n && selected(log, i, env, key) && active_upto(log, n, env, key)[p] == row_of(log[i])
        },
        forall|p: int, q: int| 0 <= p < q < active_positions(log, n, env, key).len()
            ==> active_positions(log, n, env, key)[p] < active_positions(log, n, env, key)[q],
    decreases n,
{
    if n > 0 {
        lemma_active_positions(log, n - 1, env, key);
    }
}

/// A listing is ordered by timestamp: in a chronological log each listed row
/// is the row of its pair's latest event, and those events appear in log
/// order, so their timestamps never decrease along the listing.
pub proof fn lemma_listing_chronological(log: Seq<EventView>, env: Option<Seq<char>>, key: Option<Seq<char>>)
    requires
        chronological(log),
    ensures
        ({
            let rows = active_rows(log, env, key);
            let pos = active_positions(log, log.len() as int, env, key);
            &&& pos.len() == rows.len()
            &&& forall|p: int| 0 <= p < rows.len() ==> is_latest(log, #[trigger] pos[p]) && rows[p] == row_of(log[pos[p]])
            &&& forall|p: int, q: int| 0 <= p < q < rows.len() ==> log[pos[p]].created_at <= log[pos[q]].created_at
        }),
{
    lemma_active_positions(log, log.len() as int, env, key);
}

/// The current variables that pass the filters, as rows: exactly the pairs
/// whose current value exists, each once, with that value.
pub proof fn lemma_active_rows(log: Seq<EventView>, env: Option<Seq<char>>, key: Option<Seq<char>>)
    ensures
        forall|e: Seq<char>, k: Seq<char>| #[trigger] has_pair(active_rows(log, env, key), e, k)
            <==> (current(log, e, k) is Some && passes(env, e) && passes(key, k)),
        forall|j: int| 0 <= j < active_rows(log, env, key).len() ==> {
            let r = #[trigger] active_rows(log, env, key)[j];
            current(log, r.0, r.1) == Some(r.2) && passes(env, r.0) && passes(key, r.1)
        },
        forall|p: int, q: int| 0 <= p < q < active_rows(log, env, key).len()
            ==> !(active_rows(log, env, key)[p].0 == active_rows(log, env, key)[q].0
                && active_rows(log, env, key)[p].1 == active_rows(log, env, key)[q].1),
{
    let rows = active_rows(log, env, key);
    lemma_active_upto_members(log, log.len() as int, env, key);
    assert forall|j: int| 0 <= j < rows.len() implies {
        let r = #[trigger] rows[j];
        current(log, r.0, r.1) == Some(r.2) && passes(env, r.0) && passes(key, r.1)
    } by {
        let r = rows[j];
        assert(rows.contains(r));
        let i = choose|i: int| 0 <= i < log.len() && selected(log, i, env, key) && row_of(log[i]) == r;
        lemma_current_latest(log, r.0, r.1);
    }
    assert forall|e: Seq<char>, k: Seq<char>| #[trigger] has_pair(rows, e, k)
        <==> (current(log, e, k) is Some && passes(env, e) && passes(key, k)) by {
        if has_pair(rows, e, k) {
            let j = choose|j: int| 0 <= j < rows.len() && rows[j].0 == e && rows[j].1 == k;
            assert(current(log, rows[j].0, rows[j].1) == Some(rows[j].2));
        }
        if current(log, e, k) is Some && passes(env, e) && passes(key, k) {
            lemma_current_latest(log, e, k);
            let i = choose|i: int| is_latest(log, i) && is_for(log[i], e, k);
            assert(selected(log, i, env, key));
            assert(rows.contains(row_of(log[i])));
            let j = choose|j: int| 0 <= j < rows.len() && rows[j] == row_of(log[i]);
            assert(rows[j].0 == e && rows[j].1 == k);
        }
    }
}

/// Appending deletion markers for some pairs leaves those pairs without a
/// current value and every other pair as it was.
pub proof fn lemma_current_after_nulls(log: Seq<EventView>, rows: Seq<RowView>, t: u64, e: Seq<char>, k: Seq<char>)
    ensures
        current(log + nulls(rows, t), e, k) == if has_pair(rows, e, k) { None } else { current(log, e, k) },
    decreases rows.len(),
{
    if rows.len() == 0 {
        assert(log + nulls(rows, t) =~= log);
    } else {
        let pre = rows.drop_last();
        lemma_current_after_nulls(log, pre, t, e, k);
        assert(log + nulls(rows, t) =~= (log + nulls(pre, t)).push(null_event(rows.last(), t)));
        lemma_current_push(log + nulls(pre, t), null_event(rows.last(), t), e, k);
        if has_pair(pre, e, k) {
            let j = choose|j: int| 0 <= j < pre.len() && pre[j].0 == e && pre[j].1 == k;
            assert(rows[j] == pre[j]);
        }
        if has_pair(rows, e, k) && !(rows.last().0 == e && rows.last().1 == k) {
            let j = choose|j: int| 0 <= j < rows.len() && rows[j].0 == e && rows[j].1 == k;
            assert(pre[j] == rows[j]);
        }
    }
}

/// Appending copies of rows with distinct keys into `env` sets each copied
/// key there and leaves every other pair as it was.
pub proof fn lemma_current_after_copies(log: Seq<EventView>, rows: Seq<RowView>, env: Seq<char>, t: u64, e: Seq<char>, k: Seq<char>)
    requires
        forall|p: int, q: int| 0 <= p < q < rows.len() ==> rows[p].1 != rows[q].1,
    ensures
        !(e == env && has_key(rows, k)) ==> current(log + copies(rows, env, t), e, k) == current(log, e, k),
        forall|j: int| 0 <= j < rows.len() && rows[j].1 == k && e == env
            ==> current(log + copies(rows, env, t), e, k) == Some(#[trigger] rows[j].2),
    decreases rows.len(),
{
    if rows.len() == 0 {
        assert(log + copies(rows, env, t) =~= log);
    } else {
        let pre = rows.drop_last();
        lemma_current_after_copies(log, pre, env, t, e, k);
        assert(log + copies(rows, env, t) =~= (log + copies(pre, env, t)).push(copy_event(rows.last(), env, t)));
        lemma_current_push(log + copies(pre, env, t), copy_event(rows.last(), env, t), e, k);
        if has_key(pre, k) {
            let j = choose|j: int| 0 <= j < pre.len() && pre[j].1 == k;
            assert(rows[j] == pre[j]);
        }
        if has_key(rows, k) && rows.last().1 != k {
            let j = choose|j: int| 0 <= j < rows.len() && rows[j].1 == k;
            assert(pre[j] == rows[j]);
        }
        assert forall|j: int| 0 <= j < rows.len() && rows[j].1 == k && e == env
            implies current(log + copies(rows, env, t), e, k) == Some(#[trigger] rows[j].2) by {
            if j < pre.len() {
                assert(pre[j] == rows[j]);
            }
        }
    }
}

/// The rows of one environment have distinct keys.
proof fn lemma_env_rows_keys(log: Seq<EventView>, env: Seq<char>)
    ensures
        forall|p: int, q: int| 0 <= p < q < active_rows(log, Some(env), None).len()
            ==> active_rows(log, Some(env), None)[p].1 != active_rows(log, Some(env), None)[q].1,
{
    lemma_active_rows(log, Some(env), None);
    let rows = active_rows(log, Some(env), None);
    assert forall|p: int, q: int| 0 <= p < q < rows.len() implies rows[p].1 != rows[q].1 by {
        let a = rows[p];
        let b = rows[q];
        assert(passes(Some(env), a.0));
        assert(passes(Some(env), b.0));
    }
}

/// Filtering keeps order: two survivors come from positions in the same order.
pub proof fn lemma_filter_positions<A>(s: Seq<A>, pred: spec_fn(A) -> bool, a: int, b: int)
    requires
        0 <= a < b < s.filter(pred).len(),
    ensures
        exists|i: int, j: int| 0 <= i < j < s.len() && s[i] == s.filter(pred)[a] && s[j] == s.filter(pred)[b],
    decreases s.len(),
{
    reveal(Seq::filter);
    let pre = s.drop_last();
    let fp = pre.filter(pred);
    if pred(s.last()) {
        assert(s.filter(pred) == fp.push(s.last()));
        if b < fp.len() {
            lemma_filter_positions(pre, pred, a, b);
            let (i, j) = choose|i: int, j: int| 0 <= i < j < pre.len() && pre[i] == fp[a] && pre[j] == fp[b];
            assert(s[i] == pre[i] && s[j] == pre[j]);
        } else {
            assert(fp.contains(fp[a]));
            pre.lemma_filter_contains_rev(pred, fp[a]);
            let i = choose|i: int| 0 <= i < pre.len() && pre[i] == fp[a];
            assert(s[i] == pre[i]);
            assert(s[s.len() - 1] == s.filter(pred)[b]);
        }
    } else {
        assert(s.filter(pred) == fp);
        lemma_filter_positions(pre, pred, a, b);
        let (i, j) = choose|i: int, j: int| 0 <= i < j < pre.len() && pre[i] == fp[a] && pre[j] == fp[b];
        assert(s[i] == pre[i] && s[j] == pre[j]);
    }
}

/// Filtering keeps the order of a log: an earlier survivor comes from an
/// earlier position.
proof fn lemma_filter_order(log: Seq<EventView>, pred: spec_fn(EventView) -> bool, a: int, b: int)
    requires
        chronological(log),
        0 <= a < b < log.filter(pred).len(),
    ensures
        log.filter(pred)[a].created_at <= log.filter(pred)[b].created_at,
{
    lemma_filter_positions(log, pred, a, b);
}

pub open spec fn has_active(log: Seq<EventView>, env: Seq<char>) -> bool {
    exists|k: Seq<char>| #[trigger] current(log, env, k) is Some
}

/// The events of one environment and key, oldest first.
pub open spec fn history_spec(log: Seq<EventView>, env: Seq<char>, key: Seq<char>) -> Seq<EventView> {
    log.filter(|e: EventView| is_for(e, env, key))
}

/// Position of the last event of a pair, or -1.
pub open spec fn last_index(log: Seq<EventView>, env: Seq<char>, key: Seq<char>) -> int
    decreases log.len(),
{
    if log.len() == 0 {
        -1
    } else if is_for(log.last(), env, key) {
        log.len() - 1
    } else {
        last_index(log.drop_last(), env, key)
    }
}

/// The log after undoing the last change of a pair.
pub open spec fn revert_spec(log: Seq<EventView>, env: Seq<char>, key: Seq<char>) -> Seq<EventView> {
    if last_index(log, env, key) < 0 {
        log
    } else {
        log.remove(last_index(log, env, key))
    }
}

/// The log after `n` reverts of a pair.
pub open spec fn revert_times(log: Seq<EventView>, env: Seq<char>, key: Seq<char>, n: nat) -> Seq<EventView>
    decreases n,
{
    if n == 0 {
        log
    } else {
        revert_times(revert_spec(log, env, key), env, key, (n - 1) as nat)
    }
}

/// A revert removes exactly the newest entry of the pair's history, and
/// does nothing where the history is empty.
pub proof fn lemma_revert_step(log: Seq<EventView>, env: Seq<char>, key: Seq<char>)
    ensures
        -1 <= last_index(log, env, key) < log.len(),
        last_index(log, env, key) < 0 <==> history_spec(log, env, key).len() == 0,
        history_spec(log, env, key).len() > 0
            ==> history_spec(revert_spec(log, env, key), env, key) == history_spec(log, env, key).drop_last(),
        forall|e: Seq<char>, k: Seq<char>| !(e == env && k == key)
            ==> #[trigger] history_spec(revert_spec(log, env, key), e, k) == history_spec(log, e, k),
    decreases log.len(),
{
    reveal(Seq::filter);
    if log.len() > 0 {
        let pre = log.drop_last();
        lemma_revert_step(pre, env, key);
        if is_for(log.last(), env, key) {
            assert(log.remove(log.len() - 1) =~= pre);
            assert forall|e: Seq<char>, k: Seq<char>| !(e == env && k == key)
                implies #[trigger] history_spec(revert_spec(log, env, key), e, k) == history_spec(log, e, k) by {
                assert(!is_for(log.last(), e, k));
            }
        } else {
            let li = last_index(pre, env, key);
            if li >= 0 {
                assert(log.remove(li) =~= pre.remove(li).push(log.last()));
                assert((pre.remove(li).push(log.last())).drop_last() =~= pre.remove(li));
                assert forall|e: Seq<char>, k: Seq<char>| !(e == env && k == key)
                    implies #[trigger] history_spec(revert_spec(log, env, key), e, k) == history_spec(log, e, k) by {
                    assert(history_spec(revert_spec(pre, env, key), e, k) == history_spec(pre, e, k));
                }
            }
        }
    }
}

/// Reverting a pair as many times as its history is long empties that
/// history, and one more revert leaves the log as it is.
pub proof fn lemma_revert_empties(log: Seq<EventView>, env: Seq<char>, key: Seq<char>)
    ensures
        history_spec(revert_times(log, env, key, history_spec(log, env, key).len()), env, key).len() == 0,
        revert_spec(revert_times(log, env, key, history_spec(log, env, key).len()), env, key)
            == revert_times(log, env, key, history_spec(log, env, key).len()),
    decreases history_spec(log, env, key).len(),
{
    let n = history_spec(log, env, key).len();
    lemma_revert_step(log, env, key);
    if n > 0 {
        let next = revert_spec(log, env, key);
        lemma_revert_empties(next, env, key);
        assert(history_spec(next, env, key).len() == (n - 1) as nat);
        assert(revert_times(log, env, key, n) == revert_times(next, env, key, (n - 1) as nat));
    } else {
        let done = revert_times(log, env, key, n);
        lemma_revert_step(done, env, key);
    }
}

/// Distinct environment names among the first `n` events, in order of
/// first appearance.
pub open spec fn envs_upto(log: Seq<EventView>, n: int) -> Seq<Seq<char>>
    decreases n,
{
    if n <= 0 {
        Seq::empty()
    } else if envs_upto(log, n - 1).contains(log[n - 1].env) {
        envs_upto(log, n - 1)
    } else {
        envs_upto(log, n - 1).push(log[n - 1].env)
    }
}

/// A pair has no current value in an environment with no event.
proof fn lemma_unseen_no_current(log: Seq<EventView>, env: Seq<char>, k: Seq<char>)
    requires
        !env_seen(log, env),
    ensures
        current(log, env, k) is None,
{
    lemma_current_latest(log, env, k);
    if current(log, env, k) is Some {
        let i = choose|i: int| is_latest(log, i) && is_for(log[i], env, k);
        assert(log[i].env == env);
    }
}

/// The difference for one key between two environments, if any.
pub open spec fn diff_for(log: Seq<EventView>, env1: Seq<char>, env2: Seq<char>, key: Seq<char>) -> Option<DiffView> {
    match (current(log, env1, key), current(log, env2, key)) {
        (Some(a), None) => Some(DiffView::InFirst(key, a)),
        (None, Some(b)) => Some(DiffView::InSecond(key, b)),
        (Some(a), Some(b)) => if a != b { Some(DiffView::Different(key, a, b)) } else { None },
        (None, None) => None,
    }
}

proof fn lemma_diff_for_key(log: Seq<EventView>, env1: Seq<char>, env2: Seq<char>, key: Seq<char>)
    ensures
        diff_for(log, env1, env2, key) matches Some(d) ==> diff_key(d) == key,
{
}

/// The key of a difference.
fn diff_key_of(d: &EnvironmentDiff) -> (r: &String)
    ensures
        r@ == diff_key(d@),
{
    match d {
        EnvironmentDiff::InFirst(k, _) => k,
        EnvironmentDiff::InSecond(k, _) => k,
        EnvironmentDiff::Different(k, _, _) => k,
    }
}

/// Soft deletion clears exactly the pairs that pass the filters.
pub proof fn lemma_soft_delete_current(log: Seq<EventView>, env: Option<Seq<char>>, key: Option<Seq<char>>, now: u64, e: Seq<char>, k: Seq<char>)
    ensures
        current(soft_delete_spec(log, env, key, now), e, k)
            == if passes(env, e) && passes(key, k) { None } else { current(log, e, k) },
{
    lemma_active_rows(log, env, key);
    lemma_current_after_nulls(log, active_rows(log, env, key), later_stamp(log, now), e, k);
    assert(has_pair(active_rows(log, env, key), e, k) <==> (current(log, e, k) is Some && passes(env, e) && passes(key, k)));
}

/// The log after a sequence of writes to one key of one environment: a
/// value inserts it, `None` soft-deletes it, each at its own time.
pub open spec fn apply_writes(log: Seq<EventView>, env: Seq<char>, key: Seq<char>, writes: Seq<(Option<Seq<char>>, u64)>) -> Seq<EventView>
    decreases writes.len(),
{
    if writes.len() == 0 {
        log
    } else {
        let pre = apply_writes(log, env, key, writes.drop_last());
        match writes.last().0 {
            Some(v) => insert_spec(pre, env, key, v, writes.last().1),
            None => soft_delete_spec(pre, Some(env), Some(upper_seq(key)), writes.last().1),
        }
    }
}

/// After any sequence of inserts and soft deletes of one key, the listing
/// of the environment holds the key with the value of the last write, or
/// omits it where the last write was a delete.
pub proof fn lemma_last_write_wins(log: Seq<EventView>, env: Seq<char>, key: Seq<char>, writes: Seq<(Option<Seq<char>>, u64)>)
    requires
        writes.len() > 0,
    ensures
        ({
            let rows = active_rows(apply_writes(log, env, key, writes), Some(env), None);
            match writes.last().0 {
                Some(v) => has_pair(rows, env, upper_seq(key))
                    && forall|j: int| 0 <= j < rows.len() && rows[j].1 == upper_seq(key) ==> #[trigger] rows[j].2 == v,
                None => !has_pair(rows, env, upper_seq(key)),
            }
        }),
{
    let pre = apply_writes(log, env, key, writes.drop_last());
    let fin = apply_writes(log, env, key, writes);
    let k = upper_seq(key);
    match writes.last().0 {
        Some(v) => {
            let e = EventView { env, key: k, value: Some(v), created_at: stamp(pre, writes.last().1) };
            lemma_current_push(pre, e, env, k);
        },
        None => {
            lemma_soft_delete_current(pre, Some(env), Some(k), writes.last().1, env, k);
        },
    }
    lemma_active_rows(fin, Some(env), None);
    let rows = active_rows(fin, Some(env), None);
    assert(has_pair(rows, env, k) <==> (current(fin, env, k) is Some && passes(Some(env), env) && passes(None, k)));
    assert forall|j: int| 0 <= j < rows.len() && rows[j].1 == k implies current(fin, env, k) == Some(#[trigger] rows[j].2) by {
        assert(current(fin, rows[j].0, rows[j].1) == Some(rows[j].2) && passes(Some(env), rows[j].0));
    }
}

/// The log after soft-deleting each key of `keys` in `env`, in order.
pub open spec fn deletes_spec(log: Seq<EventView>, env: Seq<char>, keys: Seq<Seq<char>>, now: u64) -> Seq<EventView>
    decreases keys.len(),
{
    if keys.len() == 0 {
        log
    } else {
        soft_delete_spec(deletes_spec(log, env, keys.drop_last(), now), Some(env), Some(upper_seq(keys.last())), now)
    }
}

/// The log after inserting each pair of `pairs` into `env`, in order.
pub open spec fn upserts_spec(log: Seq<EventView>, env: Seq<char>, pairs: Seq<(Seq<char>, Seq<char>)>, now: u64) -> Seq<EventView>
    decreases pairs.len(),
{
    if pairs.len() == 0 {
        log
    } else {
        insert_spec(upserts_spec(log, env, pairs.drop_last(), now), env, pairs.last().0, pairs.last().1, now)
    }
}

/// An edit deletes first, then sets.
pub open spec fn apply_edit_spec(log: Seq<EventView>, env: Seq<char>, edits: EditsView, now: u64) -> Seq<EventView> {
    upserts_spec(deletes_spec(log, env, edits.0, now), env, edits.1, now)
}

/// The value of a name in an environment snapshot: the first pair that
/// names it.
pub open spec fn lookup(snapshot: Seq<(Seq<char>, Seq<char>)>, name: Seq<char>) -> Option<Seq<char>>
    decreases snapshot.len(),
{
    if snapshot.len() == 0 {
        None
    } else if snapshot[0].0 == name {
        Some(snapshot[0].1)
    } else {
        lookup(snapshot.skip(1), name)
    }
}

/// An environment is in effect when it has variables and the snapshot
/// holds every one of them with its current value.
pub open spec fn env_in_effect(log: Seq<EventView>, snapshot: Seq<(Seq<char>, Seq<char>)>, env: Seq<char>) -> bool {
    &&& has_active(log, env)
    &&& forall|k: Seq<char>| #[trigger] current(log, env, k) matches Some(v) ==> lookup(snapshot, k) == Some(v)
}

pub open spec fn pairs_view(v: Seq<(String, String)>) -> Seq<(Seq<char>, Seq<char>)> {
    v.map_values(|p: (String, String)| (p.0@, p.1@))
}

/// The value of `name` in the snapshot.
fn lookup_exec<'a>(snapshot: &'a Vec<(String, String)>, name: &String) -> (r: Option<&'a String>)
    ensures
        match r {
            Some(v) => lookup(pairs_view(snapshot@), name@) == Some(v@),
            None => lookup(pairs_view(snapshot@), name@) is None,
        },
{
    let ghost sv = pairs_view(snapshot@);
    let mut i: usize = 0;
    assert(sv.skip(0) =~= sv);
    while i < snapshot.len()
        invariant
            0 <= i <= snapshot@.len(),
            sv == pairs_view(snapshot@),
            lookup(sv, name@) == lookup(sv.skip(i as int), name@),
        decreases snapshot@.len() - i,
    {
        proof {
            assert(sv.skip(i as int)[0] == sv[i as int]);
            assert(sv.skip(i as int).skip(1) =~= sv.skip(i + 1));
        }
        if snapshot[i].0 == *name {
            return Some(&snapshot[i].1);
        }
        i = i + 1;
    }
    None
}

impl VariableEvent {
    pub fn new(env: &str, key: &str, value: Option<&str>, created_at: u64) -> (r: VariableEvent)
        ensures
            r@ == (EventView {
                env: env@,
                key: key@,
                value: match value {
                    Some(v) => Some(v@),
                    None => None,
                },
                created_at,
            }),
    {
        let value = match value {
            Some(v) => Some(v.to_owned()),
            None => None,
        };
        VariableEvent { env: env.to_owned(), key: key.to_owned(), value, created_at }
    }
}

impl Environment {
    pub fn from(e: &str) -> (r: Environment)
        ensures
            r.env@ == e@,
    {
        Environment { env: e.to_owned() }
    }
}

impl EnvironmentRow {
    pub fn from(e: &str, k: &str, v: &str) -> (r: EnvironmentRow)
        ensures
            r@ == (e@, k@, v@),
    {
        EnvironmentRow { env: e.to_owned(), key: k.to_owned(), value: v.to_owned() }
    }
}

impl EnvironmentRowNullable {
    pub fn from(e: &str, k: &str, v: Option<&str>, created_at: u64) -> (r: EnvironmentRowNullable)
        ensures
            r@ == (EventView {
                env: e@,
                key: k@,
                value: match v {
                    Some(x) => Some(x@),
                    None => None,
                },
                created_at,
            }),
    {
        let value = match v {
            Some(x) => Some(x.to_owned()),
            None => None,
        };
        EnvironmentRowNullable { env: e.to_owned(), key: k.to_owned(), value, created_at }
    }
}

/// The view of a store: its log.
pub struct EnvelopeDb {
    events: Vec<VariableEvent>,
}

impl View for EnvelopeDb {
    type V = Seq<EventView>;

    closed spec fn view(&self) -> Seq<EventView> {
        log_view(self.events@)
    }
}

impl EnvelopeDb {
    /// A store whose timestamps never decrease along its log.
    pub open spec fn wf(&self) -> bool {
        chronological(self@)
    }

    /// An empty store.
    pub fn new() -> (r: EnvelopeDb)
        ensures
            r@ == Seq::<EventView>::empty(),
            r.wf(),
    {
        let r = EnvelopeDb { events: Vec::new() };
        assert(r@ =~= Seq::<EventView>::empty());
        r
    }

    /// A store over a log read back from storage; `None` where its
    /// timestamps decrease somewhere.
    pub fn from_events(events: Vec<VariableEvent>) -> (r: Option<EnvelopeDb>)
        ensures
            chronological(log_view(events@)) <==> r is Some,
            r matches Some(db) ==> db@ == log_view(events@),
    {
        let mut i: usize = 1;
        while i < events.len()
            invariant
                1 <= i,
                forall|a: int, b: int| 0 <= a < b < i && b < events@.len() ==> events@[a].created_at <= events@[b].created_at,
            decreases events@.len() - i,
        {
            if events[i - 1].created_at > events[i].created_at {
                assert(log_view(events@)[i - 1].created_at > log_view(events@)[i as int].created_at);
                return None;
            }
            i = i + 1;
        }
        Some(EnvelopeDb { events })
    }

    /// The log, for writing back to storage.
    pub fn events(&self) -> (r: &Vec<VariableEvent>)
        ensures
            log_view(r@) == self@,
    {
        &self.events
    }

    fn stamp_for(&self, now: u64) -> (r: u64)
        ensures
            r == stamp(self@, now),
    {
        let n = self.events.len();
        if n > 0 && self.events[n - 1].created_at > now {
            self.events[n - 1].created_at
        } else {
            now
        }
    }

    fn later_stamp_for(&self, now: u64) -> (r: u64)
        ensures
            r == later_stamp(self@, now),
    {
        let n = self.events.len();
        if n > 0 && self.events[n - 1].created_at >= now {
            let last = self.events[n - 1].created_at;
            if last < u64::MAX {
                last + 1
            } else {
                last
            }
        } else {
            now
        }
    }

    fn push_event(&mut self, e: VariableEvent)
        requires
            old(self).wf(),
            old(self)@.len() > 0 ==> old(self)@.last().created_at <= e.created_at,
        ensures
            final(self)@ == old(self)@.push(e@),
            final(self).wf(),
    {
        self.events.push(e);
        assert(self@ =~= old(self)@.push(e@));
    }

    /// Appends one event that sets `key`, upper-cased, to `value` in `env`.
    pub fn insert(&mut self, env: &str, key: &str, value: &str, now: u64)
        requires
            old(self).wf(),
        ensures
            final(self).wf(),
            final(self)@ == insert_spec(old(self)@, env@, key@, value@, now),
            active_map(final(self)@, env@) == active_map(old(self)@, env@).insert(upper_seq(key@), value@),
            forall|e: Seq<char>| e != env@ ==> #[trigger] active_map(final(self)@, e) == active_map(old(self)@, e),
    {
        let t = self.stamp_for(now);
        let e = VariableEvent { env: env.to_owned(), key: ascii_upper(key), value: Some(value.to_owned()), created_at: t };
        self.push_event(e);
        proof {
            let ev = e@;
            assert forall|x: Seq<char>, k: Seq<char>| #[trigger] current(self@, x, k)
                == if is_for(ev, x, k) { Some(value@) } else { current(old(self)@, x, k) } by {
                lemma_current_push(old(self)@, ev, x, k);
            }
            assert(active_map(self@, env@) =~= active_map(old(self)@, env@).insert(upper_seq(key@), value@));
            assert forall|x: Seq<char>| x != env@ implies #[trigger] active_map(self@, x) == active_map(old(self)@, x) by {
                assert(active_map(self@, x) =~= active_map(old(self)@, x));
            }
        }
    }

    /// The current value of `key` (as given) in `env`.
    pub fn current_value(&self, env: &str, key: &str) -> (r: Option<String>)
        ensures
            opt_view(r) == current(self@, env@, key@),
    {
        let env_s = env.to_owned();
        let key_s = key.to_owned();
        let mut i: usize = self.events.len();
        assert(self@.take(i as int) =~= self@);
        while i > 0
            invariant
                i <= self.events@.len(),
                env_s@ == env@,
                key_s@ == key@,
                current(self@, env@, key@) == current(self@.take(i as int), env@, key@),
            decreases i,
        {
            let e = &self.events[i - 1];
            proof {
                assert(self@.take(i as int).drop_last() =~= self@.take(i - 1));
                assert(self@.take(i as int).last() == e@);
            }
            if e.env == env_s && e.key == key_s {
                return e.value.clone();
            }
            i = i - 1;
        }
        None
    }

    /// The current variables that pass the filters, in log order.
    fn collect_active(&self, env: Option<&String>, key: Option<&String>) -> (r: Vec<EnvironmentRow>)
        ensures
            rows_view(r@) == active_rows(self@, opt_view_ref(env), opt_view_ref(key)),
    {
        let ghost fe = opt_view_ref(env);
        let ghost fk = opt_view_ref(key);
        let n = self.events.len();
        let mut out: Vec<EnvironmentRow> = Vec::new();
        let mut i: usize = 0;
        while i < n
            invariant
                n == self@.len(),
                0 <= i <= n,
                fe == opt_view_ref(env),
                fk == opt_view_ref(key),
                rows_view(out@) == active_upto(self@, i as int, fe, fk),
            decreases n - i,
        {
            let e = &self.events[i];
            let mut latest = true;
            let mut j: usize = i + 1;
            while j < n
                invariant
                    n == self@.len(),
                    i < n,
                    i + 1 <= j <= n,
                    e@ == self@[i as int],
                    latest == forall|k: int| i < k < j ==> !is_for(self@[k], self@[i as int].env, self@[i as int].key),
                decreases n - j,
            {
                let f = &self.events[j];
                assert(f@ == self@[j as int]);
                if f.env == e.env && f.key == e.key {
                    latest = false;
                }
                j = j + 1;
            }
            let mut pass = latest;
            match &e.value {
                None => { pass = false; },
                Some(_) => {},
            }
            match env {
                Some(x) => { if !(e.env == *x) { pass = false; } },
                None => {},
            }
            match key {
                Some(x) => { if !(e.key == *x) { pass = false; } },
                None => {},
            }
            assert(pass == selected(self@, i as int, fe, fk));
            if pass {
                match &e.value {
                    Some(v) => {
                        let row = EnvironmentRow { env: e.env.clone(), key: e.key.clone(), value: v.clone() };
                        out.push(row);
                        assert(rows_view(out@) =~= active_upto(self@, i as int, fe, fk).push(row_of(self@[i as int])));
                    },
                    None => {},
                }
            }
            i = i + 1;
        }
        out
    }

    fn append_nulls(&mut self, rows: &Vec<EnvironmentRow>, t: u64)
        requires
            old(self).wf(),
            old(self)@.len() > 0 ==> old(self)@.last().created_at <= t,
        ensures
            final(self).wf(),
            final(self)@ == old(self)@ + nulls(rows_view(rows@), t),
    {
        let mut i: usize = 0;
        while i < rows.len()
            invariant
                0 <= i <= rows@.len(),
                self.wf(),
                self@.len() > 0 ==> self@.last().created_at <= t,
                self@ == old(self)@ + nulls(rows_view(rows@.take(i as int)), t),
            decreases rows@.len() - i,
        {
            let r = &rows[i];
            let e = VariableEvent { env: r.env.clone(), key: r.key.clone(), value: None, created_at: t };
            self.push_event(e);
            proof {
                assert(rows@.take(i + 1) =~= rows@.take(i as int).push(rows@[i as int]));
                assert(nulls(rows_view(rows@.take(i + 1)), t) =~= nulls(rows_view(rows@.take(i as int)), t).push(null_event(r@, t)));
            }
            i = i + 1;
        }
        assert(rows@.take(i as int) =~= rows@);
    }

    fn append_copies(&mut self, rows: &Vec<EnvironmentRow>, env: &str, t: u64)
        requires
            old(self).wf(),
            old(self)@.len() > 0 ==> old(self)@.last().created_at <= t,
        ensures
            final(self).wf(),
            final(self)@ == old(self)@ + copies(rows_view(rows@), env@, t),
    {
        let mut i: usize = 0;
        while i < rows.len()
            invariant
                0 <= i <= rows@.len(),
                self.wf(),
                self@.len() > 0 ==> self@.last().created_at <= t,
                self@ == old(self)@ + copies(rows_view(rows@.take(i as int)), env@, t),
            decreases rows@.len() - i,
        {
            let r = &rows[i];
            let e = VariableEvent { env: env.to_owned(), key: r.key.clone(), value: Some(r.value.clone()), created_at: t };
            self.push_event(e);
            proof {
                assert(rows@.take(i + 1) =~= rows@.take(i as int).push(rows@[i as int]));
                assert(copies(rows_view(rows@.take(i + 1)), env@, t) =~= copies(rows_view(rows@.take(i as int)), env@, t).push(copy_event(r@, env@, t)));
            }
            i = i + 1;
        }
        assert(rows@.take(i as int) =~= rows@);
    }

    /// The current variables of `env`, ordered by the time they were set.
    pub fn list_kv_in_env(&self, env: &str) -> (r: Vec<EnvironmentRow>)
        ensures
            rows_view(r@) == active_rows(self@, Some(env@), None),
    {
        let e = env.to_owned();
        self.collect_active(Some(&e), None)
    }

    /// The current variables of every environment, ordered by the time they
    /// were set.
    pub fn get_active_kv_in_env(&self) -> (r: Vec<EnvironmentRow>)
        ensures
            rows_view(r@) == active_rows(self@, None, None),
    {
        self.collect_active(None, None)
    }

    /// Whether any event was ever recorded for `env`.
    pub fn env_exists(&self, env: &str) -> (r: bool)
        ensures
            r == env_seen(self@, env@),
    {
        let e = env.to_owned();
        let mut i: usize = 0;
        while i < self.events.len()
            invariant
                0 <= i <= self@.len(),
                e@ == env@,
                forall|j: int| 0 <= j < i ==> self@[j].env != env@,
            decreases self@.len() - i,
        {
            if self.events[i].env == e {
                assert(self@[i as int].env == env@);
                return true;
            }
            i = i + 1;
        }
        false
    }

    fn soft_delete(&mut self, env: Option<&String>, key: Option<&String>, now: u64)
        requires
            old(self).wf(),
        ensures
            final(self).wf(),
            final(self)@ == soft_delete_spec(old(self)@, opt_view_ref(env), opt_view_ref(key), now),
            forall|e: Seq<char>, k: Seq<char>| #[trigger] current(final(self)@, e, k)
                == if passes(opt_view_ref(env), e) && passes(opt_view_ref(key), k) { None } else { current(old(self)@, e, k) },
    {
        let rows = self.collect_active(env, key);
        let t = self.later_stamp_for(now);
        self.append_nulls(&rows, t);
        proof {
            let log = old(self)@;
            lemma_active_rows(log, opt_view_ref(env), opt_view_ref(key));
            assert forall|e: Seq<char>, k: Seq<char>| #[trigger] current(self@, e, k)
                == if passes(opt_view_ref(env), e) && passes(opt_view_ref(key), k) { None } else { current(log, e, k) } by {
                lemma_current_after_nulls(log, rows_view(rows@), t, e, k);
                assert(has_pair(active_rows(log, opt_view_ref(env), opt_view_ref(key)), e, k)
                    <==> (current(log, e, k) is Some && passes(opt_view_ref(env), e) && passes(opt_view_ref(key), k)));
            }
        }
    }

    /// Marks every current variable of `env` deleted.
    pub fn soft_delete_env(&mut self, env: &str, now: u64)
        requires
            old(self).wf(),
        ensures
            final(self).wf(),
            final(self)@ == soft_delete_spec(old(self)@, Some(env@), None, now),
            forall|k: Seq<char>| #[trigger] current(final(self)@, env@, k) is None,
            forall|e: Seq<char>, k: Seq<char>| e != env@ ==> #[trigger] current(final(self)@, e, k) == current(old(self)@, e, k),
    {
        let e = env.to_owned();
        self.soft_delete(Some(&e), None, now);
    }

    /// Marks `key` (upper-cased) deleted in every environment that has it.
    pub fn soft_delete_keys(&mut self, key: &str, now: u64)
        requires
            old(self).wf(),
        ensures
            final(self).wf(),
            final(self)@ == soft_delete_spec(old(self)@, None, Some(upper_seq(key@)), now),
            forall|e: Seq<char>| #[trigger] current(final(self)@, e, upper_seq(key@)) is None,
            forall|e: Seq<char>, k: Seq<char>| k != upper_seq(key@) ==> #[trigger] current(final(self)@, e, k) == current(old(self)@, e, k),
    {
        let k = ascii_upper(key);
        self.soft_delete(None, Some(&k), now);
    }

    /// Marks `key` (upper-cased) deleted in `env`; nothing is appended where
    /// it has no current value.
    pub fn soft_delete_key_in_env(&mut self, env: &str, key: &str, now: u64)
        requires
            old(self).wf(),
        ensures
            final(self).wf(),
            final(self)@ == soft_delete_spec(old(self)@, Some(env@), Some(upper_seq(key@)), now),
            current(old(self)@, env@, upper_seq(key@)) is None ==> final(self)@ == old(self)@,
            active_map(final(self)@, env@) == active_map(old(self)@, env@).remove(upper_seq(key@)),
            forall|e: Seq<char>, k: Seq<char>| !(e == env@ && k == upper_seq(key@))
                ==> #[trigger] current(final(self)@, e, k) == current(old(self)@, e, k),
    {
        let e = env.to_owned();
        let k = ascii_upper(key);
        proof {
            let log = old(self)@;
            lemma_active_rows(log, Some(env@), Some(upper_seq(key@)));
            let rows = active_rows(log, Some(env@), Some(upper_seq(key@)));
            if current(log, env@, upper_seq(key@)) is None && rows.len() > 0 {
                assert(has_pair(rows, rows[0].0, rows[0].1));
            }
        }
        self.soft_delete(Some(&e), Some(&k), now);
        proof {
            let log = old(self)@;
            if current(log, env@, upper_seq(key@)) is None {
                assert(active_rows(log, Some(env@), Some(upper_seq(key@))).len() == 0);
                assert(self@ =~= log);
            }
            assert(active_map(self@, env@) =~= active_map(log, env@).remove(upper_seq(key@)));
        }
    }

    /// Removes every event of `env`, for good.
    pub fn delete_env(&mut self, env: &str)
        requires
            old(self).wf(),
        ensures
            final(self).wf(),
            final(self)@ == old(self)@.filter(not_in_env(env@)),
            !env_seen(final(self)@, env@),
    {
        let e = env.to_owned();
        let ghost log = self@;
        let mut kept: Vec<VariableEvent> = Vec::new();
        let mut i: usize = 0;
        while i < self.events.len()
            invariant
                0 <= i <= self@.len(),
                self@ == log,
                e@ == env@,
                log_view(kept@) == log.take(i as int).filter(not_in_env(env@)),
            decreases self@.len() - i,
        {
            let ev = &self.events[i];
            proof {
                reveal(Seq::filter);
                assert(log.take(i + 1).drop_last() =~= log.take(i as int));
                assert(log.take(i + 1).last() == ev@);
            }
            if !(ev.env == e) {
                let copy = VariableEvent { env: ev.env.clone(), key: ev.key.clone(), value: ev.value.clone(), created_at: ev.created_at };
                kept.push(copy);
                assert(log_view(kept@) =~= log.take(i as int).filter(not_in_env(env@)).push(ev@));
            } else {
                assert(log_view(kept@) =~= log.take(i + 1).filter(not_in_env(env@)));
            }
            i = i + 1;
        }
        assert(log.take(i as int) =~= log);
        self.events = kept;
        proof {
            let f = log.filter(not_in_env(env@));
            assert forall|a: int, b: int| 0 <= a < b < f.len() implies f[a].created_at <= f[b].created_at by {
                lemma_filter_order(log, not_in_env(env@), a, b);
            }
            assert forall|j: int| 0 <= j < f.len() implies f[j].env != env@ by {
                log.lemma_filter_pred(not_in_env(env@), j);
            }
        }
    }


    /// Copies the current variables of `source_env` into `target_env`, which
    /// must have no event yet.
    pub fn duplicate_env(&mut self, source_env: &str, target_env: &str, now: u64) -> (r: Result<(), StoreError>)
        requires
            old(self).wf(),
        ensures
            final(self).wf(),
            !has_active(old(self)@, source_env@) ==> (r matches Err(StoreError::NotFound(n)) && n@ == source_env@),
            has_active(old(self)@, source_env@) && env_seen(old(self)@, target_env@)
                ==> (r matches Err(StoreError::AlreadyExists(n)) && n@ == target_env@),
            has_active(old(self)@, source_env@) && !env_seen(old(self)@, target_env@) ==> r is Ok,
            r is Err ==> final(self)@ == old(self)@,
            r is Ok ==> final(self)@ == duplicate_spec(old(self)@, source_env@, target_env@, now),
            r is Ok ==> forall|k: Seq<char>| #[trigger] current(final(self)@, target_env@, k) == current(old(self)@, source_env@, k),
            forall|e: Seq<char>, k: Seq<char>| e != target_env@ ==> #[trigger] current(final(self)@, e, k) == current(old(self)@, e, k),
    {
        let rows = self.list_kv_in_env(source_env);
        let ghost log = self@;
        proof {
            lemma_active_rows(log, Some(source_env@), None);
            let ar = active_rows(log, Some(source_env@), None);
            if has_active(log, source_env@) {
                let k = choose|k: Seq<char>| #[trigger] current(log, source_env@, k) is Some;
                assert(has_pair(ar, source_env@, k));
            }
            if ar.len() > 0 {
                assert(has_pair(ar, ar[0].0, ar[0].1));
                assert(current(log, source_env@, ar[0].1) is Some);
            }
        }
        if rows.len() == 0 {
            return Err(StoreError::NotFound(source_env.to_owned()));
        }
        if self.env_exists(target_env) {
            return Err(StoreError::AlreadyExists(target_env.to_owned()));
        }
        let t = self.stamp_for(now);
        self.append_copies(&rows, target_env, t);
        proof {
            let ar = active_rows(log, Some(source_env@), None);
            lemma_env_rows_keys(log, source_env@);
            assert forall|e: Seq<char>, k: Seq<char>| #[trigger] current(self@, e, k)
                == if e == target_env@ { current(log, source_env@, k) } else { current(log, e, k) } by {
                lemma_current_after_copies(log, ar, target_env@, t, e, k);
                if e == target_env@ {
                    lemma_unseen_no_current(log, target_env@, k);
                    if has_key(ar, k) {
                        let j = choose|j: int| 0 <= j < ar.len() && ar[j].1 == k;
                        assert(current(self@, e, k) == Some(ar[j].2));
                    } else {
                        assert(!has_pair(ar, source_env@, k));
                    }
                }
            }
        }
        Ok(())
    }

    /// Copies the current variables of `source_env` into `target_env`; unless
    /// `overwrite`, keys already current in the target are left alone.
    pub fn sync(&mut self, source_env: &str, target_env: &str, overwrite: bool, now: u64)
        requires
            old(self).wf(),
        ensures
            final(self).wf(),
            final(self)@ == sync_spec(old(self)@, source_env@, target_env@, overwrite, now),
            forall|k: Seq<char>| #[trigger] current(final(self)@, target_env@, k) == if overwrite {
                if current(old(self)@, source_env@, k) is Some { current(old(self)@, source_env@, k) } else { current(old(self)@, target_env@, k) }
            } else {
                if current(old(self)@, target_env@, k) is Some { current(old(self)@, target_env@, k) } else { current(old(self)@, source_env@, k) }
            },
            forall|e: Seq<char>, k: Seq<char>| e != target_env@ ==> #[trigger] current(final(self)@, e, k) == current(old(self)@, e, k),
    {
        let ghost log = self@;
        let rows = self.list_kv_in_env(source_env);
        let ghost pred = |r: RowView| overwrite || current(log, target_env@, r.1) is None;
        let mut picked: Vec<EnvironmentRow> = Vec::new();
        let mut i: usize = 0;
        while i < rows.len()
            invariant
                0 <= i <= rows@.len(),
                self@ == log,
                pred == (|r: RowView| overwrite || current(log, target_env@, r.1) is None),
                rows_view(picked@) == rows_view(rows@.take(i as int)).filter(pred),
            decreases rows@.len() - i,
        {
            let r = &rows[i];
            proof {
                reveal(Seq::filter);
                assert(rows@.take(i + 1) =~= rows@.take(i as int).push(rows@[i as int]));
                assert(rows_view(rows@.take(i + 1)).drop_last() =~= rows_view(rows@.take(i as int)));
                assert(rows_view(rows@.take(i + 1)).last() == r@);
            }
            let cur = self.current_value(target_env, r.key.as_str());
            if overwrite || cur.is_none() {
                let copy = EnvironmentRow { env: r.env.clone(), key: r.key.clone(), value: r.value.clone() };
                picked.push(copy);
                assert(rows_view(picked@) =~= rows_view(rows@.take(i as int)).filter(pred).push(r@));
            } else {
                assert(rows_view(picked@) =~= rows_view(rows@.take(i + 1)).filter(pred));
            }
            i = i + 1;
        }
        assert(rows@.take(i as int) =~= rows@);
        let t = self.stamp_for(now);
        self.append_copies(&picked, target_env, t);
        proof {
            let ar = active_rows(log, Some(source_env@), None);
            let fr = ar.filter(pred);
            assert(fr == sync_rows(log, source_env@, target_env@, overwrite));
            lemma_active_rows(log, Some(source_env@), None);
            lemma_env_rows_keys(log, source_env@);
            assert forall|p: int, q: int| 0 <= p < q < fr.len() implies fr[p].1 != fr[q].1 by {
                lemma_filter_positions(ar, pred, p, q);
            }
            assert forall|e: Seq<char>, k: Seq<char>| #[trigger] current(self@, e, k) == if e == target_env@ {
                if overwrite {
                    if current(log, source_env@, k) is Some { current(log, source_env@, k) } else { current(log, target_env@, k) }
                } else {
                    if current(log, target_env@, k) is Some { current(log, target_env@, k) } else { current(log, source_env@, k) }
                }
            } else {
                current(log, e, k)
            } by {
                lemma_current_after_copies(log, fr, target_env@, t, e, k);
                if e == target_env@ {
                    if has_key(fr, k) {
                        let j = choose|j: int| 0 <= j < fr.len() && fr[j].1 == k;
                        assert(fr.contains(fr[j]));
                        ar.lemma_filter_contains_rev(pred, fr[j]);
                        ar.lemma_filter_pred(pred, j);
                        let m = choose|m: int| 0 <= m < ar.len() && ar[m] == fr[j];
                        assert(current(log, ar[m].0, ar[m].1) == Some(ar[m].2));
                    } else if current(log, source_env@, k) is Some && (overwrite || current(log, target_env@, k) is None) {
                        assert(has_pair(ar, source_env@, k));
                        let m = choose|m: int| 0 <= m < ar.len() && ar[m].0 == source_env@ && ar[m].1 == k;
                        ar.lemma_filter_contains(pred, m);
                        let j = choose|j: int| 0 <= j < fr.len() && fr[j] == ar[m];
                        assert(fr[j].1 == k);
                    }
                }
            }
        }
    }

    /// Removes the newest event of `key` (upper-cased) in `env`; nothing
    /// happens where there is none.
    pub fn revert(&mut self, env: &str, key: &str)
        requires
            old(self).wf(),
        ensures
            final(self).wf(),
            final(self)@ == revert_spec(old(self)@, env@, upper_seq(key@)),
            history_spec(old(self)@, env@, upper_seq(key@)).len() == 0 ==> final(self)@ == old(self)@,
            history_spec(old(self)@, env@, upper_seq(key@)).len() > 0 ==> history_spec(final(self)@, env@, upper_seq(key@))
                == history_spec(old(self)@, env@, upper_seq(key@)).drop_last(),
    {
        let ghost log = self@;
        let e = env.to_owned();
        let k = ascii_upper(key);
        proof {
            lemma_revert_step(log, env@, upper_seq(key@));
        }
        let mut i: usize = self.events.len();
        assert(log.take(i as int) =~= log);
        while i > 0
            invariant
                i <= log.len(),
                self@ == log,
                e@ == env@,
                k@ == upper_seq(key@),
                chronological(log),
                log == old(self)@,
                last_index(log, env@, k@) == last_index(log.take(i as int), env@, k@),
            decreases i,
        {
            let ev = &self.events[i - 1];
            proof {
                assert(log.take(i as int).drop_last() =~= log.take(i - 1));
                assert(log.take(i as int).last() == ev@);
            }
            if ev.env == e && ev.key == k {
                let ghost li = (i - 1) as int;
                assert(last_index(log, env@, k@) == li);
                self.events.remove(i - 1);
                proof {
                    lemma_revert_step(log, env@, upper_seq(key@));
                    assert(self@ =~= log.remove(li));
                    assert forall|a: int, b: int| 0 <= a < b < self@.len() implies self@[a].created_at <= self@[b].created_at by {
                        if a >= li {
                            assert(self@[a] == log[a + 1]);
                        } else {
                            assert(self@[a] == log[a]);
                        }
                        if b >= li {
                            assert(self@[b] == log[b + 1]);
                        } else {
                            assert(self@[b] == log[b]);
                        }
                    }
                }
                return;
            }
            i = i - 1;
        }
    }

    /// Every event of `key` (upper-cased) in `env`, oldest first.
    pub fn history(&self, env: &str, key: &str) -> (r: Vec<EnvironmentRowNullable>)
        ensures
            r@.map_values(|x: EnvironmentRowNullable| x@) == history_spec(self@, env@, upper_seq(key@)),
    {
        let e = env.to_owned();
        let k = ascii_upper(key);
        let ghost log = self@;
        let ghost pred = |x: EventView| is_for(x, env@, upper_seq(key@));
        let mut out: Vec<EnvironmentRowNullable> = Vec::new();
        let mut i: usize = 0;
        while i < self.events.len()
            invariant
                0 <= i <= log.len(),
                self@ == log,
                e@ == env@,
                k@ == upper_seq(key@),
                pred == (|x: EventView| is_for(x, env@, upper_seq(key@))),
                out@.map_values(|x: EnvironmentRowNullable| x@) == log.take(i as int).filter(pred),
            decreases log.len() - i,
        {
            let ev = &self.events[i];
            proof {
                reveal(Seq::filter);
                assert(log.take(i + 1).drop_last() =~= log.take(i as int));
                assert(log.take(i + 1).last() == ev@);
            }
            if ev.env == e && ev.key == k {
                let row = EnvironmentRowNullable {
                    env: ev.env.clone(),
                    key: ev.key.clone(),
                    value: ev.value.clone(),
                    created_at: ev.created_at,
                };
                out.push(row);
                assert(out@.map_values(|x: EnvironmentRowNullable| x@) =~= log.take(i as int).filter(pred).push(ev@));
            } else {
                assert(out@.map_values(|x: EnvironmentRowNullable| x@) =~= log.take(i + 1).filter(pred));
            }
            i = i + 1;
        }
        assert(log.take(i as int) =~= log);
        out
    }

    /// Every environment that ever had an event, in order of first
    /// appearance; one whose variables were all deleted is listed too.
    pub fn list_environments(&self) -> (r: Vec<Environment>)
        ensures
            r@.map_values(|x: Environment| x.env@) == envs_upto(self@, self@.len() as int),
    {
        let ghost log = self@;
        let mut out: Vec<Environment> = Vec::new();
        let mut i: usize = 0;
        while i < self.events.len()
            invariant
                0 <= i <= log.len(),
                self@ == log,
                out@.map_values(|x: Environment| x.env@) == envs_upto(log, i as int),
            decreases log.len() - i,
        {
            let ev = &self.events[i];
            assert(ev@ == log[i as int]);
            let ghost names = out@.map_values(|x: Environment| x.env@);
            let mut seen = false;
            let mut j: usize = 0;
            while j < out.len()
                invariant
                    0 <= j <= out@.len(),
                    names == out@.map_values(|x: Environment| x.env@),
                    seen == exists|m: int| 0 <= m < j && names[m] == ev.env@,
                decreases out@.len() - j,
            {
                assert(names[j as int] == out@[j as int].env@);
                if out[j].env == ev.env {
                    seen = true;
                }
                j = j + 1;
            }
            proof {
                if names.contains(ev.env@) {
                    let m = choose|m: int| 0 <= m < names.len() && names[m] == ev.env@;
                    assert(seen);
                }
            }
            if !seen {
                out.push(Environment { env: ev.env.clone() });
                assert(out@.map_values(|x: Environment| x.env@) =~= names.push(ev.env@));
            }
            i = i + 1;
        }
        out
    }


    /// Adds `d` to a key-sorted sequence at the place its key belongs.
    fn insert_sorted(out: &mut Vec<EnvironmentDiff>, d: EnvironmentDiff)
        requires
            keys_sorted(diffs_view(old(out)@)),
            forall|j: int| 0 <= j < old(out)@.len() ==> diff_key(#[trigger] old(out)@[j]@) != diff_key(d@),
        ensures
            keys_sorted(diffs_view(final(out)@)),
            forall|x: DiffView| diffs_view(final(out)@).contains(x) <==> (diffs_view(old(out)@).contains(x) || x == d@),
    {
        let ghost ov = diffs_view(out@);
        let mut p: usize = 0;
        while p < out.len() && str_lt(diff_key_of(&out[p]).as_str(), diff_key_of(&d).as_str())
            invariant
                0 <= p <= out@.len(),
                ov == diffs_view(out@),
                out@ == old(out)@,
                forall|i: int| 0 <= i < p ==> lex_lt(diff_key(#[trigger] ov[i]), diff_key(d@)),
            decreases out@.len() - p,
        {
            p = p + 1;
        }
        out.insert(p, d);
        proof {
            let nv = diffs_view(out@);
            assert(nv =~= ov.insert(p as int, d@));
            let kd = diff_key(d@);
            if p < ov.len() {
                assert(diff_key(ov[p as int]) == diff_key(old(out)@[p as int]@));
                lemma_lex_total(diff_key(ov[p as int]), kd);
            }
            assert forall|a: int, b: int| 0 <= a < b < nv.len() implies lex_lt(diff_key(nv[a]), diff_key(nv[b])) by {
                if b < p {
                } else if b == p {
                } else if a < p {
                    assert(nv[b] == ov[b - 1]);
                    if p < ov.len() && b - 1 > p {
                        lemma_lex_transitive(kd, diff_key(ov[p as int]), diff_key(ov[b - 1]));
                    }
                    lemma_lex_transitive(diff_key(ov[a]), kd, diff_key(ov[b - 1]));
                } else if a == p {
                    assert(nv[b] == ov[b - 1]);
                    if b - 1 > p {
                        lemma_lex_transitive(kd, diff_key(ov[p as int]), diff_key(ov[b - 1]));
                    }
                } else {
                    assert(nv[a] == ov[a - 1]);
                    assert(nv[b] == ov[b - 1]);
                }
            }
            assert forall|x: DiffView| nv.contains(x) <==> (ov.contains(x) || x == d@) by {
                if nv.contains(x) {
                    let m = choose|m: int| 0 <= m < nv.len() && nv[m] == x;
                    if m < p {
                        assert(ov[m] == x);
                    } else if m > p {
                        assert(ov[m - 1] == x);
                    }
                }
                if ov.contains(x) {
                    let m = choose|m: int| 0 <= m < ov.len() && ov[m] == x;
                    if m < p {
                        assert(nv[m] == x);
                    } else {
                        assert(nv[m + 1] == x);
                    }
                }
                if x == d@ {
                    assert(nv[p as int] == x);
                }
            }
        }
    }

    /// The differences between the current variables of `env1` and `env2`,
    /// ordered by key; both environments must have some event, and the first
    /// one without names the error.
    pub fn diff(&self, env1: &str, env2: &str) -> (r: Result<Vec<EnvironmentDiff>, StoreError>)
        ensures
            !(env_seen(self@, env1@) && env_seen(self@, env2@)) <==> r is Err,
            !env_seen(self@, env1@) ==> (r matches Err(StoreError::NotFound(n)) && n@ == env1@),
            env_seen(self@, env1@) && !env_seen(self@, env2@) ==> (r matches Err(StoreError::NotFound(n)) && n@ == env2@),
            r matches Ok(v) ==> keys_sorted(diffs_view(v@)),
            r matches Ok(v) ==> forall|x: DiffView| diffs_view(v@).contains(x)
                <==> diff_for(self@, env1@, env2@, diff_key(x)) == Some(x),
    {
        if !self.env_exists(env1) {
            return Err(StoreError::NotFound(env1.to_owned()));
        }
        if !self.env_exists(env2) {
            return Err(StoreError::NotFound(env2.to_owned()));
        }
        let ghost log = self@;
        let rows1 = self.list_kv_in_env(env1);
        let rows2 = self.list_kv_in_env(env2);
        proof {
            lemma_active_rows(log, Some(env1@), None);
            lemma_active_rows(log, Some(env2@), None);
            lemma_env_rows_keys(log, env1@);
            lemma_env_rows_keys(log, env2@);
        }
        let ghost r1 = rows_view(rows1@);
        let ghost r2 = rows_view(rows2@);
        let mut out: Vec<EnvironmentDiff> = Vec::new();
        let mut i: usize = 0;
        while i < rows1.len()
            invariant
                0 <= i <= rows1@.len(),
                self@ == log,
                r1 == rows_view(rows1@),
                r1 == active_rows(log, Some(env1@), None),
                forall|p: int, q: int| 0 <= p < q < r1.len() ==> r1[p].1 != r1[q].1,
                forall|j: int| 0 <= j < r1.len() ==> current(log, env1@, (#[trigger] r1[j]).1) == Some(r1[j].2) && r1[j].0 == env1@,
                keys_sorted(diffs_view(out@)),
                forall|x: DiffView| #[trigger] diffs_view(out@).contains(x)
                    <==> exists|j: int| 0 <= j < i && diff_for(log, env1@, env2@, r1[j].1) == Some(x),
                forall|x: DiffView| diffs_view(out@).contains(x) ==> exists|j: int| 0 <= j < i && diff_key(x) == #[trigger] r1[j].1,
            decreases rows1@.len() - i,
        {
            let row = &rows1[i];
            assert(row@ == r1[i as int]);
            let other = self.current_value(env2, row.key.as_str());
            let ghost before = diffs_view(out@);
            let entry: Option<EnvironmentDiff> = match other {
                None => Some(EnvironmentDiff::InFirst(row.key.clone(), row.value.clone())),
                Some(v2) => if v2 == row.value {
                    None
                } else {
                    Some(EnvironmentDiff::Different(row.key.clone(), row.value.clone(), v2))
                },
            };
            proof {
                assert(current(log, env1@, r1[i as int].1) == Some(r1[i as int].2));
                if entry is Some {
                    assert(diff_for(log, env1@, env2@, r1[i as int].1) == Some(entry->Some_0@));
                } else {
                    assert(diff_for(log, env1@, env2@, r1[i as int].1) is None);
                }
            }
            match entry {
                Some(d) => {
                    proof {
                        assert forall|j: int| 0 <= j < out@.len() implies diff_key(#[trigger] out@[j]@) != diff_key(d@) by {
                            assert(diffs_view(out@)[j] == out@[j]@);
                            assert(before.contains(out@[j]@));
                        }
                    }
                    Self::insert_sorted(&mut out, d);
                },
                None => {},
            }
            proof {
                let now = diffs_view(out@);
                assert forall|x: DiffView| #[trigger] now.contains(x)
                    <==> exists|j: int| 0 <= j < i + 1 && diff_for(log, env1@, env2@, r1[j].1) == Some(x) by {
                    if exists|j: int| 0 <= j < i + 1 && diff_for(log, env1@, env2@, r1[j].1) == Some(x) {
                        let j = choose|j: int| 0 <= j < i + 1 && diff_for(log, env1@, env2@, r1[j].1) == Some(x);
                        if j < i {
                            assert(before.contains(x));
                        }
                    }
                    if before.contains(x) {
                        let j = choose|j: int| 0 <= j < i && diff_for(log, env1@, env2@, r1[j].1) == Some(x);
                        assert(0 <= j < i + 1);
                    }
                }
                assert forall|x: DiffView| now.contains(x) implies exists|j: int| 0 <= j < i + 1 && diff_key(x) == #[trigger] r1[j].1 by {
                    if before.contains(x) {
                        let j = choose|j: int| 0 <= j < i && diff_key(x) == #[trigger] r1[j].1;
                        assert(0 <= j < i + 1);
                    } else {
                        assert(diff_key(x) == r1[i as int].1);
                    }
                }
            }
            i = i + 1;
        }
        let mut i: usize = 0;
        while i < rows2.len()
            invariant
                0 <= i <= rows2@.len(),
                self@ == log,
                r1 == active_rows(log, Some(env1@), None),
                r2 == rows_view(rows2@),
                r2 == active_rows(log, Some(env2@), None),
                forall|p: int, q: int| 0 <= p < q < r2.len() ==> r2[p].1 != r2[q].1,
                forall|j: int| 0 <= j < r1.len() ==> current(log, env1@, (#[trigger] r1[j]).1) == Some(r1[j].2) && r1[j].0 == env1@,
                forall|j: int| 0 <= j < r2.len() ==> current(log, env2@, (#[trigger] r2[j]).1) == Some(r2[j].2) && r2[j].0 == env2@,
                keys_sorted(diffs_view(out@)),
                forall|x: DiffView| #[trigger] diffs_view(out@).contains(x)
                    <==> ((exists|j: int| 0 <= j < r1.len() && diff_for(log, env1@, env2@, r1[j].1) == Some(x))
                        || (exists|j: int| 0 <= j < i && current(log, env1@, r2[j].1) is None && diff_for(log, env1@, env2@, r2[j].1) == Some(x))),
                forall|x: DiffView| diffs_view(out@).contains(x) ==> (current(log, env1@, diff_key(x)) is Some
                    || exists|j: int| 0 <= j < i && diff_key(x) == #[trigger] r2[j].1),
            decreases rows2@.len() - i,
        {
            let row = &rows2[i];
            assert(row@ == r2[i as int]);
            let other = self.current_value(env1, row.key.as_str());
            let ghost before = diffs_view(out@);
            if other.is_none() {
                let d = EnvironmentDiff::InSecond(row.key.clone(), row.value.clone());
                proof {
                    assert(current(log, env2@, r2[i as int].1) == Some(r2[i as int].2));
                    assert(diff_for(log, env1@, env2@, r2[i as int].1) == Some(d@));
                    assert forall|j: int| 0 <= j < out@.len() implies diff_key(#[trigger] out@[j]@) != diff_key(d@) by {
                        assert(diffs_view(out@)[j] == out@[j]@);
                        assert(before.contains(out@[j]@));
                    }
                }
                Self::insert_sorted(&mut out, d);
            }
            proof {
                let now = diffs_view(out@);
                assert forall|x: DiffView| #[trigger] now.contains(x)
                    <==> ((exists|j: int| 0 <= j < r1.len() && diff_for(log, env1@, env2@, r1[j].1) == Some(x))
                        || (exists|j: int| 0 <= j < i + 1 && current(log, env1@, r2[j].1) is None && diff_for(log, env1@, env2@, r2[j].1) == Some(x))) by {
                    if exists|j: int| 0 <= j < i + 1 && current(log, env1@, r2[j].1) is None && diff_for(log, env1@, env2@, r2[j].1) == Some(x) {
                        let j = choose|j: int| 0 <= j < i + 1 && current(log, env1@, r2[j].1) is None && diff_for(log, env1@, env2@, r2[j].1) == Some(x);
                        if j < i {
                            assert(before.contains(x));
                        }
                    }
                    if before.contains(x) {
                        if !(exists|j: int| 0 <= j < r1.len() && diff_for(log, env1@, env2@, r1[j].1) == Some(x)) {
                            let j = choose|j: int| 0 <= j < i && current(log, env1@, r2[j].1) is None && diff_for(log, env1@, env2@, r2[j].1) == Some(x);
                            assert(0 <= j < i + 1);
                        }
                    }
                }
                assert forall|x: DiffView| now.contains(x) implies (current(log, env1@, diff_key(x)) is Some
                    || exists|j: int| 0 <= j < i + 1 && diff_key(x) == #[trigger] r2[j].1) by {
                    if before.contains(x) {
                        if current(log, env1@, diff_key(x)) is None {
                            let j = choose|j: int| 0 <= j < i && diff_key(x) == #[trigger] r2[j].1;
                            assert(0 <= j < i + 1);
                        }
                    } else {
                        assert(diff_key(x) == r2[i as int].1);
                    }
                }
            }
            i = i + 1;
        }
        proof {
            let v = diffs_view(out@);
            assert forall|x: DiffView| v.contains(x) <==> diff_for(log, env1@, env2@, diff_key(x)) == Some(x) by {
                let k = diff_key(x);
                if v.contains(x) {
                    if exists|j: int| 0 <= j < r1.len() && diff_for(log, env1@, env2@, r1[j].1) == Some(x) {
                        let j = choose|j: int| 0 <= j < r1.len() && diff_for(log, env1@, env2@, r1[j].1) == Some(x);
                        lemma_diff_for_key(log, env1@, env2@, r1[j].1);
                    } else {
                        let j = choose|j: int| 0 <= j < r2.len() && current(log, env1@, r2[j].1) is None && diff_for(log, env1@, env2@, r2[j].1) == Some(x);
                        lemma_diff_for_key(log, env1@, env2@, r2[j].1);
                    }
                }
                if diff_for(log, env1@, env2@, k) == Some(x) {
                    if current(log, env1@, k) is Some {
                        assert(has_pair(r1, env1@, k));
                        let j = choose|j: int| 0 <= j < r1.len() && r1[j].0 == env1@ && r1[j].1 == k;
                        assert(diff_for(log, env1@, env2@, r1[j].1) == Some(x));
                    } else {
                        assert(current(log, env2@, k) is Some);
                        assert(has_pair(r2, env2@, k));
                        let j = choose|j: int| 0 <= j < r2.len() && r2[j].0 == env2@ && r2[j].1 == k;
                        assert(current(log, env1@, r2[j].1) is None && diff_for(log, env1@, env2@, r2[j].1) == Some(x));
                    }
                }
            }
        }
        Ok(out)
    }


    /// The current variables of `env` by the time they were set, with
    /// values cut to at most `Max` characters.
    pub fn list_kv_in_env_alt(&self, env: &str, truncate: Truncate) -> (r: Vec<EnvironmentRow>)
        ensures
            rows_view(r@) == truncated(active_rows(self@, Some(env@), None), truncate),
    {
        let rows = self.list_kv_in_env(env);
        truncate_rows(&rows, truncate)
    }

    /// The current variables of `env`, values cut as `truncate` says, in the
    /// order `sort` names.
    pub fn list_kv_sorted(&self, env: &str, truncate: Truncate, sort: Sort) -> (r: Vec<EnvironmentRow>)
        ensures
            listed_in_order(rows_view(r@), truncated(active_rows(self@, Some(env@), None), truncate), sort),
    {
        let rows = self.list_kv_in_env_alt(env, truncate);
        sort_rows(&rows, sort)
    }


    /// Applies an edit to `env`: the deletes in order, then the sets in order.
    pub fn apply_edit(&mut self, env: &str, data: &EditorData, now: u64)
        requires
            old(self).wf(),
        ensures
            final(self).wf(),
            final(self)@ == apply_edit_spec(old(self)@, env@, data.view(), now),
    {
        let ghost log = self@;
        let ghost keys = data.view().0;
        let ghost pairs = data.view().1;
        let mut i: usize = 0;
        while i < data.delete.len()
            invariant
                0 <= i <= data.delete@.len(),
                self.wf(),
                keys == data.view().0,
                self@ == deletes_spec(log, env@, keys.take(i as int), now),
            decreases data.delete@.len() - i,
        {
            self.soft_delete_key_in_env(env, data.delete[i].as_str(), now);
            proof {
                assert(keys.take(i + 1).drop_last() =~= keys.take(i as int));
                assert(keys.take(i + 1).last() == data.delete@[i as int]@);
            }
            i = i + 1;
        }
        assert(keys.take(i as int) =~= keys);
        let ghost mid = self@;
        let mut j: usize = 0;
        while j < data.upsert.len()
            invariant
                0 <= j <= data.upsert@.len(),
                self.wf(),
                pairs == data.view().1,
                self@ == upserts_spec(mid, env@, pairs.take(j as int), now),
            decreases data.upsert@.len() - j,
        {
            let (k, v) = &data.upsert[j];
            self.insert(env, k.as_str(), v.as_str(), now);
            proof {
                assert(pairs.take(j + 1).drop_last() =~= pairs.take(j as int));
                assert(pairs.take(j + 1).last() == (k@, v@));
            }
            j = j + 1;
        }
        assert(pairs.take(j as int) =~= pairs);
    }

    /// The environments in effect in a snapshot of the process environment:
    /// each is listed once, in the order its first variable was set.
    pub fn check_active_envs(&self, snapshot: &Vec<(String, String)>) -> (r: Vec<String>)
        ensures
            forall|p: int, q: int| 0 <= p < q < r@.len() ==> r@[p]@ != r@[q]@,
            forall|e: Seq<char>| r@.map_values(|s: String| s@).contains(e) <==> env_in_effect(self@, pairs_view(snapshot@), e),
    {
        let ghost log = self@;
        let ghost sv = pairs_view(snapshot@);
        let rows = self.get_active_kv_in_env();
        let ghost rv = rows_view(rows@);
        proof {
            lemma_active_rows(log, None, None);
        }
        let mut out: Vec<String> = Vec::new();
        let mut i: usize = 0;
        while i < rows.len()
            invariant
                0 <= i <= rows@.len(),
                rv == rows_view(rows@),
                rv == active_rows(log, None, None),
                sv == pairs_view(snapshot@),
                forall|j: int| 0 <= j < rv.len() ==> current(log, (#[trigger] rv[j]).0, rv[j].1) == Some(rv[j].2),
                forall|e: Seq<char>, k: Seq<char>| #[trigger] has_pair(rv, e, k) <==> current(log, e, k) is Some,
                forall|p: int, q: int| 0 <= p < q < out@.len() ==> out@[p]@ != out@[q]@,
                forall|e: Seq<char>| out@.map_values(|s: String| s@).contains(e)
                    <==> (env_in_effect(log, sv, e) && exists|j: int| 0 <= j < i && (#[trigger] rv[j]).0 == e),
            decreases rows@.len() - i,
        {
            let name = &rows[i].env;
            assert(name@ == rv[i as int].0);
            let ghost ov = out@.map_values(|s: String| s@);
            let mut dup = false;
            let mut m: usize = 0;
            while m < out.len()
                invariant
                    0 <= m <= out@.len(),
                    ov == out@.map_values(|s: String| s@),
                    dup == exists|t: int| 0 <= t < m && ov[t] == name@,
                    forall|e: Seq<char>| ov.contains(e)
                        <==> (env_in_effect(log, sv, e) && exists|j: int| 0 <= j < i && (#[trigger] rv[j]).0 == e),
                    forall|p: int, q: int| 0 <= p < q < out@.len() ==> out@[p]@ != out@[q]@,
                decreases out@.len() - m,
            {
                assert(ov[m as int] == out@[m as int]@);
                if out[m] == *name {
                    dup = true;
                }
                m = m + 1;
            }
            let mut all = true;
            let mut j: usize = 0;
            while j < rows.len()
                invariant
                    0 <= j <= rows@.len(),
                    rv == rows_view(rows@),
                    sv == pairs_view(snapshot@),
                    i < rv.len(),
                    name@ == rv[i as int].0,
                    ov == out@.map_values(|s: String| s@),
                    forall|e: Seq<char>| ov.contains(e)
                        <==> (env_in_effect(log, sv, e) && exists|j: int| 0 <= j < i && (#[trigger] rv[j]).0 == e),
                    forall|p: int, q: int| 0 <= p < q < out@.len() ==> out@[p]@ != out@[q]@,
                    dup == exists|t: int| 0 <= t < out@.len() && ov[t] == name@,
                    all == forall|t: int| 0 <= t < j && (#[trigger] rv[t]).0 == name@ ==> lookup(sv, rv[t].1) == Some(rv[t].2),
                decreases rows@.len() - j,
            {
                let row = &rows[j];
                assert(row@ == rv[j as int]);
                if row.env == *name {
                    match lookup_exec(snapshot, &row.key) {
                        Some(v) => {
                            if !(*v == row.value) {
                                all = false;
                            }
                        },
                        None => {
                            all = false;
                        },
                    }
                }
                j = j + 1;
            }
            proof {
                let e = name@;
                assert(has_pair(rv, e, rv[i as int].1));
                assert(current(log, e, rv[i as int].1) is Some);
                assert(has_active(log, e));
                if all {
                    assert forall|k: Seq<char>| #[trigger] current(log, e, k) matches Some(v) ==> lookup(sv, k) == Some(v) by {
                        if current(log, e, k) is Some {
                            assert(has_pair(rv, e, k));
                            let t = choose|t: int| 0 <= t < rv.len() && rv[t].0 == e && rv[t].1 == k;
                            assert(current(log, rv[t].0, rv[t].1) == Some(rv[t].2));
                        }
                    }
                } else {
                    let t = choose|t: int| 0 <= t < rows@.len() && (#[trigger] rv[t]).0 == e && lookup(sv, rv[t].1) != Some(rv[t].2);
                    assert(current(log, rv[t].0, rv[t].1) == Some(rv[t].2));
                    assert(!env_in_effect(log, sv, e));
                }
            }
            if all && !dup {
                out.push(name.clone());
                proof {
                    assert(out@.map_values(|s: String| s@) =~= ov.push(name@));
                    assert forall|p: int, q: int| 0 <= p < q < out@.len() implies out@[p]@ != out@[q]@ by {
                        if q == out@.len() - 1 {
                            assert(ov[p] == out@[p]@);
                        }
                    }
                }
            }
            proof {
                let nv = out@.map_values(|s: String| s@);
                assert forall|e: Seq<char>| nv.contains(e)
                    <==> (env_in_effect(log, sv, e) && exists|j: int| 0 <= j < i + 1 && (#[trigger] rv[j]).0 == e) by {
                    if nv.contains(e) && !ov.contains(e) {
                        assert(nv[nv.len() - 1] == e);
                        assert(rv[i as int].0 == e);
                    }
                    if nv.contains(e) && ov.contains(e) {
                        let j = choose|j: int| 0 <= j < i && (#[trigger] rv[j]).0 == e;
                        assert(0 <= j < i + 1);
                    }
                    if ov.contains(e) {
                        let t = choose|t: int| 0 <= t < ov.len() && ov[t] == e;
                        assert(nv[t] == e);
                    }
                    if env_in_effect(log, sv, e) && exists|j: int| 0 <= j < i + 1 && (#[trigger] rv[j]).0 == e {
                        let j = choose|j: int| 0 <= j < i + 1 && (#[trigger] rv[j]).0 == e;
                        if j == i {
                            if dup {
                                let t = choose|t: int| 0 <= t < ov.len() && ov[t] == name@;
                                assert(ov.contains(e));
                            } else {
                                assert(nv[nv.len() - 1] == e);
                            }
                        } else {
                            assert(ov.contains(e));
                        }
                    }
                }
            }
            i = i + 1;
        }
        proof {
            assert forall|e: Seq<char>| env_in_effect(log, sv, e) implies exists|j: int| 0 <= j < rv.len() && (#[trigger] rv[j]).0 == e by {
                let k = choose|k: Seq<char>| #[trigger] current(log, e, k) is Some;
                assert(has_pair(rv, e, k));
            }
        }
        out
    }

}

pub open spec fn opt_view_ref(o: Option<&String>) -> Option<Seq<char>> {
    match o {
        Some(s) => Some(s@),
        None => None,
    }
}

} // verus!
