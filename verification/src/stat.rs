//! Aggregation of a session log over a closed time range: per-record
//! overlap with the range, grouping of the overlaps by window class or
//! window name with an optional pattern filter, and the sorted,
//! human-readable usage view.
use vstd::prelude::*;

use crate::store;
use crate::text;
use crate::{Log, LogV, TwtError};

verus! {

use vstd::math::{min, max};
use crate::store::parse_store_spec;
use crate::pattern::{Pattern, regex_valid, regex_match};
use crate::text::dec_seq;

broadcast use {
    vstd::string::group_string_axioms,
    vstd::seq_lib::group_to_multiset_ensures,
    vstd::multiset::group_multiset_axioms,
};

/// The instant a record ends at for range queries: its `end` when
/// closed, the query instant (but never before its own start) while
/// still open.
pub open spec fn effective_end(l: LogV, now: int) -> int {
    match l.end {
        Some(e) => e,
        None => max(now, l.start),
    }
}

/// Milliseconds a record `[start, end]` shares with the closed range
/// `[lo, hi]`; zero when they are disjoint.
pub open spec fn overlap_spec(start: int, end: int, lo: int, hi: int) -> int {
    if end < lo || start > hi {
        0
    } else {
        min(end, hi) - max(start, lo)
    }
}

/// Overlap of one record with the closed range `[lower_limit,
/// upper_limit]`. The overlap is never negative, never exceeds the
/// width of the range, vanishes exactly on disjoint ranges, and equals
/// the record's own length under full containment.
pub fn get_record_duration_for_scope(lower_limit: i64, upper_limit: i64, log: &Log, now: i64) -> (r:
    i64)
    requires
        log@.wf(),
        lower_limit <= upper_limit,
    ensures
        r == overlap_spec(
            log@.start,
            effective_end(log@, now as int),
            lower_limit as int,
            upper_limit as int,
        ),
        0 <= r <= upper_limit - lower_limit,
        effective_end(log@, now as int) < lower_limit || log@.start > upper_limit ==> r == 0,
        lower_limit <= log@.start && effective_end(log@, now as int) <= upper_limit ==> r
            == effective_end(log@, now as int) - log@.start,
{
    let end: i64 = match log.end {
        Some(e) => e,
        None => if now > log.start {
            now
        } else {
            log.start
        },
    };
    if end < lower_limit || log.start > upper_limit {
        return 0;
    }
    let hi: i64 = if end < upper_limit {
        end
    } else {
        upper_limit
    };
    let lo: i64 = if log.start > lower_limit {
        log.start
    } else {
        lower_limit
    };
    hi - lo
}

/// Ghost image of a record paired with its queried duration.
pub struct LogDurationV {
    pub log: LogV,
    pub duration: int,
}

/// A record paired with the duration a query ascribes to it.
#[derive(Debug)]
pub struct LogDuration {
    pub log: Log,
    pub duration: i64,
}

impl View for LogDuration {
    type V = LogDurationV;

    open spec fn view(&self) -> LogDurationV {
        LogDurationV { log: self.log@, duration: self.duration as int }
    }
}

impl LogDuration {
    /// Pairs a record with its own length: from start to effective end.
    pub fn from_record(log: Log, now: i64) -> (r: LogDuration)
        requires
            log@.wf(),
        ensures
            r@.log == log@,
            r@.duration == effective_end(log@, now as int) - log@.start,
            r@.duration >= 0,
    {
        let end: i64 = match log.end {
            Some(e) => e,
            None => if now > log.start {
                now
            } else {
                log.start
            },
        };
        let duration = end - log.start;
        LogDuration { log, duration }
    }

    /// Pairs a record with an externally computed duration.
    pub fn from_record_on_duration(log: Log, duration: i64) -> (r: LogDuration)
        requires
            duration >= 0,
        ensures
            r@.log == log@,
            r@.duration == duration as int,
    {
        LogDuration { log, duration }
    }
}

/// The grouping key: the window name column or the window class column.
#[derive(Debug, PartialEq, Eq, Structural, Clone, Copy)]
pub enum LogColumn {
    Name,
    Class,
}

/// The column a command-line selector denotes: `n` is the window name,
/// `c` the window class, anything else is refused.
pub open spec fn column_of(s: Seq<char>) -> Result<LogColumn, TwtError> {
    if s == "n"@ {
        Ok(LogColumn::Name)
    } else if s == "c"@ {
        Ok(LogColumn::Class)
    } else {
        Err(TwtError::BadColumn)
    }
}

impl LogColumn {
    /// Maps the command-line column selector to a column.
    pub fn from_arg(arg: &str) -> (r: Result<LogColumn, TwtError>)
        ensures
            r == column_of(arg@),
    {
        if text::str_eq(arg, "n") {
            Ok(LogColumn::Name)
        } else if text::str_eq(arg, "c") {
            Ok(LogColumn::Class)
        } else {
            Err(TwtError::BadColumn)
        }
    }
}

/// The records of a log, each with the duration the query ascribes to
/// it.
#[derive(Debug)]
pub struct LogDurationList {
    log_durations: Vec<LogDuration>,
}

impl View for LogDurationList {
    type V = Seq<LogDurationV>;

    closed spec fn view(&self) -> Seq<LogDurationV> {
        self.log_durations@.map_values(|d: LogDuration| d@)
    }
}

/// The durations ascribed to the records of a store over the range
/// `[begin, end]`, in store order.
pub open spec fn scope_list(recs: Seq<LogV>, begin: int, end: int, now: int) -> Seq<LogDurationV> {
    recs.map_values(
        |l: LogV|
            LogDurationV {
                log: l,
                duration: overlap_spec(l.start, effective_end(l, now), begin, end),
            },
    )
}

/// The records of a store, each with its own length as its duration, in
/// store order.
pub open spec fn length_list(recs: Seq<LogV>, now: int) -> Seq<LogDurationV> {
    recs.map_values(
        |l: LogV| LogDurationV { log: l, duration: effective_end(l, now) - l.start },
    )
}

impl LogDurationList {
    /// Every ascribed duration is non-negative and every record is a
    /// well-formed store record.
    pub open spec fn wf(&self) -> bool {
        forall|k: int|
            0 <= k < self@.len() ==> (#[trigger] self@[k]).duration >= 0 && self@[k].log.wf()
    }

    pub fn from_vec(log_durations: Vec<LogDuration>) -> (r: Self)
        ensures
            r@ == log_durations@.map_values(|d: LogDuration| d@),
    {
        Self { log_durations }
    }

    /// How many records the list holds.
    pub fn len(&self) -> (r: usize)
        ensures
            r == self@.len(),
    {
        self.log_durations.len()
    }

    /// The record-duration pair at `i`.
    pub fn get(&self, i: usize) -> (r: &LogDuration)
        requires
            i < self@.len(),
        ensures
            r@ == self@[i as int],
    {
        &self.log_durations[i]
    }

    /// Ascribes to every record of the store text its overlap with
    /// `[begin, end]`, treating open records as reaching `now`.
    pub fn create_for_scope(contents: &str, begin: i64, end: i64, now: i64) -> (r: Result<
        Self,
        TwtError,
    >)
        requires
            begin <= end,
        ensures
            match r {
                Ok(list) => parse_store_spec(contents@) is Ok && list@ == scope_list(
                    parse_store_spec(contents@)->Ok_0,
                    begin as int,
                    end as int,
                    now as int,
                ) && list.wf(),
                Err(e) => parse_store_spec(contents@) is Err && e == (TwtError::Corrupt {
                    line: (parse_store_spec(contents@)->Err_0 + 1) as usize,
                }),
            },
    {
        let recs = match store::parse_store(contents) {
            Ok(v) => v,
            Err(e) => {
                return Err(e);
            },
        };
        let ghost rv = parse_store_spec(contents@)->Ok_0;
        let mut log_durations: Vec<LogDuration> = Vec::new();
        let mut i: usize = 0;
        while i < recs.len()
            invariant
                0 <= i <= recs.len(),
                begin <= end,
                rv == store::views_of_logs(recs@),
                forall|k: int| 0 <= k < recs@.len() ==> (#[trigger] recs@[k]@).wf(),
                log_durations@.len() == i,
                forall|k: int|
                    0 <= k < i ==> (#[trigger] log_durations@[k]@) == (LogDurationV {
                        log: rv[k],
                        duration: overlap_spec(
                            rv[k].start,
                            effective_end(rv[k], now as int),
                            begin as int,
                            end as int,
                        ),
                    }),
                forall|k: int|
                    0 <= k < i ==> (#[trigger] log_durations@[k]@).duration >= 0
                        && log_durations@[k]@.log.wf(),
            decreases recs.len() - i,
        {
            let d = get_record_duration_for_scope(begin, end, &recs[i], now);
            let log = recs[i].duplicate();
            log_durations.push(LogDuration { log, duration: d });
            i = i + 1;
        }
        let list = Self { log_durations };
        proof {
            assert(list@ =~= scope_list(rv, begin as int, end as int, now as int));
        }
        Ok(list)
    }

    /// Ascribes to each of the last `n` records of the store text its
    /// own length, treating open records as reaching `now`.
    pub fn create_for_last_n(contents: &str, n: usize, now: i64) -> (r: Result<Self, TwtError>)
        ensures
            match r {
                Ok(list) => parse_store_spec(contents@) is Ok && ({
                    let recs = parse_store_spec(contents@)->Ok_0;
                    let from = if recs.len() > n {
                        recs.len() - n
                    } else {
                        0int
                    };
                    list@ == length_list(recs.skip(from), now as int)
                }) && list.wf(),
                Err(e) => parse_store_spec(contents@) is Err && e == (TwtError::Corrupt {
                    line: (parse_store_spec(contents@)->Err_0 + 1) as usize,
                }),
            },
    {
        let recs = match store::parse_store(contents) {
            Ok(v) => v,
            Err(e) => {
                return Err(e);
            },
        };
        let ghost rv = parse_store_spec(contents@)->Ok_0;
        let from: usize = if recs.len() > n {
            recs.len() - n
        } else {
            0
        };
        let mut log_durations: Vec<LogDuration> = Vec::new();
        let mut i: usize = from;
        while i < recs.len()
            invariant
                from <= i <= recs.len(),
                rv == store::views_of_logs(recs@),
                forall|k: int| 0 <= k < recs@.len() ==> (#[trigger] recs@[k]@).wf(),
                log_durations@.len() == i - from,
                forall|k: int|
                    0 <= k < i - from ==> (#[trigger] log_durations@[k]@) == (LogDurationV {
                        log: rv[from + k],
                        duration: effective_end(rv[from + k], now as int) - rv[from + k].start,
                    }),
                forall|k: int|
                    0 <= k < i - from ==> (#[trigger] log_durations@[k]@).duration >= 0
                        && log_durations@[k]@.log.wf(),
            decreases recs.len() - i,
        {
            let ld = LogDuration::from_record(recs[i].duplicate(), now);
            log_durations.push(ld);
            i = i + 1;
        }
        let list = Self { log_durations };
        proof {
            assert(list@ =~= length_list(rv.skip(from as int), now as int));
        }
        Ok(list)
    }

    /// Ascribes to every record its overlap with the trailing range that
    /// reaches `duration_ms` back from the present instant. The range is
    /// drawn from the clock, so the contract promises the scope shape
    /// for some non-negative query instant rather than a particular one;
    /// a clock reading before the epoch is taken as the epoch itself.
    /// Succeeds exactly when the store parses and the duration fits a
    /// signed millisecond count.
    pub fn create_for_last_duration(contents: &str, duration_ms: u64) -> (r: Result<
        Self,
        TwtError,
    >)
        ensures
            match r {
                Ok(list) => parse_store_spec(contents@) is Ok && duration_ms <= i64::MAX as u64
                    && (exists|t: int|
                    0 <= t && list@ == #[trigger] scope_list(
                        parse_store_spec(contents@)->Ok_0,
                        t - duration_ms,
                        t,
                        t,
                    )) && list.wf(),
                Err(e) => (parse_store_spec(contents@) is Err && e == (TwtError::Corrupt {
                    line: (parse_store_spec(contents@)->Err_0 + 1) as usize,
                })) || (parse_store_spec(contents@) is Ok && duration_ms > i64::MAX as u64 && e
                    == TwtError::BadRange),
            },
    {
        if duration_ms > i64::MAX as u64 {
            match store::parse_store(contents) {
                Ok(_) => {
                    return Err(TwtError::BadRange);
                },
                Err(e) => {
                    return Err(e);
                },
            }
        }
        let end: i64 = match now_millis() {
            Some(t) => t,
            None => 0,
        };
        let begin: i64 = end - (duration_ms as i64);
        let r = Self::create_for_scope(contents, begin, end, end);
        proof {
            if r is Ok {
                assert(r->Ok_0@ == scope_list(
                    parse_store_spec(contents@)->Ok_0,
                    end as int - duration_ms,
                    end as int,
                    end as int,
                ));
            }
        }
        r
    }
}

/// The grouping key of a record under a column.
pub open spec fn key_of(l: LogV, col: LogColumn) -> Seq<char> {
    match col {
        LogColumn::Name => l.name,
        LogColumn::Class => l.class,
    }
}

/// The records of a list reduced to their grouping keys and durations.
pub open spec fn keyed(s: Seq<LogDurationV>, col: LogColumn) -> Seq<(Seq<char>, int)> {
    s.map_values(|d: LogDurationV| (key_of(d.log, col), d.duration))
}

/// Sum of the durations ascribed to key `k`.
pub open spec fn key_total(pairs: Seq<(Seq<char>, int)>, k: Seq<char>) -> int
    decreases pairs.len(),
{
    if pairs.len() == 0 {
        0
    } else {
        key_total(pairs.drop_last(), k) + (if pairs.last().0 == k {
            pairs.last().1
        } else {
            0int
        })
    }
}

proof fn lemma_key_total_nonneg(pairs: Seq<(Seq<char>, int)>, k: Seq<char>)
    requires
        forall|j: int| 0 <= j < pairs.len() ==> (#[trigger] pairs[j]).1 >= 0,
    ensures
        key_total(pairs, k) >= 0,
    decreases pairs.len(),
{
    if pairs.len() > 0 {
        lemma_key_total_nonneg(pairs.drop_last(), k);
    }
}

proof fn lemma_key_total_take_succ(pairs: Seq<(Seq<char>, int)>, i: int, k: Seq<char>)
    requires
        0 <= i < pairs.len(),
    ensures
        key_total(pairs.take(i + 1), k) == key_total(pairs.take(i), k) + (if pairs[i].0 == k {
            pairs[i].1
        } else {
            0int
        }),
{
    assert(pairs.take(i + 1).drop_last() =~= pairs.take(i));
    assert(pairs.take(i + 1).last() == pairs[i]);
}

proof fn lemma_key_total_take_le(pairs: Seq<(Seq<char>, int)>, i: int, k: Seq<char>)
    requires
        0 <= i <= pairs.len(),
        forall|j: int| 0 <= j < pairs.len() ==> (#[trigger] pairs[j]).1 >= 0,
    ensures
        key_total(pairs.take(i), k) <= key_total(pairs, k),
    decreases pairs.len() - i,
{
    if i < pairs.len() {
        lemma_key_total_take_succ(pairs, i, k);
        lemma_key_total_take_le(pairs, i + 1, k);
    } else {
        assert(pairs.take(i) =~= pairs);
    }
}

proof fn lemma_key_total_zero(pairs: Seq<(Seq<char>, int)>, k: Seq<char>)
    requires
        forall|j: int| 0 <= j < pairs.len() ==> (#[trigger] pairs[j]).0 != k,
    ensures
        key_total(pairs, k) == 0,
    decreases pairs.len(),
{
    if pairs.len() > 0 {
        lemma_key_total_zero(pairs.drop_last(), k);
    }
}

/// Contribution of one record to the total of key `k`.
pub open spec fn key_share(d: LogDurationV, col: LogColumn, k: Seq<char>) -> int {
    if key_of(d.log, col) == k {
        d.duration
    } else {
        0
    }
}

proof fn lemma_keyed_drop_last(s: Seq<LogDurationV>, col: LogColumn)
    requires
        s.len() > 0,
    ensures
        keyed(s, col).drop_last() =~= keyed(s.drop_last(), col),
        keyed(s, col).last() == (key_of(s.last().log, col), s.last().duration),
{
}

proof fn lemma_rec_total_remove(s: Seq<LogDurationV>, j: int, col: LogColumn, k: Seq<char>)
    requires
        0 <= j < s.len(),
    ensures
        key_total(keyed(s.remove(j), col), k) == key_total(keyed(s, col), k) - key_share(
            s[j],
            col,
            k,
        ),
    decreases s.len(),
{
    lemma_keyed_drop_last(s, col);
    if j == s.len() - 1 {
        assert(s.remove(j) =~= s.drop_last());
    } else {
        let t = s.remove(j);
        assert(t.drop_last() =~= s.drop_last().remove(j));
        assert(t.last() == s.last());
        lemma_keyed_drop_last(t, col);
        lemma_rec_total_remove(s.drop_last(), j, col, k);
    }
}

/// Grouping is insensitive to record order: two logs holding the same
/// records, in any order, ascribe the same summed duration to every
/// key.
pub proof fn lemma_grouping_permutation(
    a: Seq<LogDurationV>,
    b: Seq<LogDurationV>,
    col: LogColumn,
    k: Seq<char>,
)
    requires
        a.to_multiset() == b.to_multiset(),
    ensures
        key_total(keyed(a, col), k) == key_total(keyed(b, col), k),
    decreases a.len(),
{
    broadcast use vstd::seq_lib::group_to_multiset_ensures;

    if a.len() == 0 {
        assert(a.to_multiset().len() == a.len());
        assert(b.to_multiset().len() == b.len());
        assert(b.len() == 0);
        assert(keyed(a, col).len() == 0);
        assert(keyed(b, col).len() == 0);
    } else {
        let x = a.last();
        assert(a.contains(x));
        assert(b.to_multiset().count(x) > 0);
        assert(b.contains(x));
        let j = choose|j: int| 0 <= j < b.len() && b[j] == x;
        assert(a.remove(a.len() - 1) =~= a.drop_last());
        assert(a.drop_last().to_multiset() =~= a.to_multiset().remove(x));
        assert(b.remove(j).to_multiset() =~= b.to_multiset().remove(x));
        lemma_grouping_permutation(a.drop_last(), b.remove(j), col, k);
        lemma_keyed_drop_last(a, col);
        lemma_rec_total_remove(b, j, col, k);
    }
}

proof fn lemma_insert_multiset<A>(v: Seq<A>, j: int, x: A)
    requires
        0 <= j <= v.len(),
    ensures
        v.insert(j, x).to_multiset() =~= v.to_multiset().insert(x),
{
    broadcast use vstd::seq_lib::group_to_multiset_ensures;
    broadcast use vstd::multiset::group_multiset_axioms;

    let w = v.insert(j, x);
    assert(w.remove(j) =~= v);
    assert(w[j] == x);
    assert(w.remove(j).to_multiset() =~= w.to_multiset().remove(x));
    assert(w.contains(x));
    assert(w.to_multiset().count(x) >= 1);
    assert forall|y: A| true implies w.to_multiset().count(y) == v.to_multiset().insert(
        x,
    ).count(y) by {
        if y == x {
            assert(w.to_multiset().remove(x).count(x) == w.to_multiset().count(x) - 1);
        } else {
            assert(w.to_multiset().remove(x).count(y) == w.to_multiset().count(y));
        }
    }
}

proof fn lemma_two_indices_count<A>(s: Seq<A>, i: int, j: int)
    requires
        0 <= i < j < s.len(),
        s[i] == s[j],
    ensures
        s.to_multiset().count(s[i]) >= 2,
{
    broadcast use vstd::seq_lib::group_to_multiset_ensures;
    broadcast use vstd::multiset::group_multiset_axioms;

    let t = s.remove(j);
    assert(t[i] == s[i]);
    assert(t.contains(s[i]));
    assert(t.to_multiset() =~= s.to_multiset().remove(s[j]));
    assert(t.to_multiset().count(s[i]) >= 1);
}

proof fn lemma_count_two_indices<A>(s: Seq<A>, x: A)
    requires
        s.to_multiset().count(x) >= 2,
    ensures
        exists|i: int, j: int| 0 <= i < j < s.len() && s[i] == x && s[j] == x,
{
    broadcast use vstd::seq_lib::group_to_multiset_ensures;
    broadcast use vstd::multiset::group_multiset_axioms;

    assert(s.contains(x));
    let i0 = choose|i: int| 0 <= i < s.len() && s[i] == x;
    let t = s.remove(i0);
    assert(t.to_multiset() =~= s.to_multiset().remove(x));
    assert(t.to_multiset().count(x) >= 1);
    assert(t.contains(x));
    let j0 = choose|j: int| 0 <= j < t.len() && t[j] == x;
    if j0 < i0 {
        assert(s[j0] == t[j0]);
        assert(0 <= j0 < i0 < s.len() && s[j0] == x && s[i0] == x);
    } else {
        assert(s[j0 + 1] == t[j0]);
        assert(0 <= i0 < j0 + 1 < s.len() && s[i0] == x && s[j0 + 1] == x);
    }
}

/// Ghost image of one line of a usage view.
pub struct EntryV {
    pub title: Seq<char>,
    pub duration: int,
}

/// One line of a usage view: a grouping key and the total duration
/// ascribed to it.
#[derive(Debug)]
pub struct LogDurationView {
    pub title: String,
    pub duration: i64,
}

impl View for LogDurationView {
    type V = EntryV;

    open spec fn view(&self) -> EntryV {
        EntryV { title: self.title@, duration: self.duration as int }
    }
}

/// A usage view: one line per key, sorted by total duration descending.
#[derive(Debug)]
pub struct LogDurationListView {
    log_duration_views: Vec<LogDurationView>,
}

impl View for LogDurationListView {
    type V = Seq<EntryV>;

    closed spec fn view(&self) -> Seq<EntryV> {
        self.log_duration_views@.map_values(|e: LogDurationView| e@)
    }
}

/// The predicate a filter pattern imposes on grouping keys: everything
/// passes without a pattern.
pub open spec fn filter_of(regex_pattern: Option<&str>) -> spec_fn(Seq<char>) -> bool {
    match regex_pattern {
        Some(p) => (|k: Seq<char>| regex_match(p@, k)),
        None => (|k: Seq<char>| true),
    }
}

/// Whether the filter pattern, if any, is a valid regular expression.
pub open spec fn pattern_ok(regex_pattern: Option<&str>) -> bool {
    match regex_pattern {
        Some(p) => regex_valid(p@),
        None => true,
    }
}

/// Some admitted key carries a total too large for a signed 64-bit
/// millisecond count.
pub open spec fn some_total_overflows(
    pairs: Seq<(Seq<char>, int)>,
    f: spec_fn(Seq<char>) -> bool,
) -> bool {
    exists|j: int|
        0 <= j < pairs.len() && f((#[trigger] pairs[j]).0) && key_total(pairs, pairs[j].0)
            > i64::MAX
}

/// What a correct usage view holds for a log reduced to `pairs` under
/// the filter `f`: every line carries an admitted key and that key's
/// exact total, no key appears twice, no zero total appears, every
/// admitted key with a non-zero total appears, and totals never
/// increase down the view.
pub open spec fn view_ok(
    entries: Seq<EntryV>,
    pairs: Seq<(Seq<char>, int)>,
    f: spec_fn(Seq<char>) -> bool,
) -> bool {
    &&& forall|i: int|
        0 <= i < entries.len() ==> f((#[trigger] entries[i]).title) && entries[i].duration
            == key_total(pairs, entries[i].title) && entries[i].duration != 0
    &&& forall|i: int, j: int|
        #![trigger entries[i], entries[j]]
        0 <= i < j < entries.len() ==> entries[i].title != entries[j].title
            && entries[i].duration >= entries[j].duration
    &&& forall|j: int|
        0 <= j < pairs.len() && f((#[trigger] pairs[j]).0) && key_total(pairs, pairs[j].0) != 0
            ==> exists|i: int| 0 <= i < entries.len() && (#[trigger] entries[i]).title == pairs[j].0
}

impl LogDurationListView {
    /// How many lines the view holds.
    pub fn len(&self) -> (r: usize)
        ensures
            r == self@.len(),
    {
        self.log_duration_views.len()
    }

    /// The line at `i`.
    pub fn get(&self, i: usize) -> (r: &LogDurationView)
        requires
            i < self@.len(),
        ensures
            r@ == self@[i as int],
    {
        &self.log_duration_views[i]
    }
}

/// The compact rendering of a non-negative millisecond count: the
/// coarsest applicable unit first, finer units down to seconds behind
/// it, milliseconds alone below one second. Sub-unit fields are the
/// remainder within the next larger unit; a week is seven days, a day
/// twenty-four hours.
pub open spec fn pretty_spec(ms: int) -> Seq<char> {
    let s = ms / 1000;
    if ms < 1000 {
        dec_seq(ms) + seq!['m', 's']
    } else if s < 60 {
        dec_seq(s) + seq!['s']
    } else if s < 3600 {
        dec_seq(s / 60) + seq!['m'] + dec_seq(s % 60) + seq!['s']
    } else if s < 86400 {
        dec_seq(s / 3600) + seq!['h'] + dec_seq((s / 60) % 60) + seq!['m'] + dec_seq(s % 60)
            + seq!['s']
    } else if s < 604800 {
        dec_seq(s / 86400) + seq!['d', ',', ' '] + dec_seq((s / 3600) % 24) + seq!['h'] + dec_seq(
            (s / 60) % 60,
        ) + seq!['m'] + dec_seq(s % 60) + seq!['s']
    } else {
        dec_seq(s / 604800) + seq!['w', ',', ' '] + dec_seq((s / 86400) % 7) + seq!['d', ',', ' ']
            + dec_seq((s / 3600) % 24) + seq!['h'] + dec_seq((s / 60) % 60) + seq!['m'] + dec_seq(
            s % 60,
        ) + seq!['s']
    }
}

impl LogDurationView {
    /// Renders the line's total in the compact unit format.
    pub fn pretty_duration(&self) -> (r: String)
        requires
            0 <= self@.duration,
        ensures
            r@ == pretty_spec(self@.duration),
    {
        proof {
            reveal_strlit("ms");
            reveal_strlit("s");
            reveal_strlit("m");
            reveal_strlit("h");
            reveal_strlit("d, ");
            reveal_strlit("w, ");
            assert("ms"@ =~= seq!['m', 's']);
            assert("s"@ =~= seq!['s']);
            assert("m"@ =~= seq!['m']);
            assert("h"@ =~= seq!['h']);
            assert("d, "@ =~= seq!['d', ',', ' ']);
            assert("w, "@ =~= seq!['w', ',', ' ']);
        }
        let ms: u64 = self.duration as u64;
        let s: u64 = ms / 1000;
        if ms < 1000 {
            let mut out = text::fmt_u64(ms);
            out.append("ms");
            proof {
                assert(out@ =~= pretty_spec(self@.duration));
            }
            out
        } else if s < 60 {
            let mut out = text::fmt_u64(s);
            out.append("s");
            proof {
                assert(out@ =~= pretty_spec(self@.duration));
            }
            out
        } else if s < 3600 {
            let mut out = text::fmt_u64(s / 60);
            out.append("m");
            let sec = text::fmt_u64(s % 60);
            out.append(sec.as_str());
            out.append("s");
            proof {
                assert(out@ =~= pretty_spec(self@.duration));
            }
            out
        } else if s < 86400 {
            let mut out = text::fmt_u64(s / 3600);
            out.append("h");
            let minutes = text::fmt_u64((s / 60) % 60);
            out.append(minutes.as_str());
            out.append("m");
            let sec = text::fmt_u64(s % 60);
            out.append(sec.as_str());
            out.append("s");
            proof {
                assert(out@ =~= pretty_spec(self@.duration));
            }
            out
        } else if s < 604800 {
            let mut out = text::fmt_u64(s / 86400);
            out.append("d, ");
            let hours = text::fmt_u64((s / 3600) % 24);
            out.append(hours.as_str());
            out.append("h");
            let minutes = text::fmt_u64((s / 60) % 60);
            out.append(minutes.as_str());
            out.append("m");
            let sec = text::fmt_u64(s % 60);
            out.append(sec.as_str());
            out.append("s");
            proof {
                assert(out@ =~= pretty_spec(self@.duration));
            }
            out
        } else {
            let mut out = text::fmt_u64(s / 604800);
            out.append("w, ");
            let days = text::fmt_u64((s / 86400) % 7);
            out.append(days.as_str());
            out.append("d, ");
            let hours = text::fmt_u64((s / 3600) % 24);
            out.append(hours.as_str());
            out.append("h");
            let minutes = text::fmt_u64((s / 60) % 60);
            out.append(minutes.as_str());
            out.append("m");
            let sec = text::fmt_u64(s % 60);
            out.append(sec.as_str());
            out.append("s");
            proof {
                assert(out@ =~= pretty_spec(self@.duration));
            }
            out
        }
    }
}

/// The longest title among the lines of a view.
pub open spec fn max_title_len(entries: Seq<EntryV>) -> int
    decreases entries.len(),
{
    if entries.len() == 0 {
        0
    } else {
        max(max_title_len(entries.drop_last()), entries.last().title.len() as int)
    }
}

proof fn lemma_max_title_ge(entries: Seq<EntryV>, i: int)
    requires
        0 <= i < entries.len(),
    ensures
        entries[i].title.len() <= max_title_len(entries),
        max_title_len(entries) >= 0,
    decreases entries.len(),
{
    if entries.len() > 0 {
        if i < entries.len() - 1 {
            lemma_max_title_ge(entries.drop_last(), i);
        } else if entries.len() >= 2 {
            lemma_max_title_ge(entries.drop_last(), 0);
        }
    }
}

/// One rendered usage line: the title padded to one column past the
/// longest title, a colon separator, and the total in compact units.
pub open spec fn render_line_spec(entries: Seq<EntryV>, i: int) -> Seq<char> {
    let pad = max_title_len(entries) + 1;
    entries[i].title + Seq::new((pad - entries[i].title.len()) as nat, |j: int| ' ') + seq![
        ':',
        ' ',
    ] + pretty_spec(entries[i].duration)
}

impl LogDurationListView {
    /// Length in characters of the longest title of the view.
    pub fn get_max_title_length(&self) -> (r: usize)
        ensures
            r == max_title_len(self@),
    {
        let mut m: usize = 0;
        let mut i: usize = 0;
        while i < self.log_duration_views.len()
            invariant
                0 <= i <= self@.len(),
                self@.len() == self.log_duration_views@.len(),
                m == max_title_len(self@.take(i as int)),
            decreases self@.len() - i,
        {
            proof {
                assert(self@.take(i + 1).drop_last() =~= self@.take(i as int));
                assert(self@.take(i + 1).last() == self@[i as int]);
            }
            let l = self.log_duration_views[i].title.as_str().unicode_len();
            if l > m {
                m = l;
            }
            i = i + 1;
        }
        proof {
            assert(self@.take(self@.len() as int) =~= self@);
        }
        m
    }

    /// Renders the view, one aligned line per key.
    pub fn render_lines(&self) -> (r: Vec<String>)
        requires
            forall|i: int| 0 <= i < self@.len() ==> (#[trigger] self@[i]).duration >= 0,
            max_title_len(self@) < usize::MAX,
        ensures
            r@.len() == self@.len(),
            forall|i: int|
                0 <= i < self@.len() ==> (#[trigger] r@[i])@ == render_line_spec(self@, i),
    {
        proof {
            reveal_strlit(": ");
            assert(": "@ =~= seq![':', ' ']);
        }
        let mut lines: Vec<String> = Vec::new();
        let maxl = self.get_max_title_length();
        let mut i: usize = 0;
        while i < self.log_duration_views.len()
            invariant
                0 <= i <= self@.len(),
                self@.len() == self.log_duration_views@.len(),
                forall|k: int| 0 <= k < self@.len() ==> (#[trigger] self@[k]).duration >= 0,
                maxl == max_title_len(self@),
                maxl < usize::MAX,
                ": "@ =~= seq![':', ' '],
                lines@.len() == i,
                forall|k: int|
                    0 <= k < i ==> (#[trigger] lines@[k])@ == render_line_spec(self@, k),
            decreases self@.len() - i,
        {
            let e = &self.log_duration_views[i];
            proof {
                assert(e@ == self@[i as int]);
                lemma_max_title_ge(self@, i as int);
            }
            let l = e.title.as_str().unicode_len();
            let mut line = e.title.clone();
            let padding = text::spaces(maxl - l + 1);
            line.append(padding.as_str());
            line.append(": ");
            let d = e.pretty_duration();
            line.append(d.as_str());
            proof {
                assert(line@ =~= render_line_spec(self@, i as int));
            }
            lines.push(line);
            i = i + 1;
        }
        lines
    }
}

/// Sum of the overlaps of a sequence of intervals with `[lo, hi]`.
pub open spec fn sum_overlaps(ivs: Seq<(int, int)>, lo: int, hi: int) -> int
    decreases ivs.len(),
{
    if ivs.len() == 0 {
        0
    } else {
        sum_overlaps(ivs.drop_last(), lo, hi) + overlap_spec(ivs.last().0, ivs.last().1, lo, hi)
    }
}

/// Sum of the widths of a sequence of intervals.
pub open spec fn sum_widths(ivs: Seq<(int, int)>) -> int
    decreases ivs.len(),
{
    if ivs.len() == 0 {
        0
    } else {
        sum_widths(ivs.drop_last()) + (ivs.last().1 - ivs.last().0)
    }
}

proof fn lemma_sum_contained(ivs: Seq<(int, int)>, lo: int, hi: int)
    requires
        forall|i: int| 0 <= i < ivs.len() ==> lo <= (#[trigger] ivs[i]).0 <= ivs[i].1 <= hi,
    ensures
        sum_overlaps(ivs, lo, hi) == sum_widths(ivs),
    decreases ivs.len(),
{
    if ivs.len() > 0 {
        lemma_sum_contained(ivs.drop_last(), lo, hi);
    }
}

proof fn lemma_chain_lo(ivs: Seq<(int, int)>, i: int)
    requires
        0 <= i < ivs.len(),
        forall|k: int| 0 <= k < ivs.len() ==> (#[trigger] ivs[k]).0 <= ivs[k].1,
        forall|k: int| 1 <= k < ivs.len() ==> (#[trigger] ivs[k]).0 == ivs[k - 1].1,
    ensures
        ivs[0].0 <= ivs[i].0,
    decreases i,
{
    if i > 0 {
        lemma_chain_lo(ivs, i - 1);
    }
}

proof fn lemma_chain_hi(ivs: Seq<(int, int)>, i: int)
    requires
        0 <= i < ivs.len(),
        forall|k: int| 0 <= k < ivs.len() ==> (#[trigger] ivs[k]).0 <= ivs[k].1,
        forall|k: int| 1 <= k < ivs.len() ==> (#[trigger] ivs[k]).0 == ivs[k - 1].1,
    ensures
        ivs[i].1 <= ivs[ivs.len() - 1].1,
    decreases ivs.len() - i,
{
    if i < ivs.len() - 1 {
        lemma_chain_hi(ivs, i + 1);
    }
}

proof fn lemma_chain_telescopes(ivs: Seq<(int, int)>)
    requires
        ivs.len() >= 1,
        forall|k: int| 0 <= k < ivs.len() ==> (#[trigger] ivs[k]).0 <= ivs[k].1,
        forall|k: int| 1 <= k < ivs.len() ==> (#[trigger] ivs[k]).0 == ivs[k - 1].1,
    ensures
        sum_widths(ivs) == ivs[ivs.len() - 1].1 - ivs[0].0,
    decreases ivs.len(),
{
    assert(sum_widths(ivs) == sum_widths(ivs.drop_last()) + (ivs.last().1 - ivs.last().0));
    assert(ivs.last() == ivs[ivs.len() - 1]);
    if ivs.len() > 1 {
        assert(forall|k: int| 0 <= k < ivs.len() - 1 ==> #[trigger] ivs.drop_last()[k] == ivs[k]);
        lemma_chain_telescopes(ivs.drop_last());
        assert(ivs[ivs.len() - 1].0 == ivs[ivs.len() - 2].1);
    } else {
        assert(ivs.drop_last().len() == 0);
        assert(sum_widths(ivs.drop_last()) == 0);
    }
}

/// Records that exactly tile `[t0, t2]` — each starting where the one
/// before it ended, the first at `t0`, the last reaching `t2` — have
/// overlaps with `[t0, t2]` that sum to `t2 - t0`, whatever the
/// granularity of the tiling.
pub proof fn lemma_tiling_sum(ivs: Seq<(int, int)>, t0: int, t2: int)
    requires
        ivs.len() >= 1,
        forall|i: int| 0 <= i < ivs.len() ==> (#[trigger] ivs[i]).0 <= ivs[i].1,
        ivs[0].0 == t0,
        ivs[ivs.len() - 1].1 == t2,
        forall|i: int| 1 <= i < ivs.len() ==> (#[trigger] ivs[i]).0 == ivs[i - 1].1,
    ensures
        sum_overlaps(ivs, t0, t2) == t2 - t0,
{
    assert forall|i: int| 0 <= i < ivs.len() implies t0 <= (#[trigger] ivs[i]).0 <= ivs[i].1
        <= t2 by {
        lemma_chain_lo(ivs, i);
        lemma_chain_hi(ivs, i);
    }
    lemma_sum_contained(ivs, t0, t2);
    lemma_chain_telescopes(ivs);
}

/// A finished usage line: an admitted key carrying its exact non-zero
/// total.
spec fn good_line(
    e: LogDurationView,
    pairs: Seq<(Seq<char>, int)>,
    f: spec_fn(Seq<char>) -> bool,
) -> bool {
    f(e@.title) && e@.duration == key_total(pairs, e@.title) && e@.duration != 0
}

impl LogDurationList {
    /// Groups the ascribed durations by the chosen column, filters the
    /// keys by the optional pattern, drops zero totals, and sorts what
    /// remains by total descending. Fails exactly on an invalid pattern
    /// or on a total beyond the representable millisecond range.
    ///
    /// The order among equal totals is a deliberate, stable choice that
    /// the contract leaves open: keys are accumulated in the order the
    /// log first mentions them and the sort is a stable insertion, so
    /// ties stand in first-encountered order.
    pub fn get_view_for_log_column(
        &self,
        log_column: &LogColumn,
        regex_pattern: Option<&str>,
    ) -> (r: Result<LogDurationListView, TwtError>)
        requires
            self.wf(),
        ensures
            ({
                let pairs = keyed(self@, *log_column);
                let f = filter_of(regex_pattern);
                match r {
                    Ok(view) => pattern_ok(regex_pattern) && !some_total_overflows(pairs, f)
                        && view_ok(view@, pairs, f),
                    Err(e) => (!pattern_ok(regex_pattern) && e == TwtError::BadPattern) || (
                    pattern_ok(regex_pattern) && some_total_overflows(pairs, f) && e
                        == TwtError::Overflow),
                }
            }),
            r matches Ok(view) ==> forall|i: int|
                0 <= i < view@.len() ==> (#[trigger] view@[i]).duration > 0,
    {
        let ghost pairs = keyed(self@, *log_column);
        let ghost f = filter_of(regex_pattern);
        let pat: Option<Pattern> = match regex_pattern {
            Some(ps) => match Pattern::compile(ps) {
                Ok(p) => Some(p),
                Err(e) => {
                    return Err(e);
                },
            },
            None => None,
        };
        let n = self.log_durations.len();
        proof {
            assert(pairs.len() == n);
            assert forall|j: int| 0 <= j < pairs.len() implies (#[trigger] pairs[j]).1 >= 0 by {
                assert(self@[j].duration >= 0);
            }
        }
        let mut acc: Vec<LogDurationView> = Vec::new();
        let mut i: usize = 0;
        while i < n
            invariant
                0 <= i <= n,
                n == self.log_durations@.len(),
                self.wf(),
                pairs == keyed(self@, *log_column),
                f == filter_of(regex_pattern),
                pairs.len() == n,
                forall|j: int| 0 <= j < pairs.len() ==> (#[trigger] pairs[j]).1 >= 0,
                match regex_pattern {
                    Some(ps) => pat matches Some(p2) && p2@ == ps@ && regex_valid(ps@),
                    None => pat is None,
                },
                forall|j: int|
                    0 <= j < acc@.len() ==> f((#[trigger] acc@[j])@.title) && acc@[j]@.duration
                        == key_total(pairs.take(i as int), acc@[j]@.title),
                forall|j1: int, j2: int|
                    #![trigger acc@[j1], acc@[j2]]
                    0 <= j1 < j2 < acc@.len() ==> acc@[j1]@.title != acc@[j2]@.title,
                forall|k2: int|
                    0 <= k2 < i && f((#[trigger] pairs[k2]).0) ==> exists|jj: int|
                        0 <= jj < acc@.len() && (#[trigger] acc@[jj])@.title == pairs[k2].0,
            decreases n - i,
        {
            let ld = &self.log_durations[i];
            proof {
                assert(self@[i as int] == self.log_durations@[i as int]@);
                assert(pairs[i as int] == (
                    key_of(self@[i as int].log, *log_column),
                    self@[i as int].duration,
                ));
            }
            let key: &String = match *log_column {
                LogColumn::Class => &ld.log.window_class,
                LogColumn::Name => &ld.log.window_name,
            };
            proof {
                assert(key@ == pairs[i as int].0);
                assert(ld@.duration == pairs[i as int].1);
            }
            let passes: bool = match &pat {
                Some(p) => p.is_match(key.as_str()),
                None => true,
            };
            proof {
                assert(passes == f(pairs[i as int].0));
            }
            if passes {
                let mut j: usize = 0;
                let mut found: bool = false;
                while j < acc.len() && !found
                    invariant
                        0 <= j <= acc@.len(),
                        !found ==> forall|jj: int|
                            0 <= jj < j ==> (#[trigger] acc@[jj])@.title != key@,
                        found ==> j < acc@.len() && acc@[j as int]@.title == key@,
                    decreases acc@.len() - j + (if found {
                        0int
                    } else {
                        1int
                    }),
                {
                    if acc[j].title == *key {
                        found = true;
                    } else {
                        j = j + 1;
                    }
                }
                if found {
                    let cur = acc[j].duration;
                    match cur.checked_add(ld.duration) {
                        Some(nd) => {
                            let ghost acc0 = acc@;
                            let t2 = acc[j].title.clone();
                            acc[j] = LogDurationView { title: t2, duration: nd };
                            proof {
                                assert(acc@ =~= acc0.update(j as int, acc@[j as int]));
                                assert(acc@[j as int]@.title == key@);
                                assert forall|jj: int| 0 <= jj < acc@.len() implies f(
                                    (#[trigger] acc@[jj])@.title,
                                ) && acc@[jj]@.duration == key_total(
                                    pairs.take(i as int + 1),
                                    acc@[jj]@.title,
                                ) by {
                                    lemma_key_total_take_succ(pairs, i as int, acc@[jj]@.title);
                                    if jj != j {
                                        assert(acc@[jj] == acc0[jj]);
                                        assert(acc0[jj]@.title != key@);
                                    }
                                }
                                assert forall|k2: int|
                                    0 <= k2 < i + 1 && f(
                                        (#[trigger] pairs[k2]).0,
                                    ) implies exists|jj: int|
                                    0 <= jj < acc@.len() && (#[trigger] acc@[jj])@.title
                                        == pairs[k2].0 by {
                                    if k2 == i {
                                        assert(0 <= j < acc@.len() && acc@[j as int]@.title
                                            == pairs[k2].0);
                                    } else {
                                        let jj = choose|jj: int|
                                            0 <= jj < acc0.len() && (#[trigger] acc0[jj])@.title
                                                == pairs[k2].0;
                                        assert(acc@[jj]@.title == acc0[jj]@.title);
                                    }
                                }
                            }
                        },
                        None => {
                            proof {
                                lemma_key_total_take_succ(pairs, i as int, key@);
                                lemma_key_total_take_le(pairs, i as int + 1, key@);
                                assert(key_total(pairs, pairs[i as int].0) > i64::MAX);
                                assert(some_total_overflows(pairs, f));
                            }
                            return Err(TwtError::Overflow);
                        },
                    }
                } else {
                    let ghost acc0 = acc@;
                    proof {
                        assert forall|k2: int|
                            0 <= k2 < i implies (#[trigger] pairs[k2]).0 != key@ by {
                            if pairs[k2].0 == key@ {
                                assert(f(pairs[k2].0));
                                let jj = choose|jj: int|
                                    0 <= jj < acc0.len() && (#[trigger] acc0[jj])@.title
                                        == pairs[k2].0;
                                assert(acc0[jj]@.title != key@);
                            }
                        }
                        assert forall|k2: int|
                            0 <= k2 < pairs.take(i as int).len() implies (#[trigger] pairs.take(
                            i as int,
                        )[k2]).0 != key@ by {
                            assert(pairs.take(i as int)[k2] == pairs[k2]);
                        }
                        lemma_key_total_zero(pairs.take(i as int), key@);
                        lemma_key_total_take_succ(pairs, i as int, key@);
                    }
                    acc.push(LogDurationView { title: key.clone(), duration: ld.duration });
                    proof {
                        assert(acc@ =~= acc0.push(acc@[acc0.len() as int]));
                        assert(acc@[acc0.len() as int]@.title == key@);
                        assert(acc@[acc0.len() as int]@.duration == pairs[i as int].1);
                        assert forall|jj: int| 0 <= jj < acc@.len() implies f(
                            (#[trigger] acc@[jj])@.title,
                        ) && acc@[jj]@.duration == key_total(
                            pairs.take(i as int + 1),
                            acc@[jj]@.title,
                        ) by {
                            lemma_key_total_take_succ(pairs, i as int, acc@[jj]@.title);
                            if jj < acc0.len() {
                                assert(acc@[jj] == acc0[jj]);
                                assert(acc0[jj]@.title != key@);
                            }
                        }
                        assert forall|k2: int|
                            0 <= k2 < i + 1 && f((#[trigger] pairs[k2]).0) implies exists|jj: int|
                            0 <= jj < acc@.len() && (#[trigger] acc@[jj])@.title == pairs[k2].0 by {
                            if k2 == i {
                                assert(0 <= acc0.len() < acc@.len() && acc@[acc0.len() as int]@.title
                                    == pairs[k2].0);
                            } else {
                                let jj = choose|jj: int|
                                    0 <= jj < acc0.len() && (#[trigger] acc0[jj])@.title
                                        == pairs[k2].0;
                                assert(acc@[jj]@.title == acc0[jj]@.title);
                            }
                        }
                    }
                }
            } else {
                proof {
                    assert forall|jj: int| 0 <= jj < acc@.len() implies f(
                        (#[trigger] acc@[jj])@.title,
                    ) && acc@[jj]@.duration == key_total(
                        pairs.take(i as int + 1),
                        acc@[jj]@.title,
                    ) by {
                        lemma_key_total_take_succ(pairs, i as int, acc@[jj]@.title);
                        assert(acc@[jj]@.title != pairs[i as int].0);
                    }
                }
            }
            i = i + 1;
        }
        proof {
            assert(pairs.take(n as int) =~= pairs);
            assert forall|k2: int|
                0 <= k2 < pairs.len() && f((#[trigger] pairs[k2]).0) implies key_total(
                pairs,
                pairs[k2].0,
            ) <= i64::MAX by {
                let jj = choose|jj: int|
                    0 <= jj < acc@.len() && (#[trigger] acc@[jj])@.title == pairs[k2].0;
                assert(acc@[jj]@.duration == key_total(pairs, pairs[k2].0));
            }
            assert(!some_total_overflows(pairs, f));
        }
        // Drop the zero totals.
        let mut filtered: Vec<LogDurationView> = Vec::new();
        while acc.len() > 0
            invariant
                pairs == keyed(self@, *log_column),
                f == filter_of(regex_pattern),
                forall|j: int|
                    0 <= j < acc@.len() ==> f((#[trigger] acc@[j])@.title) && acc@[j]@.duration
                        == key_total(pairs, acc@[j]@.title),
                forall|j1: int, j2: int|
                    #![trigger acc@[j1], acc@[j2]]
                    0 <= j1 < j2 < acc@.len() ==> acc@[j1]@.title != acc@[j2]@.title,
                forall|j: int| 0 <= j < filtered@.len() ==> good_line(#[trigger] filtered@[j], pairs, f),
                forall|j1: int, j2: int|
                    #![trigger filtered@[j1], filtered@[j2]]
                    0 <= j1 < j2 < filtered@.len() ==> filtered@[j1]@.title != filtered@[j2]@.title,
                forall|j1: int, j2: int|
                    #![trigger filtered@[j1], acc@[j2]]
                    0 <= j1 < filtered@.len() && 0 <= j2 < acc@.len() ==> filtered@[j1]@.title
                        != acc@[j2]@.title,
                forall|k2: int|
                    0 <= k2 < pairs.len() && f((#[trigger] pairs[k2]).0) && key_total(
                        pairs,
                        pairs[k2].0,
                    ) != 0 ==> (exists|jj: int|
                        0 <= jj < acc@.len() && (#[trigger] acc@[jj])@.title == pairs[k2].0) || (
                    exists|jj: int|
                        0 <= jj < filtered@.len() && (#[trigger] filtered@[jj])@.title
                            == pairs[k2].0),
            decreases acc@.len(),
        {
            let ghost acc0 = acc@;
            let ghost filtered0 = filtered@;
            // Taking from the front keeps the keys in the order the
            // grouping first met them.
            let e = acc.remove(0);
            let ghost ev = e;
            let keep = e.duration != 0;
            if keep {
                filtered.push(e);
            }
            proof {
                assert(acc@ =~= acc0.drop_first());
                assert(ev == acc0.first());
                assert(forall|j: int| 0 <= j < acc@.len() ==> #[trigger] acc@[j] == acc0[j + 1]);
                assert forall|k2: int|
                    0 <= k2 < pairs.len() && f((#[trigger] pairs[k2]).0) && key_total(
                        pairs,
                        pairs[k2].0,
                    ) != 0 implies (exists|jj: int|
                    0 <= jj < acc@.len() && (#[trigger] acc@[jj])@.title == pairs[k2].0) || (
                exists|jj: int|
                    0 <= jj < filtered@.len() && (#[trigger] filtered@[jj])@.title
                        == pairs[k2].0) by {
                    if exists|jj: int|
                        0 <= jj < acc0.len() && (#[trigger] acc0[jj])@.title == pairs[k2].0 {
                        let jj = choose|jj: int|
                            0 <= jj < acc0.len() && (#[trigger] acc0[jj])@.title == pairs[k2].0;
                        if jj == 0 {
                            if keep {
                                assert(filtered@[filtered0.len() as int]@.title == pairs[k2].0);
                            } else {
                                assert(ev@.duration == key_total(pairs, ev@.title));
                                assert(false);
                            }
                        } else {
                            assert(acc@[jj - 1]@.title == pairs[k2].0);
                        }
                    } else {
                        let jj = choose|jj: int|
                            0 <= jj < filtered0.len() && (#[trigger] filtered0[jj])@.title
                                == pairs[k2].0;
                        assert(filtered@[jj]@.title == pairs[k2].0);
                    }
                }
            }
        }
        // Sort by total, largest first.
        let ghost pre = filtered@;
        sort_entries_desc(&mut filtered);
        let ghost post = filtered@;
        proof {
            assert forall|ii: int| 0 <= ii < post.len() implies good_line(
                #[trigger] post[ii],
                pairs,
                f,
            ) by {
                assert(post.contains(post[ii]));
                assert(post.to_multiset().count(post[ii]) > 0);
                assert(pre.contains(post[ii]));
                let jj = choose|jj: int| 0 <= jj < pre.len() && pre[jj] == post[ii];
                assert(good_line(pre[jj], pairs, f));
            }
            assert forall|ii: int, jj: int|
                #![trigger post[ii], post[jj]]
                0 <= ii < jj < post.len() implies post[ii]@.title != post[jj]@.title by {
                if post[ii]@.title == post[jj]@.title {
                    if post[ii] == post[jj] {
                        lemma_two_indices_count(post, ii, jj);
                        lemma_count_two_indices(pre, post[ii]);
                        let (a, b) = choose|a: int, b: int|
                            0 <= a < b < pre.len() && pre[a] == post[ii] && pre[b] == post[ii];
                        assert(pre[a]@.title == pre[b]@.title);
                        assert(false);
                    } else {
                        assert(post.contains(post[ii]));
                        assert(post.to_multiset().count(post[ii]) > 0);
                        assert(pre.contains(post[ii]));
                        assert(post.contains(post[jj]));
                        assert(post.to_multiset().count(post[jj]) > 0);
                        assert(pre.contains(post[jj]));
                        let a = choose|a: int| 0 <= a < pre.len() && pre[a] == post[ii];
                        let b = choose|b: int| 0 <= b < pre.len() && pre[b] == post[jj];
                        assert(a != b);
                        if a < b {
                            assert(pre[a]@.title != pre[b]@.title);
                        } else {
                            assert(pre[b]@.title != pre[a]@.title);
                        }
                        assert(false);
                    }
                }
            }
            assert forall|k2: int|
                0 <= k2 < pairs.len() && f((#[trigger] pairs[k2]).0) && key_total(
                    pairs,
                    pairs[k2].0,
                ) != 0 implies exists|ii: int|
                0 <= ii < post.len() && (#[trigger] post[ii])@.title == pairs[k2].0 by {
                let jj = choose|jj: int|
                    0 <= jj < pre.len() && (#[trigger] pre[jj])@.title == pairs[k2].0;
                assert(pre.contains(pre[jj]));
                assert(pre.to_multiset().count(pre[jj]) > 0);
                assert(post.contains(pre[jj]));
                let ii = choose|ii: int| 0 <= ii < post.len() && post[ii] == pre[jj];
                assert(post[ii]@.title == pairs[k2].0);
            }
        }
        let view = LogDurationListView { log_duration_views: filtered };
        proof {
            assert forall|ii: int| 0 <= ii < view@.len() implies f(
                (#[trigger] view@[ii]).title,
            ) && view@[ii].duration == key_total(pairs, view@[ii].title) && view@[ii].duration
                != 0 by {
                assert(view@[ii] == post[ii]@);
                assert(good_line(post[ii], pairs, f));
            }
            assert forall|ii: int, jj: int|
                #![trigger view@[ii], view@[jj]]
                0 <= ii < jj < view@.len() implies view@[ii].title != view@[jj].title
                && view@[ii].duration >= view@[jj].duration by {
                assert(view@[ii] == post[ii]@);
                assert(view@[jj] == post[jj]@);
            }
            assert forall|k2: int|
                0 <= k2 < pairs.len() && f((#[trigger] pairs[k2]).0) && key_total(
                    pairs,
                    pairs[k2].0,
                ) != 0 implies exists|ii: int|
                0 <= ii < view@.len() && (#[trigger] view@[ii]).title == pairs[k2].0 by {
                let ii = choose|ii: int|
                    0 <= ii < post.len() && (#[trigger] post[ii])@.title == pairs[k2].0;
                assert(view@[ii].title == pairs[k2].0);
            }
            assert(view_ok(view@, pairs, f));
            assert forall|ii: int| 0 <= ii < view@.len() implies (#[trigger] view@[ii]).duration
                > 0 by {
                lemma_key_total_nonneg(pairs, view@[ii].title);
            }
        }
        Ok(view)
    }
}

/// Sorts usage lines by duration, largest first, by insertion. The
/// insertion point sits after every line with an equal or larger total,
/// so the sort is stable: lines with equal totals keep their order.
fn sort_entries_desc(v: &mut Vec<LogDurationView>)
    ensures
        final(v)@.to_multiset() == old(v)@.to_multiset(),
        final(v)@.len() == old(v)@.len(),
        forall|a: int, b: int|
            #![trigger final(v)@[a], final(v)@[b]]
            0 <= a < b < final(v)@.len() ==> final(v)@[a].duration >= final(v)@[b].duration,
{
    if v.len() <= 1 {
        return ;
    }
    let mut i: usize = 1;
    while i < v.len()
        invariant
            1 <= i <= v@.len(),
            v@.len() == old(v)@.len(),
            v@.to_multiset() == old(v)@.to_multiset(),
            forall|a: int, b: int|
                #![trigger v@[a], v@[b]]
                0 <= a < b < i ==> v@[a].duration >= v@[b].duration,
        decreases v@.len() - i,
    {
        let ghost before = v@;
        let x = v.remove(i);
        let ghost v1 = v@;
        proof {
            assert(before.remove(i as int).to_multiset() =~= before.to_multiset().remove(
                before[i as int],
            ));
        }
        let mut j: usize = i;
        while j > 0 && v[j - 1].duration < x.duration
            invariant
                0 <= j <= i,
                i < v@.len() + 1,
                v@ == v1,
                forall|k: int| j <= k < i ==> v1[k].duration < x.duration,
            decreases j,
        {
            j = j - 1;
        }
        v.insert(j, x);
        proof {
            lemma_insert_multiset(v1, j as int, x);
            assert(before.to_multiset().count(x) >= 1) by {
                assert(before[i as int] == x);
                assert(before.contains(x));
            }
            assert forall|y: LogDurationView| true implies v@.to_multiset().count(y)
                == before.to_multiset().count(y) by {
                if y == x {
                } else {
                }
            }
            assert(v@.to_multiset() =~= before.to_multiset());
            assert forall|a: int, b: int|
                #![trigger v@[a], v@[b]]
                0 <= a < b < i + 1 implies v@[a].duration >= v@[b].duration by {
                assert(v@ == v1.insert(j as int, x));
                assert(forall|k: int| 0 <= k < i ==> v1[k] == before[k]);
                if b < j {
                } else if b == j {
                    assert(v@[b] == x);
                    assert(v1[j - 1].duration >= x.duration);
                } else {
                    assert(v@[b] == v1[b - 1]);
                    if a < j {
                        if j > 0 {
                            assert(v1[j - 1].duration >= x.duration);
                        }
                    } else if a == j {
                        assert(v@[a] == x);
                        assert(v1[b - 1].duration < x.duration);
                    } else {
                        assert(v@[a] == v1[a - 1]);
                    }
                }
            }
        }
        i = i + 1;
    }
}

/// Relies on std's `SystemTime::now`, with `duration_since` the Unix
/// epoch converting its reading: the present instant in milliseconds,
/// or `None` when the clock reads before the epoch or beyond the signed
/// millisecond range. Never panics, whatever the clock says; beyond the
/// sign of a reported instant nothing is promised, and the callers
/// state what holds for any reading.
#[verifier::external_body]
fn now_millis() -> (r: Option<i64>)
    ensures
        r matches Some(t) ==> 0 <= t,
{
    match std::time::SystemTime::now().duration_since(std::time::UNIX_EPOCH) {
        Ok(d) => i64::try_from(d.as_millis()).ok(),
        Err(_) => None,
    }
}

/// The millisecond instant a `YYYY-MM-DD HH:MM:SS` UTC timestamp
/// denotes, when the text is such a timestamp.
pub uninterp spec fn iso_millis(s: Seq<char>) -> Option<int>;

/// Relies on chrono's `NaiveDateTime::parse_from_str` under the
/// `%Y-%m-%d %H:%M:%S` format and on `DateTime::timestamp_millis`; both
/// depend on the text alone, so the result carries only its name.
#[verifier::external_body]
pub fn iso_to_timestamp_millis(date_str: &str) -> (r: Result<i64, TwtError>)
    ensures
        match r {
            Ok(v) => iso_millis(date_str@) == Some(v as int),
            Err(e) => iso_millis(date_str@) is None && e == TwtError::BadTimestamp,
        },
{
    match chrono::NaiveDateTime::parse_from_str(date_str, "%Y-%m-%d %H:%M:%S") {
        Ok(dt) => Ok(dt.and_utc().timestamp_millis()),
        Err(_) => Err(TwtError::BadTimestamp),
    }
}

} // verus!
