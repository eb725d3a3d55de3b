//! Reports: time per tag over a range of days, weeks or months.
use vstd::prelude::*;
use vstd::utf8::encode_utf8;

use crate::datetime::{
    date_of, day_number, duration_ns, duration_since, earlier, int_text, int_to_string,
    max_span_ns, midnight_of, min_day, month_index, now, sub_days, sub_months, to_timestamp,
    trunc_div, valid_date, valid_datetime, weekday, weekday_from_monday, Date, DateTime, Duration,
    MIN_DAY, MIN_YEAR,
};
use crate::log::{entries_view, valid_entry, Entry, LogEntry};
use crate::text::{
    lemma_seq_less_irreflexive, lemma_seq_less_total, lemma_seq_less_transitive, seq_less, str_eq,
    str_less,
};

verus! {

/// A unit of time a report spans.
#[derive(Clone, Copy, Debug, PartialEq, Eq, Structural)]
pub enum Period {
    Day,
    Week,
    Month,
}

/// The range a report covers.
#[derive(Clone, Copy, Debug, PartialEq, Eq, Structural)]
pub enum ReportRange {
    /// The current day, week or month.
    This { period: Period },
    /// The last `n` days, weeks or months, and the current one.
    Last { n: u16, period: Period },
}

/// The first day a range covers, as seen on day `today`, is `start`: today; the
/// Monday of this week; the first of this month; `n` days back; the Monday `n`
/// weeks before this week's; the first of the month `n` months back.
pub open spec fn range_start(r: ReportRange, today: Date, start: Date) -> bool {
    &&& valid_date(start)
    &&& match r {
        ReportRange::This { period: Period::Day } => start == today,
        ReportRange::This { period: Period::Week } => day_number(start) == day_number(today)
            - weekday(today),
        ReportRange::This { period: Period::Month } => start == Date {
            year: today.year,
            month: today.month,
            day: 1,
        },
        ReportRange::Last { n, period: Period::Day } => day_number(start) == day_number(today) - n,
        ReportRange::Last { n, period: Period::Week } => day_number(start) == day_number(today)
            - weekday(today) - 7 * n,
        ReportRange::Last { n, period: Period::Month } => month_index(start) == month_index(today)
            - n && start.day == 1,
    }
}

/// chrono can reach the first day of the range from `today`: the dates it
/// passes through lie within the years it represents.
pub open spec fn range_reachable(r: ReportRange, today: Date) -> bool {
    match r {
        ReportRange::This { period: Period::Week } => min_day() <= day_number(today) - weekday(
            today,
        ),
        ReportRange::Last { n, period: Period::Day } => min_day() <= day_number(today) - n,
        ReportRange::Last { n, period: Period::Week } => min_day() <= day_number(today) - weekday(
            today,
        ) - 7 * n,
        ReportRange::Last { n, period: Period::Month } => MIN_YEAR <= (month_index(today) - n)
            / 12,
        _ => true,
    }
}

/// The first of the month of `d`.
fn start_of_month(d: Date) -> (r: Date)
    requires
        valid_date(d),
    ensures
        r == (Date { year: d.year, month: d.month, day: 1 }),
        valid_date(r),
{
    Date { year: d.year, month: d.month, day: 1 }
}

/// The day number of a date, through chrono's timestamp of its midnight.
fn day_number_of(d: Date) -> (r: i64)
    requires
        valid_date(d),
    ensures
        r == day_number(d),
{
    let t = to_timestamp(&DateTime::midnight(d));
    assert(t == day_number(d) * 86400);
    t / 86400
}

impl ReportRange {
    /// The range as seen at `now`: from midnight of its first day up to `now`.
    pub fn date_range_at(&self, now: DateTime) -> (r: (DateTime, DateTime))
        requires
            valid_datetime(now),
            range_reachable(*self, date_of(now)),
        ensures
            r.1 == now,
            r.0 == midnight_of(date_of(r.0)),
            range_start(*self, date_of(now), date_of(r.0)),
    {
        let today = now.date();
        assert(MIN_DAY == min_day());
        let start = match *self {
            ReportRange::This { period: Period::Day } => today,
            ReportRange::This { period: Period::Week } => {
                let w = weekday_from_monday(&today);
                sub_days(&today, w as i64)
            },
            ReportRange::This { period: Period::Month } => start_of_month(today),
            ReportRange::Last { n, period: Period::Day } => sub_days(&today, n as i64),
            ReportRange::Last { n, period: Period::Week } => {
                let w = weekday_from_monday(&today);
                let monday = sub_days(&today, w as i64);
                sub_days(&monday, 7 * n as i64)
            },
            ReportRange::Last { n, period: Period::Month } => {
                let back = sub_months(&today, n as u32);
                start_of_month(back)
            },
        };
        (DateTime::midnight(start), now)
    }

    /// The range as seen at the clock reading `t`: from midnight of its first
    /// day up to `t`. `None` exactly when that day lies before the earliest date
    /// chrono represents.
    pub fn date_range(&self) -> (r: Option<(DateTime, DateTime)>)
        ensures
            exists|t: DateTime|
                valid_datetime(t) && (r is None <==> !range_reachable(*self, #[trigger] date_of(t)))
                    && (r matches Some(p) ==> p.1 == t),
            r matches Some(p) ==> valid_datetime(p.1) && p.0 == midnight_of(date_of(p.0))
                && range_reachable(*self, date_of(p.1)) && range_start(
                *self,
                date_of(p.1),
                date_of(p.0),
            ),
    {
        let t = now();
        let today = t.date();
        if self.reachable_from(today) {
            Some(self.date_range_at(t))
        } else {
            None
        }
    }

    /// Whether the first day of the range can be reached from `today`.
    pub fn reachable_from(&self, today: Date) -> (r: bool)
        requires
            valid_date(today),
        ensures
            r == range_reachable(*self, today),
    {
        assert(MIN_DAY == min_day());
        let dn = day_number_of(today);
        match *self {
            ReportRange::This { period: Period::Week } => {
                let w = weekday_from_monday(&today);
                MIN_DAY <= dn - w as i64
            },
            ReportRange::Last { n, period: Period::Day } => MIN_DAY <= dn - n as i64,
            ReportRange::Last { n, period: Period::Week } => {
                let w = weekday_from_monday(&today);
                MIN_DAY <= dn - w as i64 - 7 * n as i64
            },
            ReportRange::Last { n, period: Period::Month } => {
                let back = today.year as i64 * 12 + today.month as i64 - 1 - n as i64;
                let year = if back >= 0 {
                    back / 12
                } else {
                    -((-back + 11) / 12)
                };
                MIN_YEAR as i64 <= year
            },
            _ => true,
        }
    }
}

/// Weekly ranges start on a Monday; monthly ranges start on the first of a month;
/// every range starts no later than the day it is seen on.
pub proof fn law_range_start_shape(r: ReportRange, today: Date, start: Date)
    requires
        valid_date(today),
        range_start(r, today, start),
    ensures
        (r matches ReportRange::This { period: Period::Week }) || (r matches ReportRange::Last {
            period: Period::Week,
            ..
        }) ==> weekday(start) == 0,
        (r matches ReportRange::This { period: Period::Month }) || (r matches ReportRange::Last {
            period: Period::Month,
            ..
        }) ==> start.day == 1,
        (r matches ReportRange::This { period: Period::Month }) || (r matches ReportRange::Last {
            period: Period::Month,
            ..
        }) ==> month_index(start) <= month_index(today),
        !(r matches ReportRange::This { period: Period::Month }) && !(r matches ReportRange::Last {
            period: Period::Month,
            ..
        }) ==> day_number(start) <= day_number(today),
{
    let x = day_number(today) + 3;
    vstd::arithmetic::div_mod::lemma_fundamental_div_mod(x, 7);
    assert(0 <= x % 7 < 7);
    match r {
        ReportRange::This { period: Period::Week } => {
            vstd::arithmetic::div_mod::lemma_mod_multiples_basic(x / 7, 7);
            assert(day_number(start) + 3 == (x / 7) * 7);
        },
        ReportRange::Last { n, period: Period::Week } => {
            vstd::arithmetic::div_mod::lemma_mod_multiples_basic(x / 7 - n, 7);
            assert(day_number(start) + 3 == (x / 7 - n) * 7);
        },
        _ => {},
    }
}

/// How far back a range starts, in days: the current week starts on the
/// Monday among the last seven days, today included, so on a Monday it starts
/// that very day; `n` weeks back starts on the Monday seven days earlier per
/// week; `n` days back starts exactly `n` days before today.
pub proof fn law_range_start_days_back(r: ReportRange, today: Date, start: Date)
    requires
        valid_date(today),
        range_start(r, today, start),
    ensures
        r matches ReportRange::This { period: Period::Day } ==> start == today,
        r matches ReportRange::This { period: Period::Week } ==> 0 <= day_number(today)
            - day_number(start) < 7 && weekday(start) == 0,
        r matches ReportRange::This { period: Period::Week } ==> (weekday(today) == 0 <==> start
            == today),
        r matches ReportRange::Last { n, period: Period::Week } ==> 7 * n <= day_number(today)
            - day_number(start) < 7 * n + 7 && weekday(start) == 0,
        r matches ReportRange::Last { n, period: Period::Day } ==> day_number(today) - day_number(
            start,
        ) == n,
{
    let x = day_number(today) + 3;
    vstd::arithmetic::div_mod::lemma_fundamental_div_mod(x, 7);
    assert(0 <= x % 7 < 7);
    law_range_start_shape(r, today, start);
    match r {
        ReportRange::This { period: Period::Week } => {
            if weekday(today) == 0 {
                crate::datetime::lemma_day_number_injective(start, today);
            }
        },
        _ => {},
    }
}

/// A range has one first day as seen on a given day.
pub proof fn law_range_start_unique(r: ReportRange, today: Date, s1: Date, s2: Date)
    requires
        range_start(r, today, s1),
        range_start(r, today, s2),
    ensures
        s1 == s2,
{
    match r {
        ReportRange::Last { n, period: Period::Month } => {
            assert(s1.year == s2.year);
            assert(s1.month == s2.month);
        },
        ReportRange::This { period: Period::Day } => {},
        ReportRange::This { period: Period::Month } => {},
        _ => {
            crate::datetime::lemma_day_number_injective(s1, s2);
        },
    }
}

/// An entry counts toward a report starting at `start` when it started at or
/// after `start`.
pub open spec fn counted(e: LogEntry, start: DateTime) -> bool {
    !earlier(e.start, start)
}

/// How long an entry lasted, in nanoseconds; a running entry lasts until `end`.
pub open spec fn span_of(e: LogEntry, end: DateTime) -> int {
    duration_ns(
        match e.end {
            Some(t) => t,
            None => end,
        },
        e.start,
    )
}

/// The time counted for `tag` over the entries `es`.
#[verifier::opaque]
pub open spec fn tag_total(es: Seq<LogEntry>, start: DateTime, end: DateTime, tag: Seq<char>) -> int
    decreases es.len(),
{
    if es.len() == 0 {
        0
    } else {
        tag_total(es.drop_last(), start, end, tag) + if counted(es.last(), start) && es.last().tag
            == tag {
            span_of(es.last(), end)
        } else {
            0
        }
    }
}

/// Some counted entry has tag `tag`.
pub open spec fn tag_seen(es: Seq<LogEntry>, start: DateTime, tag: Seq<char>) -> bool {
    exists|i: int| 0 <= i < es.len() && counted(es[i], start) && #[trigger] es[i].tag == tag
}

/// A span of time chrono's `TimeDelta` can hold.
pub open spec fn span_fits(ns: int) -> bool {
    -max_span_ns() <= ns <= max_span_ns()
}

/// Summing entry by entry, no tag's running total leaves what a span holds.
pub open spec fn sums_fit(es: Seq<LogEntry>, start: DateTime, end: DateTime) -> bool {
    forall|k: int, tag: Seq<char>|
        0 <= k <= es.len() ==> span_fits(#[trigger] tag_total(es.take(k), start, end, tag))
}

/// The tags of `v` come in strictly increasing order.
pub open spec fn keys_sorted(v: Seq<(Seq<char>, int)>) -> bool {
    forall|i: int, j: int| 0 <= i < j < v.len() ==> seq_less(v[i].0, v[j].0)
}

/// `v` lists, sorted by tag, each tag seen among the counted entries with the
/// time counted for it.
#[verifier::opaque]
pub open spec fn totals_of(v: Seq<(Seq<char>, int)>, es: Seq<LogEntry>, start: DateTime, end: DateTime) -> bool {
    &&& keys_sorted(v)
    &&& forall|i: int|
        0 <= i < v.len() ==> tag_seen(es, start, #[trigger] v[i].0) && v[i].1 == tag_total(
            es,
            start,
            end,
            v[i].0,
        )
    &&& forall|tag: Seq<char>|
        tag_seen(es, start, tag) ==> exists|i: int| 0 <= i < v.len() && #[trigger] v[i].0 == tag
}

/// Totals as values.
pub open spec fn totals_view(v: Seq<(String, Duration)>) -> Seq<(Seq<char>, int)> {
    v.map_values(|p: (String, Duration)| (p.0@, p.1.ns()))
}

/// A tag that no counted entry has gets no time.
pub proof fn lemma_unseen_total(es: Seq<LogEntry>, start: DateTime, end: DateTime, tag: Seq<char>)
    requires
        !tag_seen(es, start, tag),
    ensures
        tag_total(es, start, end, tag) == 0,
    decreases es.len(),
{
    reveal(tag_total);
    if es.len() > 0 {
        let p = es.drop_last();
        if tag_seen(p, start, tag) {
            let i = choose|i: int| 0 <= i < p.len() && counted(p[i], start) && #[trigger] p[i].tag == tag;
            assert(es[i] == p[i]);
        }
        lemma_unseen_total(p, start, end, tag);
        assert(es[es.len() - 1] == es.last());
    }
}

/// One more entry adds its span to its tag when it counts, and makes its tag seen.
pub proof fn lemma_step(p: Seq<LogEntry>, e: LogEntry, start: DateTime, end: DateTime)
    ensures
        forall|tag: Seq<char>|
            #[trigger] tag_total(p.push(e), start, end, tag) == tag_total(p, start, end, tag) + if counted(
                e,
                start,
            ) && e.tag == tag {
                span_of(e, end)
            } else {
                0
            },
        forall|tag: Seq<char>|
            #[trigger] tag_seen(p.push(e), start, tag) == (tag_seen(p, start, tag) || (counted(
                e,
                start,
            ) && e.tag == tag)),
{
    reveal(tag_total);
    let q = p.push(e);
    assert(q.drop_last() =~= p);
    assert forall|tag: Seq<char>|
        #[trigger] tag_seen(q, start, tag) == (tag_seen(p, start, tag) || (counted(e, start) && e.tag
            == tag)) by {
        if tag_seen(q, start, tag) {
            let j = choose|j: int| 0 <= j < q.len() && counted(q[j], start) && #[trigger] q[j].tag == tag;
            if j < p.len() {
                assert(p[j] == q[j]);
            }
        }
        if tag_seen(p, start, tag) {
            let j = choose|j: int| 0 <= j < p.len() && counted(p[j], start) && #[trigger] p[j].tag == tag;
            assert(p[j] == q[j]);
        }
        if counted(e, start) && e.tag == tag {
            assert(q[p.len() as int] == e);
        }
    }
}

/// A report counts an entry exactly when it started at or after the start of
/// the range, whether it is finished or still running: no entries give no tag
/// any time; one more entry that started before `start` changes no tag's total
/// and makes no tag seen; one that started at or after `start` adds its span to
/// the total of its own tag, leaves every other tag's total as it was, and
/// makes its tag seen.
pub proof fn law_counted_by_start(p: Seq<LogEntry>, e: LogEntry, start: DateTime, end: DateTime)
    ensures
        forall|tag: Seq<char>| #[trigger] tag_total(Seq::empty(), start, end, tag) == 0,
        earlier(e.start, start) ==> forall|tag: Seq<char>|
            #[trigger] tag_total(p.push(e), start, end, tag) == tag_total(p, start, end, tag),
        earlier(e.start, start) ==> forall|tag: Seq<char>|
            #[trigger] tag_seen(p.push(e), start, tag) == tag_seen(p, start, tag),
        !earlier(e.start, start) ==> tag_total(p.push(e), start, end, e.tag) == tag_total(
            p,
            start,
            end,
            e.tag,
        ) + span_of(e, end),
        !earlier(e.start, start) ==> forall|tag: Seq<char>|
            tag != e.tag ==> #[trigger] tag_total(p.push(e), start, end, tag) == tag_total(
                p,
                start,
                end,
                tag,
            ),
        !earlier(e.start, start) ==> tag_seen(p.push(e), start, e.tag),
{
    lemma_step(p, e, start, end);
    assert forall|tag: Seq<char>| #[trigger] tag_total(Seq::empty(), start, end, tag) == 0 by {
        reveal(tag_total);
    }
    assert(tag_total(p.push(e), start, end, e.tag) == tag_total(p, start, end, e.tag) + if counted(
        e,
        start,
    ) && e.tag == e.tag {
        span_of(e, end)
    } else {
        0
    });
    assert(tag_seen(p.push(e), start, e.tag) == (tag_seen(p, start, e.tag) || (counted(e, start)
        && e.tag == e.tag)));
}

/// Sorted keys are distinct.
pub proof fn lemma_sorted_distinct(v: Seq<(Seq<char>, int)>, i: int, j: int)
    requires
        keys_sorted(v),
        0 <= i < v.len(),
        0 <= j < v.len(),
        i != j,
    ensures
        v[i].0 != v[j].0,
{
    if i < j {
        assert(seq_less(v[i].0, v[j].0));
    } else {
        assert(seq_less(v[j].0, v[i].0));
    }
    lemma_seq_less_irreflexive(v[i].0);
}

/// An entry that starts before the range leaves the totals as they were.
proof fn lemma_totals_skip(
    tv: Seq<(Seq<char>, int)>,
    p: Seq<LogEntry>,
    e: LogEntry,
    start: DateTime,
    end: DateTime,
)
    requires
        totals_of(tv, p, start, end),
        !counted(e, start),
    ensures
        totals_of(tv, p.push(e), start, end),
        forall|tag: Seq<char>|
            #[trigger] tag_total(p.push(e), start, end, tag) == tag_total(p, start, end, tag),
{
    reveal(totals_of);
    lemma_step(p, e, start, end);
}

/// A counted entry whose tag is already listed at `j` adds its span there.
proof fn lemma_totals_add(
    tv: Seq<(Seq<char>, int)>,
    p: Seq<LogEntry>,
    e: LogEntry,
    start: DateTime,
    end: DateTime,
    j: int,
)
    requires
        totals_of(tv, p, start, end),
        counted(e, start),
        0 <= j < tv.len(),
        tv[j].0 == e.tag,
    ensures
        totals_of(tv.update(j, (e.tag, tv[j].1 + span_of(e, end))), p.push(e), start, end),
        tv[j].1 == tag_total(p, start, end, e.tag),
{
    reveal(totals_of);
    lemma_step(p, e, start, end);
    let q = p.push(e);
    let tag = e.tag;
    let nv = tv.update(j, (tag, tv[j].1 + span_of(e, end)));
    assert forall|m: int| 0 <= m < nv.len() implies tag_seen(q, start, #[trigger] nv[m].0)
        && nv[m].1 == tag_total(q, start, end, nv[m].0) by {
        if m != j {
            lemma_sorted_distinct(tv, m, j);
        }
    }
    assert forall|t: Seq<char>| tag_seen(q, start, t) implies exists|m: int|
        0 <= m < nv.len() && #[trigger] nv[m].0 == t by {
        if t == tag {
            assert(nv[j].0 == t);
        } else {
            let m = choose|m: int| 0 <= m < tv.len() && #[trigger] tv[m].0 == t;
            assert(nv[m].0 == t);
        }
    }
}

/// A counted entry whose tag is not listed goes in at `j`, where the order
/// of tags puts it.
proof fn lemma_totals_insert(
    tv: Seq<(Seq<char>, int)>,
    p: Seq<LogEntry>,
    e: LogEntry,
    start: DateTime,
    end: DateTime,
    j: int,
)
    requires
        totals_of(tv, p, start, end),
        counted(e, start),
        0 <= j <= tv.len(),
        forall|m: int| 0 <= m < j ==> seq_less(#[trigger] tv[m].0, e.tag),
        j < tv.len() ==> !seq_less(tv[j].0, e.tag) && tv[j].0 != e.tag,
    ensures
        totals_of(tv.insert(j, (e.tag, span_of(e, end))), p.push(e), start, end),
        tag_total(p, start, end, e.tag) == 0,
{
    reveal(totals_of);
    lemma_step(p, e, start, end);
    let q = p.push(e);
    let tag = e.tag;
    if tag_seen(p, start, tag) {
        let m = choose|m: int| 0 <= m < tv.len() && #[trigger] tv[m].0 == tag;
        if m < j {
            lemma_seq_less_irreflexive(tag);
        } else if m > j {
            assert(seq_less(tv[j].0, tv[m].0));
        }
    }
    lemma_unseen_total(p, start, end, tag);
    let nv = tv.insert(j, (tag, span_of(e, end)));
    if j < tv.len() {
        lemma_seq_less_total(tv[j].0, tag);
    }
    assert forall|a: int, b: int| 0 <= a < b < nv.len() implies seq_less(nv[a].0, nv[b].0) by {
        if b < j {
        } else if b == j {
        } else if a < j {
            if b - 1 > j {
                lemma_seq_less_transitive(tag, tv[j].0, tv[b - 1].0);
            }
            lemma_seq_less_transitive(tv[a].0, tag, tv[b - 1].0);
        } else if a == j {
            if b - 1 > j {
                lemma_seq_less_transitive(tag, tv[j].0, tv[b - 1].0);
            }
        }
    }
    assert forall|m: int| 0 <= m < nv.len() implies tag_seen(q, start, #[trigger] nv[m].0)
        && nv[m].1 == tag_total(q, start, end, nv[m].0) by {
        if m < j {
            lemma_seq_less_irreflexive(tag);
            assert(seq_less(tv[m].0, tag));
        } else if m > j {
            lemma_seq_less_irreflexive(tag);
            if m - 1 > j {
                lemma_seq_less_transitive(tag, tv[j].0, tv[m - 1].0);
            }
            assert(seq_less(tag, tv[m - 1].0));
        }
    }
    assert forall|t: Seq<char>| tag_seen(q, start, t) implies exists|m: int|
        0 <= m < nv.len() && #[trigger] nv[m].0 == t by {
        if t == tag {
            assert(nv[j].0 == t);
        } else {
            let m = choose|m: int| 0 <= m < tv.len() && #[trigger] tv[m].0 == t;
            if m < j {
                assert(nv[m].0 == t);
            } else {
                assert(nv[m + 1].0 == t);
            }
        }
    }
}

/// Running totals that fit for the first `i` entries, and fit after the next
/// one, fit for the first `i + 1`.
proof fn lemma_fits_extend(es: Seq<LogEntry>, i: int, start: DateTime, end: DateTime)
    requires
        0 <= i < es.len(),
        forall|k: int, tag: Seq<char>|
            0 <= k <= i ==> span_fits(#[trigger] tag_total(es.take(k), start, end, tag)),
        forall|tag: Seq<char>| span_fits(#[trigger] tag_total(es.take(i + 1), start, end, tag)),
    ensures
        forall|k: int, tag: Seq<char>|
            0 <= k <= i + 1 ==> span_fits(#[trigger] tag_total(es.take(k), start, end, tag)),
{
}

/// Every listed total is a well-formed span.
pub open spec fn totals_wf(v: Seq<(String, Duration)>) -> bool {
    forall|i: int| 0 <= i < v.len() ==> (#[trigger] v[i]).1.wf()
}

/// With every total of `p` fitting, every total fits after `e` exactly when
/// the one total `e` changes does.
proof fn lemma_fits_step(p: Seq<LogEntry>, e: LogEntry, start: DateTime, end: DateTime)
    requires
        forall|tag: Seq<char>| span_fits(#[trigger] tag_total(p, start, end, tag)),
    ensures
        (forall|tag: Seq<char>| span_fits(#[trigger] tag_total(p.push(e), start, end, tag))) <==> (
        counted(e, start) ==> span_fits(tag_total(p, start, end, e.tag) + span_of(e, end))),
{
    lemma_step(p, e, start, end);
    if counted(e, start) && !span_fits(tag_total(p, start, end, e.tag) + span_of(e, end)) {
        assert(!span_fits(tag_total(p.push(e), start, end, e.tag)));
    }
}

/// Counts one more entry `e` into `totals`, which hold the totals of the
/// entries `p`. `false` when the total of its tag would leave what a span
/// holds; `totals` are then of no further use.
fn add_entry(
    totals: &mut Vec<(String, Duration)>,
    e: &Entry,
    start: DateTime,
    end: DateTime,
    Ghost(p): Ghost<Seq<LogEntry>>,
) -> (ok: bool)
    requires
        valid_entry(e@),
        valid_datetime(end),
        totals_of(totals_view(old(totals)@), p, start, end),
        totals_wf(old(totals)@),
        forall|tag: Seq<char>| span_fits(#[trigger] tag_total(p, start, end, tag)),
    ensures
        ok ==> totals_of(totals_view(final(totals)@), p.push(e@), start, end),
        ok ==> totals_wf(final(totals)@),
        ok <==> forall|tag: Seq<char>| span_fits(#[trigger] tag_total(p.push(e@), start, end, tag)),
{
    let ghost tv = totals_view(totals@);
    let ghost old_totals = totals@;
    proof {
        lemma_fits_step(p, e@, start, end);
    }
    if e.start.is_before(&start) {
        proof {
            lemma_totals_skip(tv, p, e@, start, end);
        }
        return true;
    }
    let until = match e.end {
        Some(t) => t,
        None => end,
    };
    let d = duration_since(&until, &e.start);
    assert(d.ns() == span_of(e@, end));
    let mut j: usize = 0;
    while j < totals.len() && str_less(totals[j].0.as_str(), e.tag.as_str())
        invariant
            j <= totals.len(),
            tv == totals_view(totals@),
            tv.len() == totals.len(),
            forall|m: int| 0 <= m < j ==> seq_less(#[trigger] tv[m].0, e.tag@),
        ensures
            j < totals.len() ==> !seq_less(tv[j as int].0, e.tag@),
        decreases totals.len() - j,
    {
        j = j + 1;
    }
    let found = j < totals.len() && str_eq(totals[j].0.as_str(), e.tag.as_str());
    if found {
        proof {
            lemma_totals_add(tv, p, e@, start, end, j as int);
            assert(tv[j as int].1 == totals@[j as int].1.ns());
            assert(totals@[j as int].1.wf());
        }
        match totals[j].1.checked_add(d) {
            None => false,
            Some(sum) => {
                let name = totals[j].0.clone();
                totals.set(j, (name, sum));
                proof {
                    assert(totals_view(totals@) =~= tv.update(
                        j as int,
                        (e.tag@, tv[j as int].1 + span_of(e@, end)),
                    ));
                }
                true
            },
        }
    } else {
        let name = e.tag.clone();
        totals.insert(j, (name, d));
        proof {
            lemma_totals_insert(tv, p, e@, start, end, j as int);
            assert(totals_view(totals@) =~= tv.insert(j as int, (e.tag@, span_of(e@, end))));
            assert forall|m: int| 0 <= m < totals@.len() implies (#[trigger] totals@[m]).1.wf() by {
                if m < j {
                    assert(totals@[m] == old_totals[m]);
                } else if m > j {
                    assert(totals@[m] == old_totals[m - 1]);
                }
            }
        }
        true
    }
}

/// The per-tag totals of the counted entries, or `None` when a running total
/// leaves what a span holds.
fn accumulate(entries: &[Entry], start: DateTime, end: DateTime) -> (r: Option<Vec<(String, Duration)>>)
    requires
        forall|i: int| 0 <= i < entries@.len() ==> valid_entry(#[trigger] entries@[i]@),
        valid_datetime(end),
    ensures
        match r {
            None => !sums_fit(entries_view(entries@), start, end),
            Some(v) => totals_of(totals_view(v@), entries_view(entries@), start, end) && totals_wf(
                v@,
            ) && keys_sorted(totals_view(v@)) && sums_fit(entries_view(entries@), start, end),
        },
{
    let ghost es = entries_view(entries@);
    let mut totals: Vec<(String, Duration)> = Vec::new();
    let mut i: usize = 0;
    assert(es.take(0) =~= Seq::<LogEntry>::empty());
    assert(totals_view(totals@) =~= Seq::<(Seq<char>, int)>::empty());
    assert forall|tag: Seq<char>| #[trigger] tag_total(es.take(0), start, end, tag) == 0 by {
        reveal(tag_total);
    }
    assert(totals_of(totals_view(totals@), es.take(0), start, end)) by {
        reveal(totals_of);
    }
    while i < entries.len()
        invariant
            i <= entries.len(),
            es == entries_view(entries@),
            es.len() == entries.len(),
            forall|j: int| 0 <= j < entries@.len() ==> valid_entry(#[trigger] entries@[j]@),
            valid_datetime(end),
            totals_of(totals_view(totals@), es.take(i as int), start, end),
            totals_wf(totals@),
            forall|k: int, tag: Seq<char>|
                0 <= k <= i ==> span_fits(#[trigger] tag_total(es.take(k), start, end, tag)),
        decreases entries.len() - i,
    {
        let e = &entries[i];
        proof {
            assert(es.take(i + 1) =~= es.take(i as int).push(e@));
            assert(valid_entry(entries@[i as int]@));
            assert(forall|tag: Seq<char>|
                span_fits(#[trigger] tag_total(es.take(i as int), start, end, tag)));
        }
        let ok = add_entry(&mut totals, e, start, end, Ghost(es.take(i as int)));
        if !ok {
            return None;
        }
        proof {
            lemma_fits_extend(es, i as int, start, end);
        }
        i = i + 1;
    }
    assert(es.take(entries.len() as int) =~= es);
    proof {
        reveal(totals_of);
    }
    Some(totals)
}

/// Time per tag over a range, in the order of the tags.
pub struct Report {
    totals: Vec<(String, Duration)>,
}

impl View for Report {
    type V = Seq<(Seq<char>, int)>;

    /// Each tag with its total in nanoseconds, in the order of the tags.
    closed spec fn view(&self) -> Seq<(Seq<char>, int)> {
        totals_view(self.totals@)
    }
}

impl Report {
    /// Tags come in strictly increasing order and every total is a span.
    #[verifier::type_invariant]
    closed spec fn well_formed(self) -> bool {
        &&& keys_sorted(totals_view(self.totals@))
        &&& totals_wf(self.totals@)
    }

    /// The report of `entries` for the range from `start` up to `end`: per tag,
    /// the time of the entries that started at or after `start`, a running
    /// entry counted up to `end`. `None` when a tag's total, summed entry by
    /// entry, leaves what a span holds.
    pub fn generate_between(entries: &[Entry], start: DateTime, end: DateTime) -> (r: Option<Report>)
        requires
            forall|i: int| 0 <= i < entries@.len() ==> valid_entry(#[trigger] entries@[i]@),
            valid_datetime(end),
        ensures
            r is Some <==> sums_fit(entries_view(entries@), start, end),
            r matches Some(rep) ==> totals_of(rep@, entries_view(entries@), start, end),
    {
        match accumulate(entries, start, end) {
            None => None,
            Some(totals) => Some(Report { totals }),
        }
    }

    /// The report of `entries` for `range` as seen now. `None` when the range
    /// starts before the earliest date chrono represents, or when a tag's
    /// total leaves what a span holds.
    pub fn generate(entries: &[Entry], range: ReportRange) -> (r: Option<Report>)
        requires
            forall|i: int| 0 <= i < entries@.len() ==> valid_entry(#[trigger] entries@[i]@),
        ensures
            exists|t: DateTime|
                valid_datetime(t) && (!range_reachable(range, #[trigger] date_of(t)) ==> r is None)
                    && (range_reachable(range, date_of(t)) ==> exists|s: Date|
                    range_start(range, date_of(t), s) && (r is None <==> !#[trigger] sums_fit(
                        entries_view(entries@),
                        midnight_of(s),
                        t,
                    )) && (r matches Some(rep) ==> totals_of(
                        rep@,
                        entries_view(entries@),
                        midnight_of(s),
                        t,
                    ))),
    {
        let d = range.date_range();
        let ghost t = choose|t: DateTime|
            valid_datetime(t) && (d is None <==> !range_reachable(range, #[trigger] date_of(t)))
                && (d matches Some(p) ==> p.1 == t);
        match d {
            None => {
                assert(!range_reachable(range, date_of(t)));
                None
            },
            Some((start, end)) => {
                let r = Report::generate_between(entries, start, end);
                let ghost sd = date_of(start);
                assert(end == t);
                assert(midnight_of(sd) == start);
                assert(range_reachable(range, date_of(t)));
                assert(range_start(range, date_of(t), sd));
                assert(r is None <==> !sums_fit(entries_view(entries@), midnight_of(sd), t));
                assert(r matches Some(rep) ==> totals_of(
                    rep@,
                    entries_view(entries@),
                    midnight_of(sd),
                    t,
                ));
                r
            },
        }
    }

    /// The total of `tag`, if the report lists it.
    pub fn get(&self, tag: &str) -> (r: Option<Duration>)
        ensures
            match r {
                Some(d) => exists|i: int|
                    0 <= i < self@.len() && (#[trigger] self@[i]).0 == tag@ && self@[i].1 == d.ns(),
                None => forall|i: int| 0 <= i < self@.len() ==> (#[trigger] self@[i]).0 != tag@,
            },
    {
        let mut i: usize = 0;
        while i < self.totals.len()
            invariant
                i <= self.totals.len(),
                forall|m: int| 0 <= m < i ==> (#[trigger] self@[m]).0 != tag@,
                self@.len() == self.totals.len(),
            decreases self.totals.len() - i,
        {
            if str_eq(self.totals[i].0.as_str(), tag) {
                assert(self@[i as int].0 == tag@);
                return Some(self.totals[i].1);
            }
            i = i + 1;
        }
        None
    }

    /// Whether no tag has time in the report.
    pub fn is_empty(&self) -> (r: bool)
        ensures
            r == (self@.len() == 0),
    {
        self.totals.len() == 0
    }
}

/// `n` spaces; none when `n` is not positive.
pub open spec fn padding(n: int) -> Seq<char> {
    if n > 0 {
        Seq::new(n as nat, |_i: int| ' ')
    } else {
        Seq::empty()
    }
}

/// `s` followed by spaces up to `w` characters (`{:<w}`).
pub open spec fn pad_right(s: Seq<char>, w: int) -> Seq<char> {
    s + padding(w - s.len())
}

/// `s` preceded by spaces up to `w` characters (`{:>w}`).
pub open spec fn pad_left(s: Seq<char>, w: int) -> Seq<char> {
    padding(w - s.len()) + s
}

/// Whole hours of a span, rounded toward zero.
pub open spec fn hours_of(ns: int) -> int {
    trunc_div(ns, 3_600_000_000_000)
}

/// The minutes of a span beyond its whole hours.
pub open spec fn minutes_of(ns: int) -> int {
    trunc_div(ns, 60_000_000_000) - 60 * hours_of(ns)
}

/// One line of a report: the label padded to `tw`, the hours right-aligned to
/// `hw`, the minutes right-aligned to two.
pub open spec fn row_text(label: Seq<char>, ns: int, tw: int, hw: int) -> Seq<char> {
    pad_right(label, tw) + seq![' '] + pad_left(int_text(hours_of(ns)), hw) + seq!['h', ' ']
        + pad_left(int_text(minutes_of(ns)), 2) + seq!['m', '\n']
}

/// The label of the last line.
pub open spec fn total_label() -> Seq<char> {
    seq!['T', 'o', 't', 'a', 'l']
}

/// The sum of the totals.
pub open spec fn values_sum(v: Seq<(Seq<char>, int)>) -> int
    decreases v.len(),
{
    if v.len() == 0 {
        0
    } else {
        values_sum(v.drop_last()) + v.last().1
    }
}

/// Summing the totals in order, each partial sum is a span.
pub open spec fn sum_fits(v: Seq<(Seq<char>, int)>) -> bool {
    forall|k: int| 0 <= k <= v.len() ==> span_fits(#[trigger] values_sum(v.take(k)))
}

/// The width of the label column: the longest tag in UTF-8 bytes, and at least
/// that of `Total`.
pub open spec fn tag_width(v: Seq<(Seq<char>, int)>) -> int
    decreases v.len(),
{
    if v.len() == 0 {
        total_label().len() as int
    } else {
        let w = tag_width(v.drop_last());
        let l = encode_utf8(v.last().0).len() as int;
        if l > w {
            l
        } else {
            w
        }
    }
}

/// The width of the hours column: the widest hour count among the totals and
/// their sum `total`.
pub open spec fn hours_width(v: Seq<(Seq<char>, int)>, total: int) -> int
    decreases v.len(),
{
    if v.len() == 0 {
        int_text(hours_of(total)).len() as int
    } else {
        let w = hours_width(v.drop_last(), total);
        let l = int_text(hours_of(v.last().1)).len() as int;
        if l > w {
            l
        } else {
            w
        }
    }
}

/// The lines of the totals.
pub open spec fn rows_text(v: Seq<(Seq<char>, int)>, tw: int, hw: int) -> Seq<char>
    decreases v.len(),
{
    if v.len() == 0 {
        Seq::empty()
    } else {
        rows_text(v.drop_last(), tw, hw) + row_text(v.last().0, v.last().1, tw, hw)
    }
}

/// A report as text: a line per tag, then the line of the sum.
pub open spec fn report_text(v: Seq<(Seq<char>, int)>) -> Seq<char> {
    let total = values_sum(v);
    let tw = tag_width(v);
    let hw = hours_width(v, total);
    rows_text(v, tw, hw) + row_text(total_label(), total, tw, hw)
}

/// Hours and whole minutes of a span lie well within `i64`.
pub proof fn lemma_hours_minutes_bounds(ns: int)
    requires
        span_fits(ns),
    ensures
        -3_000_000_000_000 <= hours_of(ns) <= 3_000_000_000_000,
        -200_000_000_000_000 <= trunc_div(ns, 60_000_000_000) <= 200_000_000_000_000,
{
    let a = if ns >= 0 { ns } else { -ns };
    assert(0 <= a <= max_span_ns());
    vstd::arithmetic::div_mod::lemma_div_is_ordered(a, max_span_ns(), 3_600_000_000_000);
    vstd::arithmetic::div_mod::lemma_div_is_ordered(a, max_span_ns(), 60_000_000_000);
    vstd::arithmetic::div_mod::lemma_div_pos_is_pos(a, 3_600_000_000_000);
    vstd::arithmetic::div_mod::lemma_div_pos_is_pos(a, 60_000_000_000);
    assert(max_span_ns() / 3_600_000_000_000 <= 3_000_000_000_000);
    assert(max_span_ns() / 60_000_000_000 <= 200_000_000_000_000);
}

/// The whole minutes of a span, rounded toward zero, split into whole hours
/// and the minutes beyond them: the minutes lie strictly between -60 and 60
/// and have the sign of the span.
pub proof fn lemma_hours_minutes_split(ns: int)
    ensures
        hours_of(ns) == trunc_div(trunc_div(ns, 60_000_000_000), 60),
        hours_of(ns) * 60 + minutes_of(ns) == trunc_div(ns, 60_000_000_000),
        -60 < minutes_of(ns) < 60,
        ns >= 0 ==> 0 <= minutes_of(ns),
        ns <= 0 ==> minutes_of(ns) <= 0,
{
    let a = if ns >= 0 {
        ns
    } else {
        -ns
    };
    let q = a / 60_000_000_000;
    vstd::arithmetic::div_mod::lemma_div_denominator(a, 60_000_000_000, 60);
    assert(60_000_000_000 * 60 == 3_600_000_000_000);
    vstd::arithmetic::div_mod::lemma_div_pos_is_pos(a, 60_000_000_000);
    vstd::arithmetic::div_mod::lemma_fundamental_div_mod(q, 60);
    assert(q / 60 == a / 3_600_000_000_000);
    if ns >= 0 {
        assert(trunc_div(ns, 60_000_000_000) == q);
        assert(hours_of(ns) == q / 60);
    } else {
        assert(trunc_div(ns, 60_000_000_000) == -q);
        assert(hours_of(ns) == -(q / 60));
        if q == 0 {
            assert(trunc_div(-q, 60) == 0);
        } else {
            assert(trunc_div(-q, 60) == -(q / 60));
        }
    }
}

/// A report line shows a span as whole hours and the minutes beyond them:
/// sixty times the hours plus the minutes is the span's whole minutes, rounded
/// toward zero, and the minutes lie strictly between -60 and 60 with the sign
/// of the span.
pub proof fn law_row_hours_minutes(label: Seq<char>, ns: int, tw: int, hw: int)
    ensures
        exists|h: int, m: int|
            #![trigger int_text(h), int_text(m)]
            row_text(label, ns, tw, hw) == pad_right(label, tw) + seq![' '] + pad_left(
                int_text(h),
                hw,
            ) + seq!['h', ' '] + pad_left(int_text(m), 2) + seq!['m', '\n'] && h * 60 + m
                == trunc_div(ns, 60_000_000_000) && -60 < m < 60 && (ns >= 0 ==> 0 <= m) && (ns
                <= 0 ==> m <= 0),
{
    lemma_hours_minutes_split(ns);
    let h = hours_of(ns);
    let m = minutes_of(ns);
    assert(row_text(label, ns, tw, hw) == pad_right(label, tw) + seq![' '] + pad_left(
        int_text(h),
        hw,
    ) + seq!['h', ' '] + pad_left(int_text(m), 2) + seq!['m', '\n']);
}

/// The last line of a report is the `Total` line of the sum of the totals,
/// after the line of each tag: it shows that sum as whole hours and the
/// minutes beyond them, so that sixty times the hours plus the minutes is the
/// sum's whole minutes, rounded toward zero, and the minutes lie strictly
/// between -60 and 60 with the sign of the sum.
pub proof fn law_report_total_line(v: Seq<(Seq<char>, int)>)
    ensures
        exists|h: int, m: int|
            #![trigger int_text(h), int_text(m)]
            report_text(v) == rows_text(v, tag_width(v), hours_width(v, values_sum(v))) + pad_right(
                total_label(),
                tag_width(v),
            ) + seq![' '] + pad_left(int_text(h), hours_width(v, values_sum(v))) + seq!['h', ' ']
                + pad_left(int_text(m), 2) + seq!['m', '\n'] && h * 60 + m == trunc_div(
                values_sum(v),
                60_000_000_000,
            ) && -60 < m < 60 && (values_sum(v) >= 0 ==> 0 <= m) && (values_sum(v) <= 0 ==> m
                <= 0),
{
    let total = values_sum(v);
    let tw = tag_width(v);
    let hw = hours_width(v, total);
    lemma_hours_minutes_split(total);
    let h = hours_of(total);
    let m = minutes_of(total);
    assert(report_text(v) =~= rows_text(v, tw, hw) + pad_right(total_label(), tw) + seq![' ']
        + pad_left(int_text(h), hw) + seq!['h', ' '] + pad_left(int_text(m), 2) + seq![
        'm',
        '\n',
    ]);
}

/// The columns of a report are as wide as their widest entry: the label column
/// as the longest tag in UTF-8 bytes, and at least as `Total`; the hours column
/// as the widest hour count among the totals and their sum `total`.
pub proof fn law_report_widths(v: Seq<(Seq<char>, int)>, total: int)
    ensures
        tag_width(v) >= total_label().len(),
        forall|k: int| 0 <= k < v.len() ==> tag_width(v) >= encode_utf8(#[trigger] v[k].0).len(),
        tag_width(v) == total_label().len() || exists|k: int|
            0 <= k < v.len() && tag_width(v) == encode_utf8(#[trigger] v[k].0).len(),
        hours_width(v, total) >= int_text(hours_of(total)).len(),
        forall|k: int|
            0 <= k < v.len() ==> hours_width(v, total) >= int_text(hours_of(#[trigger] v[k].1)).len(),
        hours_width(v, total) == int_text(hours_of(total)).len() || exists|k: int|
            0 <= k < v.len() && hours_width(v, total) == int_text(hours_of(#[trigger] v[k].1)).len(),
    decreases v.len(),
{
    if v.len() > 0 {
        let p = v.drop_last();
        law_report_widths(p, total);
        assert forall|k: int| 0 <= k < p.len() implies #[trigger] v[k] == p[k] by {}
        assert(v[v.len() - 1] == v.last());
        if tag_width(v) != total_label().len() && tag_width(v) != encode_utf8(v.last().0).len() {
            let k = choose|k: int| 0 <= k < p.len() && tag_width(p) == encode_utf8(#[trigger] p[k].0).len();
            assert(v[k] == p[k]);
        }
        if hours_width(v, total) != int_text(hours_of(total)).len() && hours_width(v, total)
            != int_text(hours_of(v.last().1)).len() {
            let k = choose|k: int|
                0 <= k < p.len() && hours_width(p, total) == int_text(hours_of(#[trigger] p[k].1)).len();
            assert(v[k] == p[k]);
        }
    }
}

/// Appends `n` spaces.
fn push_padding(out: &mut String, n: usize)
    ensures
        final(out)@ == old(out)@ + padding(n as int),
{
    let mut k: usize = 0;
    while k < n
        invariant
            k <= n,
            out@ == old(out)@ + padding(k as int),
        decreases n - k,
    {
        out.append(" ");
        proof {
            reveal_strlit(" ");
            assert(padding(k + 1) =~= padding(k as int) + seq![' ']);
        }
        k = k + 1;
    }
}

/// Appends `s` right-aligned to `w` characters.
fn push_right_aligned(out: &mut String, s: &str, w: usize)
    ensures
        final(out)@ == old(out)@ + pad_left(s@, w as int),
{
    let l = s.unicode_len();
    if l < w {
        push_padding(out, w - l);
    } else {
        assert(padding(w - s@.len()) =~= Seq::<char>::empty());
    }
    out.append(s);
    assert(old(out)@ + padding(w - s@.len()) + s@ =~= old(out)@ + pad_left(s@, w as int));
}

/// Appends one line of a report.
fn push_row(out: &mut String, label: &str, d: Duration, tw: usize, hw: usize)
    requires
        d.wf(),
    ensures
        final(out)@ == old(out)@ + row_text(label@, d.ns(), tw as int, hw as int),
{
    proof {
        lemma_hours_minutes_bounds(d.ns());
    }
    let hours = d.num_hours();
    let minutes = d.num_minutes() - hours * 60;
    let ghost before = out@;
    out.append(label);
    let l = label.unicode_len();
    if l < tw {
        push_padding(out, tw - l);
    } else {
        assert(padding(tw - label@.len()) =~= Seq::<char>::empty());
    }
    out.append(" ");
    let h = int_to_string(hours);
    push_right_aligned(out, h.as_str(), hw);
    out.append("h ");
    let m = int_to_string(minutes);
    push_right_aligned(out, m.as_str(), 2);
    out.append("m\n");
    proof {
        reveal_strlit(" ");
        reveal_strlit("h ");
        reveal_strlit("m\n");
        assert(out@ =~= before + row_text(label@, d.ns(), tw as int, hw as int));
    }
}

impl Report {
    /// Whether the totals can be summed in order, each partial sum a span; the
    /// text of the report needs their sum.
    pub fn total_fits(&self) -> (r: bool)
        ensures
            r == sum_fits(self@),
    {
        proof {
            use_type_invariant(self);
        }
        let ghost v = self@;
        let n = self.totals.len();
        let mut total = Duration::zero();
        let mut i: usize = 0;
        assert(v.take(0) =~= Seq::<(Seq<char>, int)>::empty());
        while i < n
            invariant
                i <= n,
                n == self.totals.len(),
                v == totals_view(self.totals@),
                v.len() == n,
                totals_wf(self.totals@),
                forall|k: int| 0 <= k <= i ==> span_fits(#[trigger] values_sum(v.take(k))),
                total.ns() == values_sum(v.take(i as int)),
                total.wf(),
            decreases n - i,
        {
            proof {
                assert(v.take(i + 1).drop_last() =~= v.take(i as int));
                assert(v.take(i + 1).last() == v[i as int]);
                assert(self.totals@[i as int].1.wf());
            }
            match total.checked_add(self.totals[i].1) {
                None => {
                    assert(!span_fits(values_sum(v.take(i + 1))));
                    return false;
                },
                Some(t) => {
                    total = t;
                },
            }
            i = i + 1;
        }
        assert(v.take(n as int) =~= v);
        true
    }

    /// The report as text: a line per tag in the order of the tags, then a
    /// `Total` line with their sum; labels left-aligned to the longest tag in
    /// bytes (at least five), hours right-aligned to the widest hour count, and
    /// minutes right-aligned to two.
    pub fn display(&self) -> (r: String)
        requires
            sum_fits(self@),
            forall|i: int| 0 <= i < self@.len() ==> encode_utf8(#[trigger] self@[i].0).len() <= usize::MAX,
        ensures
            r@ == report_text(self@),
    {
        proof {
            use_type_invariant(self);
        }
        let ghost v = self@;
        let n = self.totals.len();
        assert(v.take(0) =~= Seq::<(Seq<char>, int)>::empty());
        let mut total = Duration::zero();
        let mut tw: usize = 5;
        let mut i: usize = 0;
        while i < n
            invariant
                i <= n,
                n == self.totals.len(),
                v == self@,
                v == totals_view(self.totals@),
                v.len() == n,
                totals_wf(self.totals@),
                sum_fits(v),
                forall|k: int| 0 <= k < v.len() ==> encode_utf8(#[trigger] v[k].0).len() <= usize::MAX,
                total.ns() == values_sum(v.take(i as int)),
                total.wf(),
                tw == tag_width(v.take(i as int)),
            decreases n - i,
        {
            proof {
                assert(v.take(i + 1).drop_last() =~= v.take(i as int));
                assert(v.take(i + 1).last() == v[i as int]);
                assert(span_fits(values_sum(v.take(i + 1))));
                assert(self.totals@[i as int].1.wf());
            }
            total = total.add(self.totals[i].1);
            let l = self.totals[i].0.as_str().len();
            assert(l == encode_utf8(v[i as int].0).len());
            if l > tw {
                tw = l;
            }
            i = i + 1;
        }
        assert(v.take(n as int) =~= v);
        let ghost t = total.ns();
        let mut hw: usize = int_to_string(total.num_hours()).as_str().unicode_len();
        let mut i: usize = 0;
        assert(v.take(0) =~= Seq::<(Seq<char>, int)>::empty());
        while i < n
            invariant
                i <= n,
                n == self.totals.len(),
                v == totals_view(self.totals@),
                v.len() == n,
                totals_wf(self.totals@),
                hw == hours_width(v.take(i as int), t),
            decreases n - i,
        {
            proof {
                assert(v.take(i + 1).drop_last() =~= v.take(i as int));
                assert(v.take(i + 1).last() == v[i as int]);
                assert(self.totals@[i as int].1.wf());
            }
            let l = int_to_string(self.totals[i].1.num_hours()).as_str().unicode_len();
            if l > hw {
                hw = l;
            }
            i = i + 1;
        }
        assert(v.take(n as int) =~= v);
        let mut out = String::new();
        let mut i: usize = 0;
        assert(v.take(0) =~= Seq::<(Seq<char>, int)>::empty());
        while i < n
            invariant
                i <= n,
                n == self.totals.len(),
                v == totals_view(self.totals@),
                v.len() == n,
                totals_wf(self.totals@),
                out@ == rows_text(v.take(i as int), tw as int, hw as int),
            decreases n - i,
        {
            proof {
                assert(v.take(i + 1).drop_last() =~= v.take(i as int));
                assert(v.take(i + 1).last() == v[i as int]);
                assert(self.totals@[i as int].1.wf());
            }
            push_row(&mut out, self.totals[i].0.as_str(), self.totals[i].1, tw, hw);
            i = i + 1;
        }
        assert(v.take(n as int) =~= v);
        push_row(&mut out, "Total", total, tw, hw);
        proof {
            reveal_strlit("Total");
        }
        out
    }
}

/// The time of all the entries a report starting at `start` counts.
pub open spec fn counted_total(es: Seq<LogEntry>, start: DateTime, end: DateTime) -> int
    decreases es.len(),
{
    if es.len() == 0 {
        0
    } else {
        counted_total(es.drop_last(), start, end) + if counted(es.last(), start) {
            span_of(es.last(), end)
        } else {
            0
        }
    }
}

/// The sum of the times counted for each of the tags `ks`.
pub open spec fn keys_total(ks: Seq<Seq<char>>, es: Seq<LogEntry>, start: DateTime, end: DateTime) -> int
    decreases ks.len(),
{
    if ks.len() == 0 {
        0
    } else {
        keys_total(ks.drop_last(), es, start, end) + tag_total(es, start, end, ks.last())
    }
}

/// The tags of a report.
pub open spec fn keys_of(v: Seq<(Seq<char>, int)>) -> Seq<Seq<char>> {
    v.map_values(|p: (Seq<char>, int)| p.0)
}

/// One more entry adds its span to the tags' sum when it counts and its tag is
/// among them.
proof fn lemma_keys_total_step(ks: Seq<Seq<char>>, p: Seq<LogEntry>, e: LogEntry, start: DateTime, end: DateTime)
    requires
        ks.no_duplicates(),
    ensures
        keys_total(ks, p.push(e), start, end) == keys_total(ks, p, start, end) + if counted(e, start)
            && ks.contains(e.tag) {
            span_of(e, end)
        } else {
            0
        },
    decreases ks.len(),
{
    lemma_step(p, e, start, end);
    if ks.len() > 0 {
        let q = ks.drop_last();
        assert(q.no_duplicates()) by {
            assert forall|i: int, j: int| 0 <= i < q.len() && 0 <= j < q.len() && i != j implies q[i]
                != q[j] by {
                assert(q[i] == ks[i] && q[j] == ks[j]);
            }
        }
        lemma_keys_total_step(q, p, e, start, end);
        assert(ks.contains(e.tag) == (q.contains(e.tag) || ks.last() == e.tag)) by {
            if ks.contains(e.tag) {
                let i = choose|i: int| 0 <= i < ks.len() && ks[i] == e.tag;
                if i < q.len() {
                    assert(q[i] == e.tag);
                }
            }
            if q.contains(e.tag) {
                let i = choose|i: int| 0 <= i < q.len() && q[i] == e.tag;
                assert(ks[i] == e.tag);
            }
            if ks.last() == e.tag {
                assert(ks[ks.len() - 1] == e.tag);
            }
        }
        if q.contains(e.tag) && ks.last() == e.tag {
            let i = choose|i: int| 0 <= i < q.len() && q[i] == e.tag;
            assert(ks[i] == ks[ks.len() - 1]);
        }
    }
}

/// Summed over distinct tags that include every tag counted, the per-tag times
/// make up the time of all counted entries.
proof fn lemma_keys_total(ks: Seq<Seq<char>>, es: Seq<LogEntry>, start: DateTime, end: DateTime)
    requires
        ks.no_duplicates(),
        forall|tag: Seq<char>| tag_seen(es, start, tag) ==> ks.contains(tag),
    ensures
        keys_total(ks, es, start, end) == counted_total(es, start, end),
    decreases es.len(),
{
    if es.len() == 0 {
        assert forall|k: int| 0 <= k <= ks.len() implies keys_total(#[trigger] ks.take(k), es, start, end)
            == 0 by {
            lemma_keys_total_empty(ks.take(k), es, start, end);
        }
        assert(ks.take(ks.len() as int) =~= ks);
    } else {
        let p = es.drop_last();
        let e = es.last();
        assert(p.push(e) =~= es);
        lemma_step(p, e, start, end);
        lemma_keys_total(ks, p, start, end);
        lemma_keys_total_step(ks, p, e, start, end);
        if counted(e, start) {
            assert(tag_seen(es, start, e.tag)) by {
                assert(es[es.len() - 1] == e);
            }
        }
    }
}

/// No entries give no time to any tag.
proof fn lemma_keys_total_empty(ks: Seq<Seq<char>>, es: Seq<LogEntry>, start: DateTime, end: DateTime)
    requires
        es.len() == 0,
    ensures
        keys_total(ks, es, start, end) == 0,
    decreases ks.len(),
{
    reveal(tag_total);
    if ks.len() > 0 {
        lemma_keys_total_empty(ks.drop_last(), es, start, end);
    }
}

/// The sum of a report's totals is the sum over its tags.
proof fn lemma_values_sum_keys(v: Seq<(Seq<char>, int)>, es: Seq<LogEntry>, start: DateTime, end: DateTime)
    requires
        forall|i: int| 0 <= i < v.len() ==> (#[trigger] v[i]).1 == tag_total(es, start, end, v[i].0),
    ensures
        values_sum(v) == keys_total(keys_of(v), es, start, end),
    decreases v.len(),
{
    if v.len() > 0 {
        let p = v.drop_last();
        assert forall|i: int| 0 <= i < p.len() implies (#[trigger] p[i]).1 == tag_total(es, start, end, p[i].0) by {
            assert(p[i] == v[i]);
        }
        lemma_values_sum_keys(p, es, start, end);
        assert(keys_of(v).drop_last() =~= keys_of(p));
        assert(v[v.len() - 1] == v.last());
    }
}

/// The `Total` line of a report is the time of all the entries it counts: the
/// per-tag totals add up to the counted entries' time.
pub proof fn law_report_total(v: Seq<(Seq<char>, int)>, es: Seq<LogEntry>, start: DateTime, end: DateTime)
    requires
        totals_of(v, es, start, end),
    ensures
        values_sum(v) == counted_total(es, start, end),
{
    reveal(totals_of);
    lemma_values_sum_keys(v, es, start, end);
    let ks = keys_of(v);
    assert(ks.no_duplicates()) by {
        assert forall|i: int, j: int| 0 <= i < ks.len() && 0 <= j < ks.len() && i != j implies ks[i]
            != ks[j] by {
            lemma_sorted_distinct(v, i, j);
        }
    }
    assert forall|tag: Seq<char>| tag_seen(es, start, tag) implies ks.contains(tag) by {
        let i = choose|i: int| 0 <= i < v.len() && #[trigger] v[i].0 == tag;
        assert(ks[i] == tag);
    }
    lemma_keys_total(ks, es, start, end);
}

} // verus!
