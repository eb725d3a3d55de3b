//! The file layout of the flat store: a `tags` file and one log file per month,
//! `log/YYYY-MM.takt`, under a data directory.
use vstd::prelude::*;

use crate::datetime::{
    add_months, date_of, earlier, format_year_month, month_index, sub_months, two_digits, valid_date,
    valid_datetime, year_text, Date, DateTime, MAX_YEAR, MIN_YEAR,
};
use crate::log::{entries_view, valid_entry, Entry, LogEntry};
use crate::text::str_eq;

verus! {

broadcast use vstd::string::group_string_axioms;

/// `rel` under the directory `dir`, as `PathBuf::join` forms it for a relative
/// `rel`: a `/` between the two unless `dir` is empty or already ends in one.
pub open spec fn join_path(dir: Seq<char>, rel: Seq<char>) -> Seq<char> {
    if dir.len() == 0 || dir.last() == '/' {
        dir + rel
    } else {
        dir + seq!['/'] + rel
    }
}

/// The name of the tags file.
pub open spec fn tags_file() -> Seq<char> {
    seq!['t', 'a', 'g', 's']
}

/// The log file of the month with index `mi` (months since January of year 0),
/// relative to the data directory: `log/YYYY-MM.takt`.
pub open spec fn month_log_file(mi: int) -> Seq<char> {
    seq!['l', 'o', 'g', '/'] + year_text(mi / 12) + seq!['-'] + two_digits(mi % 12 + 1) + seq![
        '.',
        't',
        'a',
        'k',
        't',
    ]
}

/// The flat store: everything lives in files under one data directory.
pub struct FlatStore {
    data_dir: String,
}

impl FlatStore {
    /// The data directory.
    pub closed spec fn dir(&self) -> Seq<char> {
        self.data_dir@
    }

    /// A store rooted at `data_dir`.
    pub fn new(data_dir: String) -> (r: FlatStore)
        ensures
            r.dir() == data_dir@,
    {
        FlatStore { data_dir }
    }

    /// The data directory.
    pub fn data_dir(&self) -> (r: &str)
        ensures
            r@ == self.dir(),
    {
        self.data_dir.as_str()
    }

    /// `rel` under the data directory.
    fn join(&self, rel: &str) -> (r: String)
        ensures
            r@ == join_path(self.dir(), rel@),
    {
        let mut out = self.data_dir.clone();
        let n = self.data_dir.as_str().unicode_len();
        if n > 0 && self.data_dir.as_str().get_char(n - 1) != '/' {
            out.append("/");
            proof {
                reveal_strlit("/");
            }
        }
        out.append(rel);
        out
    }

    /// The path of the tags file.
    pub fn tags_path(&self) -> (r: String)
        ensures
            r@ == join_path(self.dir(), tags_file()),
    {
        proof {
            reveal_strlit("tags");
        }
        self.join("tags")
    }

    /// The path of the log file of the month of `d`.
    pub fn log_path_for_date(&self, d: Date) -> (r: String)
        requires
            valid_date(d),
        ensures
            r@ == join_path(self.dir(), month_log_file(month_index(d))),
    {
        let mut rel = String::new();
        proof {
            reveal_strlit("log/");
            reveal_strlit(".takt");
        }
        rel.append("log/");
        let ym = format_year_month(&d);
        rel.append(ym.as_str());
        rel.append(".takt");
        assert(month_index(d) / 12 == d.year);
        assert(month_index(d) % 12 + 1 == d.month);
        assert(rel@ =~= month_log_file(month_index(d)));
        self.join(rel.as_str())
    }

    /// Whether an entry running in the log at `running_path` is to be stopped in
    /// that log before a new entry starts in the log of `today`: it lives in
    /// another month's log.
    pub fn stop_elsewhere_first(&self, running_path: &str, today: Date) -> (r: bool)
        requires
            valid_date(today),
        ensures
            r == (running_path@ != join_path(self.dir(), month_log_file(month_index(today)))),
    {
        let here = self.log_path_for_date(today);
        !str_eq(running_path, here.as_str())
    }

    /// The log files to look in for a running entry, in order: this month's,
    /// then the previous month's.
    pub fn active_log_paths(&self, today: Date) -> (r: Vec<String>)
        requires
            valid_date(today),
            !(today.year == MIN_YEAR && today.month == 1),
        ensures
            r@.len() == 2,
            r@[0]@ == join_path(self.dir(), month_log_file(month_index(today))),
            r@[1]@ == join_path(self.dir(), month_log_file(month_index(today) - 1)),
    {
        let prev = sub_months(&today, 1);
        let mut r: Vec<String> = Vec::new();
        r.push(self.log_path_for_date(today));
        r.push(self.log_path_for_date(prev));
        r
    }

    /// The log files of every month from that of `start` to that of `end`, in
    /// order; none when `end` lies in an earlier month than `start`.
    pub fn log_paths_between(&self, start: DateTime, end: DateTime) -> (r: Vec<String>)
        requires
            valid_datetime(start),
            valid_datetime(end),
            !(end.year == MAX_YEAR && end.month == 12),
        ensures
            r@.len() == if month_index(date_of(end)) >= month_index(date_of(start)) {
                month_index(date_of(end)) - month_index(date_of(start)) + 1
            } else {
                0
            },
            forall|k: int|
                0 <= k < r@.len() ==> (#[trigger] r@[k])@ == join_path(
                    self.dir(),
                    month_log_file(month_index(date_of(start)) + k),
                ),
    {
        let mut cursor = Date { year: start.year, month: start.month, day: 1 };
        let last: i64 = end.year as i64 * 12 + end.month as i64 - 1;
        let ghost first = month_index(date_of(start));
        let mut r: Vec<String> = Vec::new();
        while (cursor.year as i64 * 12 + cursor.month as i64 - 1) <= last
            invariant
                valid_date(cursor),
                cursor.day == 1,
                last == month_index(date_of(end)),
                last < MAX_YEAR * 12 + 11,
                first <= month_index(cursor) <= if last + 1 > first { last + 1 } else { first },
                r@.len() == month_index(cursor) - first,
                forall|k: int|
                    0 <= k < r@.len() ==> (#[trigger] r@[k])@ == join_path(
                        self.dir(),
                        month_log_file(first + k),
                    ),
            decreases last + 1 - month_index(cursor),
        {
            let p = self.log_path_for_date(cursor);
            r.push(p);
            cursor = add_months(&cursor, 1);
        }
        r
    }
}

/// An entry falls in the window from `start` to `end` when it starts at or
/// after `start` and before `end`.
pub open spec fn in_window(e: LogEntry, start: DateTime, end: DateTime) -> bool {
    !earlier(e.start, start) && earlier(e.start, end)
}

/// The entries of `es` in the window, in order.
pub open spec fn window(es: Seq<LogEntry>, start: DateTime, end: DateTime) -> Seq<LogEntry>
    decreases es.len(),
{
    if es.len() == 0 {
        Seq::empty()
    } else if in_window(es.last(), start, end) {
        window(es.drop_last(), start, end).push(es.last())
    } else {
        window(es.drop_last(), start, end)
    }
}

/// The entries that start in the window from `start` to `end`, in order.
pub fn entries_in_window(entries: &[Entry], start: DateTime, end: DateTime) -> (r: Vec<Entry>)
    ensures
        entries_view(r@) == window(entries_view(entries@), start, end),
        (forall|i: int| 0 <= i < entries@.len() ==> valid_entry(#[trigger] entries@[i]@)) ==> (
        forall|i: int| 0 <= i < r@.len() ==> valid_entry(#[trigger] r@[i]@)),
{
    let ghost es = entries_view(entries@);
    let mut r: Vec<Entry> = Vec::new();
    let mut i: usize = 0;
    assert(es.take(0) =~= Seq::<LogEntry>::empty());
    assert(entries_view(r@) =~= Seq::<LogEntry>::empty());
    while i < entries.len()
        invariant
            i <= entries.len(),
            es == entries_view(entries@),
            es.len() == entries.len(),
            entries_view(r@) == window(es.take(i as int), start, end),
            forall|j: int| 0 <= j < r@.len() ==> exists|m: int| 0 <= m < i && #[trigger] r@[j]@ == entries@[m]@,
        decreases entries.len() - i,
    {
        let e = &entries[i];
        assert(es.take(i + 1).drop_last() =~= es.take(i as int));
        assert(es.take(i + 1).last() == e@);
        if !e.start.is_before(&start) && e.start.is_before(&end) {
            let ghost before = r@;
            r.push(e.clone());
            assert(entries_view(r@) =~= entries_view(before).push(e@));
            assert(r@[r@.len() - 1]@ == entries@[i as int]@);
        }
        i = i + 1;
    }
    assert(es.take(entries.len() as int) =~= es);
    proof {
        if forall|i: int| 0 <= i < entries@.len() ==> valid_entry(#[trigger] entries@[i]@) {
            assert forall|j: int| 0 <= j < r@.len() implies valid_entry(#[trigger] r@[j]@) by {
                let m = choose|m: int| 0 <= m < entries@.len() && #[trigger] r@[j]@ == entries@[m]@;
                assert(valid_entry(entries@[m]@));
            }
        }
    }
    r
}

/// Coming strictly before is transitive.
pub proof fn lemma_earlier_transitive(a: DateTime, b: DateTime, c: DateTime)
    requires
        earlier(a, b),
        earlier(b, c),
    ensures
        earlier(a, c),
{
}

/// No entry of `es` starts before an entry that comes before it.
pub open spec fn sorted_by_start(es: Seq<LogEntry>) -> bool {
    forall|i: int, j: int| 0 <= i < j < es.len() ==> !earlier(#[trigger] es[j].start, #[trigger] es[i].start)
}

/// The entries in order of their starts: the same entries, each as often.
pub fn sort_by_start(entries: Vec<Entry>) -> (r: Vec<Entry>)
    ensures
        sorted_by_start(entries_view(r@)),
        entries_view(r@).to_multiset() == entries_view(entries@).to_multiset(),
        (forall|i: int| 0 <= i < entries@.len() ==> valid_entry(#[trigger] entries@[i]@)) ==> (
        forall|i: int| 0 <= i < r@.len() ==> valid_entry(#[trigger] r@[i]@)),
{
    let ghost es = entries_view(entries@);
    let mut r: Vec<Entry> = Vec::new();
    let mut i: usize = 0;
    assert(es.take(0) =~= Seq::<LogEntry>::empty());
    assert(entries_view(r@) =~= Seq::<LogEntry>::empty());
    while i < entries.len()
        invariant
            i <= entries.len(),
            es == entries_view(entries@),
            es.len() == entries.len(),
            sorted_by_start(entries_view(r@)),
            entries_view(r@).to_multiset() == es.take(i as int).to_multiset(),
            (forall|m: int| 0 <= m < entries@.len() ==> valid_entry(#[trigger] entries@[m]@)) ==> (
            forall|m: int| 0 <= m < r@.len() ==> valid_entry(#[trigger] r@[m]@)),
        decreases entries.len() - i,
    {
        let e = entries[i].clone();
        let ghost v = entries_view(r@);
        let mut j: usize = 0;
        while j < r.len() && !e.start.is_before(&r[j].start)
            invariant
                j <= r.len(),
                v == entries_view(r@),
                v.len() == r.len(),
                forall|m: int| 0 <= m < j ==> !earlier(e.start, #[trigger] v[m].start),
            ensures
                j < r.len() ==> earlier(e.start, v[j as int].start),
            decreases r.len() - j,
        {
            assert(v[j as int] == r@[j as int]@);
            j = j + 1;
        }
        if j < r.len() {
            assert(v[j as int] == r@[j as int]@);
        }
        let ghost old_r = r@;
        r.insert(j, e);
        proof {
            let w = entries_view(r@);
            assert(w =~= v.insert(j as int, e@));
            assert forall|a: int, b: int| 0 <= a < b < w.len() implies !earlier(
                #[trigger] w[b].start,
                #[trigger] w[a].start,
            ) by {
                if b < j {
                    assert(w[a] == v[a] && w[b] == v[b]);
                } else if b == j {
                    assert(w[a] == v[a]);
                } else if a == j {
                    assert(w[b] == v[b - 1]);
                    if earlier(v[b - 1].start, e.start) {
                        if b - 1 > j {
                            assert(!earlier(v[b - 1].start, v[j as int].start));
                        }
                        lemma_earlier_transitive(v[b - 1].start, e.start, v[j as int].start);
                    }
                } else if a < j {
                    assert(w[a] == v[a] && w[b] == v[b - 1]);
                } else {
                    assert(w[a] == v[a - 1] && w[b] == v[b - 1]);
                }
            }
            assert(e@ == es[i as int]);
            if forall|m: int| 0 <= m < entries@.len() ==> valid_entry(#[trigger] entries@[m]@) {
                assert(valid_entry(entries@[i as int]@));
                assert forall|m: int| 0 <= m < r@.len() implies valid_entry(#[trigger] r@[m]@) by {
                    assert(r@[m]@ == w[m]);
                    if m < j {
                        assert(w[m] == v[m]);
                        assert(v[m] == entries_view(old_r)[m]);
                    } else if m > j {
                        assert(w[m] == v[m - 1]);
                        assert(v[m - 1] == entries_view(old_r)[m - 1]);
                    }
                }
            }
            assert(es.take(i + 1) =~= es.take(i as int).push(e@));
            vstd::seq_lib::to_multiset_insert(v, j as int, e@);
            vstd::seq_lib::to_multiset_build(es.take(i as int), e@);
        }
        i = i + 1;
    }
    assert(es.take(entries.len() as int) =~= es);
    r
}

} // verus!
