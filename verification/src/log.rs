//! The task log: one entry per line, `START -- END | TAG`, where END is `*` while
//! the task is still running.
//!
//! ```text
//! 2026-04-06 09:15:04 -- 2026-04-06 11:30:10 | work/project-x/fix-bug
//! 2026-04-06 11:35:02 -- * | study/math/linear-algebra
//! ```
use vstd::prelude::*;

use crate::datetime::{
    chrono_parse, datetime_char, datetime_text, format_datetime, lemma_datetime_text_shape,
    log_datetime_format, now, parse_datetime, plain_datetime, valid_datetime, DateTime,
};
use crate::error::TaktError;
use crate::text::{
    chars_of, find_in, find_pattern, is_ws, lemma_find_first, lemma_split_append_plain,
    lemma_split_nonempty, lemma_trim_plain, lemma_trimmed_ends, occurs_at, piece_at, piece_bounds,
    split_on, trim, trim_end_at, trim_start_at,
};

verus! {

broadcast use vstd::string::group_string_axioms;

/// One tracked span of time: when it started, when it ended (`None` while it is
/// still running) and its tag.
#[derive(Debug)]
pub struct Entry {
    pub start: DateTime,
    pub end: Option<DateTime>,
    pub tag: String,
}

/// An entry as a value.
pub struct LogEntry {
    pub start: DateTime,
    pub end: Option<DateTime>,
    pub tag: Seq<char>,
}

impl View for Entry {
    type V = LogEntry;

    open spec fn view(&self) -> LogEntry {
        LogEntry { start: self.start, end: self.end, tag: self.tag@ }
    }
}

impl Clone for Entry {
    fn clone(&self) -> (r: Entry)
        ensures
            r@ == self@,
    {
        Entry { start: self.start, end: self.end, tag: self.tag.clone() }
    }
}

impl Entry {
    /// Whether every date and time of the entry is one chrono can represent.
    pub fn is_valid(&self) -> (r: bool)
        ensures
            r == valid_entry(self@),
    {
        self.start.is_valid() && match self.end {
            Some(t) => t.is_valid(),
            None => true,
        }
    }
}

/// Entries as values.
pub open spec fn entries_view(v: Seq<Entry>) -> Seq<LogEntry> {
    v.map_values(|e: Entry| e@)
}

/// Every date and time of the entry is one chrono can represent.
pub open spec fn valid_entry(e: LogEntry) -> bool {
    &&& valid_datetime(e.start)
    &&& e.end matches Some(t) ==> valid_datetime(t)
}

/// A sequence of log entries, in the order of the log.
#[derive(Debug)]
pub struct TaskLog {
    entries: Vec<Entry>,
}

impl TaskLog {
    /// The entries, as values.
    pub closed spec fn model(&self) -> Seq<LogEntry> {
        entries_view(self.entries@)
    }

    /// Every entry's times are ones chrono represents.
    #[verifier::type_invariant]
    spec fn inv(self) -> bool {
        forall|i: int| 0 <= i < self.entries@.len() ==> valid_entry(#[trigger] self.entries@[i]@)
    }
}

/// The text of one entry, without its newline.
pub open spec fn entry_line(e: LogEntry) -> Seq<char> {
    datetime_text(e.start) + seq![' ', '-', '-', ' '] + match e.end {
        Some(t) => datetime_text(t),
        None => seq!['*'],
    } + seq![' ', '|', ' '] + e.tag
}

/// The text of a log: each entry's line followed by a newline.
pub open spec fn log_text(es: Seq<LogEntry>) -> Seq<char>
    decreases es.len(),
{
    if es.len() == 0 {
        Seq::empty()
    } else {
        log_text(es.drop_last()) + entry_line(es.last()) + seq!['\n']
    }
}

/// Why log content is refused.
pub enum LogFailure {
    /// A line (0-indexed) without ` | ` or without ` -- ` before it: its text.
    Malformed(int, Seq<char>),
    /// A line whose start or end chrono cannot read: the text it was given.
    BadDateTime(int, Seq<char>),
    /// Any other failure.
    Other,
}

/// The separator between the times and the tag.
pub open spec fn tag_sep() -> Seq<char> {
    seq![' ', '|', ' ']
}

/// The separator between the start and the end.
pub open spec fn time_sep() -> Seq<char> {
    seq![' ', '-', '-', ' ']
}

/// What line `i` of a log says: nothing when blank once trimmed; else the
/// trimmed line is cut at its first ` | ` into times and tag, the times at their
/// first ` -- ` into start and end; chrono reads the trimmed start, and the
/// trimmed end unless it is `*`; the tag is trimmed.
pub open spec fn parse_log_line(i: int, raw: Seq<char>) -> Option<Result<LogEntry, LogFailure>> {
    let line = trim(raw);
    let p = find_pattern(line, tag_sep());
    if line.len() == 0 {
        None
    } else if p < 0 {
        Some(Err(LogFailure::Malformed(i, line)))
    } else {
        let times = line.subrange(0, p);
        let tag = line.subrange(p + 3, line.len() as int);
        let q = find_pattern(times, time_sep());
        if q < 0 {
            Some(Err(LogFailure::Malformed(i, line)))
        } else {
            let start_s = times.subrange(0, q);
            let end_s = trim(times.subrange(q + 4, times.len() as int));
            match chrono_parse(trim(start_s), log_datetime_format()) {
                None => Some(Err(LogFailure::BadDateTime(i, start_s))),
                Some(start) => if end_s == seq!['*'] {
                    Some(Ok(LogEntry { start, end: None, tag: trim(tag) }))
                } else {
                    match chrono_parse(trim(end_s), log_datetime_format()) {
                        None => Some(Err(LogFailure::BadDateTime(i, end_s))),
                        Some(end) => Some(Ok(LogEntry { start, end: Some(end), tag: trim(tag) })),
                    }
                },
            }
        }
    }
}

/// Reads the lines `p` in order; the first refused line decides the error.
pub open spec fn parse_log_pieces(p: Seq<Seq<char>>) -> Result<Seq<LogEntry>, LogFailure>
    decreases p.len(),
{
    if p.len() == 0 {
        Ok(Seq::empty())
    } else {
        match parse_log_pieces(p.drop_last()) {
            Err(e) => Err(e),
            Ok(prev) => match parse_log_line(p.len() - 1, p.last()) {
                None => Ok(prev),
                Some(Err(e)) => Err(e),
                Some(Ok(en)) => Ok(prev.push(en)),
            },
        }
    }
}

/// What reading log content gives; lines are split at `\n`.
pub open spec fn parse_log_spec(content: Seq<char>) -> Result<Seq<LogEntry>, LogFailure> {
    parse_log_pieces(split_on(content, '\n'))
}

/// Once a prefix of the lines is refused, the whole text is refused the same way.
pub proof fn lemma_log_err_extends(p: Seq<Seq<char>>, n: int)
    requires
        0 <= n <= p.len(),
        parse_log_pieces(p.take(n)) is Err,
    ensures
        parse_log_pieces(p) == parse_log_pieces(p.take(n)),
    decreases p.len(),
{
    if n == p.len() {
        assert(p.take(n) =~= p);
    } else {
        assert(p.drop_last().take(n) =~= p.take(n));
        lemma_log_err_extends(p.drop_last(), n);
    }
}

/// chrono reads the log text of `t` back as `t`.
pub open spec fn reads_back(t: DateTime) -> bool {
    chrono_parse(datetime_text(t), log_datetime_format()) == Some(t)
}

/// chrono reads back the times of `e`.
pub open spec fn times_read_back(e: LogEntry) -> bool {
    reads_back(e.start) && (e.end matches Some(t) ==> reads_back(t))
}

/// A tag the log writes and reads back as it is: not empty, without
/// surrounding whitespace and without a newline.
pub open spec fn plain_tag(tag: Seq<char>) -> bool {
    &&& tag.len() > 0
    &&& trim(tag) == tag
    &&& forall|i: int| 0 <= i < tag.len() ==> tag[i] != '\n'
}

/// An entry the log writes and reads back as it is: whole-second start and
/// end, and a plain tag.
pub open spec fn plain_entry(e: LogEntry) -> bool {
    &&& plain_datetime(e.start)
    &&& e.end matches Some(t) ==> plain_datetime(t)
    &&& plain_tag(e.tag)
}

/// Every entry of `es` is plain.
pub open spec fn plain_log(es: Seq<LogEntry>) -> bool {
    forall|i: int| 0 <= i < es.len() ==> plain_entry(#[trigger] es[i])
}

/// The text of an entry's end: its date and time, or `*` while it runs.
pub open spec fn end_text(e: LogEntry) -> Seq<char> {
    match e.end {
        Some(t) => datetime_text(t),
        None => seq!['*'],
    }
}

/// The lines of a log, without their newlines.
pub open spec fn log_lines(es: Seq<LogEntry>) -> Seq<Seq<char>> {
    es.map_values(|e: LogEntry| entry_line(e))
}

/// How the line of a plain entry reads: what each step of reading finds in it.
proof fn lemma_entry_line_shape(e: LogEntry)
    requires
        plain_entry(e),
    ensures
        ({
            let line = entry_line(e);
            let n: int = datetime_text(e.start).len() as int;
            let p: int = n + 4 + end_text(e).len() as int;
            let times = line.subrange(0, p);
            &&& trim(line) == line
            &&& line.len() > 0
            &&& find_pattern(line, tag_sep()) == p
            &&& find_pattern(times, time_sep()) == n
            &&& times.subrange(0, n) == datetime_text(e.start)
            &&& trim(datetime_text(e.start)) == datetime_text(e.start)
            &&& trim(times.subrange(n + 4, times.len() as int)) == end_text(e)
            &&& line.subrange(p + 3, line.len() as int) == e.tag
            &&& (end_text(e) == seq!['*'] <==> e.end is None)
            &&& forall|i: int| 0 <= i < line.len() ==> line[i] != '\n'
        }),
{
    let d = datetime_text(e.start);
    let x = end_text(e);
    let tag = e.tag;
    let line = entry_line(e);
    let n: int = d.len() as int;
    let p: int = n + 4 + x.len() as int;
    lemma_datetime_text_shape(e.start);
    if let Some(t) = e.end {
        lemma_datetime_text_shape(t);
    }
    assert(line =~= d + time_sep() + x + tag_sep() + tag);
    assert(line.len() == p + 3 + tag.len());
    // every character before the tag separator is one of a date and time, or `*`
    assert forall|k: int| 0 <= k < p implies #[trigger] line[k] != '|' && line[k] != '\n' && (
    line[k] == ' ' ==> (k == n - 9 || k >= n)) by {
        if k < n {
            assert(line[k] == d[k]);
            assert(datetime_char(d[k]));
        } else if k < n + 4 {
            assert(line[k] == time_sep()[k - n]);
        } else {
            assert(line[k] == x[k - n - 4]);
            if let Some(t) = e.end {
                assert(datetime_char(datetime_text(t)[k - n - 4]));
            }
        }
    }
    lemma_trimmed_ends(tag);
    assert(line[0] == d[0]);
    assert(line.last() == tag.last());
    lemma_trim_plain(line);
    assert(line.subrange(p, p + 3) =~= tag_sep());
    assert forall|j: int| 0 <= j < p implies !occurs_at(line, tag_sep(), j) by {
        if occurs_at(line, tag_sep(), j) {
            assert(line.subrange(j, j + 3)[1] == line[j + 1]);
            if j + 1 < p {
                assert(line[j + 1] != '|');
            } else {
                assert(line[p] == ' ');
            }
        }
    }
    lemma_find_first(line, tag_sep(), p);
    let times = line.subrange(0, p);
    assert(times =~= d + time_sep() + x);
    assert(times.subrange(n, n + 4) =~= time_sep());
    assert forall|j: int| 0 <= j < n implies !occurs_at(times, time_sep(), j) by {
        if occurs_at(times, time_sep(), j) {
            assert(times.subrange(j, j + 4)[0] == times[j]);
            assert(times.subrange(j, j + 4)[1] == times[j + 1]);
            assert(times[j] == ' ');
            assert(line[j] == ' ');
            assert(j == n - 9);
            assert(times[n - 8] == d[n - 8]);
        }
    }
    lemma_find_first(times, time_sep(), n);
    assert(times.subrange(0, n) =~= d);
    lemma_trim_plain(d);
    assert(times.subrange(n + 4, times.len() as int) =~= x);
    lemma_trim_plain(x);
    assert(line.subrange(p + 3, line.len() as int) =~= tag);
    assert forall|i: int| 0 <= i < line.len() implies line[i] != '\n' by {
        if i >= p + 3 {
            assert(line[i] == tag[i - p - 3]);
        } else if i >= p {
            assert(line[i] == tag_sep()[i - p]);
        }
    }
}

/// The line of a plain entry whose times chrono reads back reads as the entry.
proof fn lemma_parse_entry_line(i: int, e: LogEntry)
    requires
        plain_entry(e),
        times_read_back(e),
    ensures
        parse_log_line(i, entry_line(e)) == Some(Ok::<LogEntry, LogFailure>(e)),
{
    lemma_entry_line_shape(e);
    let line = entry_line(e);
    let n: int = datetime_text(e.start).len() as int;
    let p: int = n + 4 + end_text(e).len() as int;
    let times = line.subrange(0, p);
    assert(trim(line) == line);
    assert(times.len() == p);
    let end_s = trim(times.subrange(n + 4, times.len() as int));
    assert(end_s == end_text(e));
    assert(trim(times.subrange(0, n)) == datetime_text(e.start));
    assert(trim(line.subrange(p + 3, line.len() as int)) == e.tag);
    if let Some(t) = e.end {
        assert(end_s != seq!['*']) by {
            lemma_datetime_text_shape(t);
        }
        assert(trim(end_s) == datetime_text(t)) by {
            lemma_datetime_text_shape(t);
            lemma_trim_plain(datetime_text(t));
        }
    }
}

/// A log of plain entries splits at its newlines into its lines and a last,
/// empty piece.
proof fn lemma_split_log_text(es: Seq<LogEntry>)
    requires
        plain_log(es),
    ensures
        split_on(log_text(es), '\n') == log_lines(es).push(Seq::<char>::empty()),
    decreases es.len(),
{
    if es.len() == 0 {
        assert(split_on(log_text(es), '\n') =~= seq![Seq::<char>::empty()]);
        assert(log_lines(es).push(Seq::<char>::empty()) =~= seq![Seq::<char>::empty()]);
    } else {
        let p = es.drop_last();
        assert forall|k: int| 0 <= k < p.len() implies plain_entry(#[trigger] p[k]) by {
            assert(p[k] == es[k]);
        }
        lemma_split_log_text(p);
        assert(plain_entry(es[es.len() - 1]));
        let x = entry_line(es.last());
        assert(forall|i: int| 0 <= i < x.len() ==> x[i] != '\n') by {
            lemma_entry_line_shape(es.last());
        }
        let t = log_text(p);
        assert(log_text(es) =~= (t + x).push('\n'));
        lemma_split_append_plain(t, x, '\n');
        assert((t + x).push('\n').drop_last() =~= t + x);
        let sp = log_lines(p).push(Seq::<char>::empty());
        assert(sp.last() + x =~= x);
        assert(sp.update(sp.len() - 1, x) =~= log_lines(es));
    }
}

/// The lines of plain entries whose times chrono reads back read as the
/// entries.
proof fn lemma_parse_log_lines(es: Seq<LogEntry>)
    requires
        plain_log(es),
        forall|i: int| 0 <= i < es.len() ==> times_read_back(#[trigger] es[i]),
    ensures
        parse_log_pieces(log_lines(es)) == Ok::<Seq<LogEntry>, LogFailure>(es),
    decreases es.len(),
{
    if es.len() > 0 {
        let p = es.drop_last();
        assert forall|k: int| 0 <= k < p.len() implies plain_entry(#[trigger] p[k]) by {
            assert(p[k] == es[k]);
        }
        assert forall|k: int| 0 <= k < p.len() implies times_read_back(#[trigger] p[k]) by {
            assert(p[k] == es[k]);
        }
        lemma_parse_log_lines(p);
        assert(log_lines(es).drop_last() =~= log_lines(p));
        assert(plain_entry(es[es.len() - 1]));
        assert(times_read_back(es[es.len() - 1]));
        lemma_parse_entry_line(es.len() - 1, es.last());
        let ll = log_lines(es);
        assert(ll.len() == es.len());
        assert(ll.last() == entry_line(es.last()));
        assert(p.push(es.last()) =~= es);
    } else {
        assert(log_lines(es) =~= Seq::<Seq<char>>::empty());
        assert(es =~= Seq::<LogEntry>::empty());
    }
}

/// The text of a log of plain entries whose times chrono reads back reads as
/// the log.
proof fn lemma_parse_log_text(es: Seq<LogEntry>)
    requires
        plain_log(es),
        forall|i: int| 0 <= i < es.len() ==> times_read_back(#[trigger] es[i]),
    ensures
        parse_log_spec(log_text(es)) == Ok::<Seq<LogEntry>, LogFailure>(es),
{
    lemma_split_log_text(es);
    lemma_parse_log_lines(es);
    let pieces = log_lines(es).push(Seq::<char>::empty());
    assert(pieces.drop_last() =~= log_lines(es));
    assert(trim(Seq::<char>::empty()) =~= Seq::<char>::empty());
}

/// A line's outcome as a value.
pub open spec fn line_outcome(r: Option<Result<Entry, TaktError>>) -> Option<Result<LogEntry, LogFailure>> {
    match r {
        None => None,
        Some(Ok(e)) => Some(Ok(e@)),
        Some(Err(TaktError::MalformedLine { line, content })) => Some(
            Err(LogFailure::Malformed(line as int, content@)),
        ),
        Some(Err(TaktError::BadDateTime { line, value, source: _ })) => Some(
            Err(LogFailure::BadDateTime(line as int, value@)),
        ),
        Some(Err(_)) => Some(Err(LogFailure::Other)),
    }
}

/// A parse result as a value.
pub open spec fn log_outcome(r: Result<TaskLog, TaktError>) -> Result<Seq<LogEntry>, LogFailure> {
    match r {
        Ok(l) => Ok(l.model()),
        Err(TaktError::MalformedLine { line, content }) => Err(
            LogFailure::Malformed(line as int, content@),
        ),
        Err(TaktError::BadDateTime { line, value, source: _ }) => Err(
            LogFailure::BadDateTime(line as int, value@),
        ),
        Err(_) => Err(LogFailure::Other),
    }
}

/// Every plain entry whose line is `raw` has times chrono reads back.
pub open spec fn line_reads_back(raw: Seq<char>) -> bool {
    forall|e: LogEntry| plain_entry(e) && #[trigger] entry_line(e) == raw ==> times_read_back(e)
}

/// Reads the date and time in `v[a..b]` once trimmed.
fn read_datetime(content: &str, v: &Vec<char>, a: usize, b: usize) -> (r: Result<
    DateTime,
    chrono::format::ParseError,
>)
    requires
        a <= b <= v.len(),
        v@ == content@,
    ensures
        match r {
            Ok(t) => chrono_parse(trim(v@.subrange(a as int, b as int)), log_datetime_format())
                == Some(t) && valid_datetime(t),
            Err(_) => chrono_parse(trim(v@.subrange(a as int, b as int)), log_datetime_format())
                is None,
        },
        forall|t: DateTime|
            plain_datetime(t) && #[trigger] datetime_text(t) == trim(v@.subrange(a as int, b as int))
                ==> reads_back(t),
{
    let e = trim_end_at(v, a, b);
    let s = trim_start_at(v, a, e);
    let text = content.substring_char(s, e);
    let fmt = "%Y-%m-%d %H:%M:%S";
    proof {
        reveal_strlit("%Y-%m-%d %H:%M:%S");
    }
    assert(fmt@ =~= log_datetime_format());
    assert(text@ == trim(v@.subrange(a as int, b as int)));
    parse_datetime(text, fmt)
}

/// Reads line `k`, the piece `v[a..b]` of `content`.
fn parse_line(content: &str, v: &Vec<char>, a: usize, b: usize, k: usize) -> (r: Option<
    Result<Entry, TaktError>,
>)
    requires
        a <= b <= v.len(),
        v@ == content@,
    ensures
        line_outcome(r) == parse_log_line(k as int, v@.subrange(a as int, b as int)),
        r matches Some(Ok(e)) ==> valid_entry(e@),
        line_reads_back(v@.subrange(a as int, b as int)),
{
    let ghost raw = v@.subrange(a as int, b as int);
    let e = trim_end_at(v, a, b);
    let s = trim_start_at(v, a, e);
    let ghost line = v@.subrange(s as int, e as int);
    assert(line == trim(raw));
    if s == e {
        proof {
            assert forall|en: LogEntry| plain_entry(en) && #[trigger] entry_line(en) == raw implies times_read_back(en) by {
                lemma_entry_line_shape(en);
            }
        }
        return None;
    }
    proof {
        reveal_strlit(" | ");
        reveal_strlit(" -- ");
    }
    let tag_pat = chars_of(" | ");
    let time_pat = chars_of(" -- ");
    assert(tag_pat@ =~= tag_sep());
    assert(time_pat@ =~= time_sep());
    let p = match find_in(v, s, e, &tag_pat) {
        None => {
            proof {
                assert forall|en: LogEntry| plain_entry(en) && #[trigger] entry_line(en) == raw implies times_read_back(en) by {
                    lemma_entry_line_shape(en);
                }
            }
            let text = content.substring_char(s, e);
            return Some(Err(TaktError::MalformedLine { line: k, content: text.to_string() }));
        },
        Some(p) => p,
    };
    proof {
        crate::text::lemma_find_pattern(line, tag_sep());
    }
    let ghost times = line.subrange(0, p as int);
    assert(times =~= v@.subrange(s as int, s + p));
    let q = match find_in(v, s, s + p, &time_pat) {
        None => {
            proof {
                assert forall|en: LogEntry| plain_entry(en) && #[trigger] entry_line(en) == raw implies times_read_back(en) by {
                    lemma_entry_line_shape(en);
                }
            }
            let text = content.substring_char(s, e);
            return Some(Err(TaktError::MalformedLine { line: k, content: text.to_string() }));
        },
        Some(q) => q,
    };
    proof {
        crate::text::lemma_find_pattern(times, time_sep());
    }
    assert(times.subrange(0, q as int) =~= v@.subrange(s as int, s + q));
    assert(times.subrange(q + 4, times.len() as int) =~= v@.subrange(s + q + 4, s + p));
    assert(line.subrange(p + 3, line.len() as int) =~= v@.subrange(s + p + 3, e as int));
    let start = match read_datetime(content, v, s, s + q) {
        Err(err) => {
            proof {
                assert forall|en: LogEntry| plain_entry(en) && #[trigger] entry_line(en) == raw implies times_read_back(en) by {
                    lemma_entry_line_shape(en);
                    assert(datetime_text(en.start) == trim(v@.subrange(s as int, s + q)));
                }
            }
            let text = content.substring_char(s, s + q);
            return Some(
                Err(TaktError::BadDateTime { line: k, value: text.to_string(), source: err }),
            );
        },
        Ok(t) => t,
    };
    let ee = trim_end_at(v, s + q + 4, s + p);
    let es = trim_start_at(v, s + q + 4, ee);
    let te = trim_end_at(v, s + p + 3, e);
    let ts = trim_start_at(v, s + p + 3, te);
    let tag = content.substring_char(ts, te).to_string();
    if ee - es == 1 && v[es] == '*' {
        assert(v@.subrange(es as int, ee as int) =~= seq!['*']);
        proof {
            assert forall|en: LogEntry| plain_entry(en) && #[trigger] entry_line(en) == raw implies times_read_back(en) by {
                lemma_entry_line_shape(en);
                assert(datetime_text(en.start) == trim(v@.subrange(s as int, s + q)));
            }
        }
        return Some(Ok(Entry { start, end: None, tag }));
    }
    assert(v@.subrange(es as int, ee as int) != seq!['*']);
    match read_datetime(content, v, es, ee) {
        Err(err) => {
            proof {
                assert forall|en: LogEntry| plain_entry(en) && #[trigger] entry_line(en) == raw implies times_read_back(en) by {
                    lemma_entry_line_shape(en);
                    assert(datetime_text(en.start) == trim(v@.subrange(s as int, s + q)));
                    if let Some(t) = en.end {
                        lemma_datetime_text_shape(t);
                        lemma_trim_plain(datetime_text(t));
                        assert(datetime_text(t) == trim(v@.subrange(es as int, ee as int)));
                    }
                }
            }
            let text = content.substring_char(es, ee);
            Some(Err(TaktError::BadDateTime { line: k, value: text.to_string(), source: err }))
        },
        Ok(end) => {
            proof {
                assert forall|en: LogEntry| plain_entry(en) && #[trigger] entry_line(en) == raw implies times_read_back(en) by {
                    lemma_entry_line_shape(en);
                    assert(datetime_text(en.start) == trim(v@.subrange(s as int, s + q)));
                    if let Some(t) = en.end {
                        lemma_datetime_text_shape(t);
                        lemma_trim_plain(datetime_text(t));
                        assert(datetime_text(t) == trim(v@.subrange(es as int, ee as int)));
                    }
                }
            }
            Some(Ok(Entry { start, end: Some(end), tag }))
        },
    }
}

impl TaskLog {
    /// Reads log content: one entry per non-blank line.
    pub fn parse(content: &str) -> (r: Result<TaskLog, TaktError>)
        ensures
            log_outcome(r) == parse_log_spec(content@),
            forall|es: Seq<LogEntry>|
                plain_log(es) && #[trigger] log_text(es) == content@ ==> (r matches Ok(l)
                    && l.model() == es),
    {
        let v = chars_of(content);
        let bounds = piece_bounds(&v, '\n');
        let ghost pieces = split_on(v@, '\n');
        let mut entries: Vec<Entry> = Vec::new();
        let mut k: usize = 0;
        assert(pieces.take(0) =~= Seq::<Seq<char>>::empty());
        assert(entries_view(entries@) =~= Seq::<LogEntry>::empty());
        while k < bounds.len()
            invariant
                k <= bounds.len() == pieces.len(),
                pieces == split_on(content@, '\n'),
                v@ == content@,
                forall|j: int|
                    0 <= j < bounds.len() ==> piece_at(v@, #[trigger] bounds[j], v.len() as int, pieces[j]),
                parse_log_pieces(pieces.take(k as int)) == Ok::<Seq<LogEntry>, LogFailure>(
                    entries_view(entries@),
                ),
                forall|i: int| 0 <= i < entries@.len() ==> valid_entry(#[trigger] entries@[i]@),
                forall|j: int| 0 <= j < k ==> line_reads_back(#[trigger] pieces[j]),
            decreases bounds.len() - k,
        {
            let (a, b) = bounds[k];
            assert(piece_at(v@, bounds[k as int], v.len() as int, pieces[k as int]));
            let ghost tk1 = pieces.take(k + 1);
            assert(tk1.drop_last() =~= pieces.take(k as int));
            assert(tk1.last() == pieces[k as int]);
            match parse_line(content, &v, a, b, k) {
                None => {},
                Some(Ok(e)) => {
                    let ghost old_entries = entries@;
                    entries.push(e);
                    assert(entries@.drop_last() =~= old_entries);
                    assert(entries_view(entries@) =~= entries_view(old_entries).push(e@));
                },
                Some(Err(err)) => {
                    proof {
                        lemma_log_err_extends(pieces, k + 1);
                        assert(pieces.take(pieces.len() as int) =~= pieces);
                        assert forall|es: Seq<LogEntry>| plain_log(es) && #[trigger] log_text(es)
                            == content@ implies false by {
                            lemma_split_log_text(es);
                            if k < es.len() {
                                assert(plain_entry(es[k as int]));
                                assert(pieces[k as int] == entry_line(es[k as int]));
                                lemma_parse_entry_line(k as int, es[k as int]);
                            } else {
                                assert(pieces[k as int] =~= Seq::<char>::empty());
                                assert(trim(Seq::<char>::empty()) =~= Seq::<char>::empty());
                            }
                        }
                    }
                    return Err(err);
                },
            }
            k = k + 1;
        }
        assert(pieces.take(pieces.len() as int) =~= pieces);
        proof {
            assert forall|es: Seq<LogEntry>| plain_log(es) && #[trigger] log_text(es) == content@ implies parse_log_spec(
                content@,
            ) == Ok::<Seq<LogEntry>, LogFailure>(es) by {
                lemma_split_log_text(es);
                assert forall|i: int| 0 <= i < es.len() implies times_read_back(#[trigger] es[i]) by {
                    assert(plain_entry(es[i]));
                    assert(pieces[i] == entry_line(es[i]));
                    assert(line_reads_back(pieces[i]));
                }
                lemma_parse_log_text(es);
            }
        }
        Ok(TaskLog { entries })
    }
}

/// The index of the first running entry (one without an end), or -1.
pub open spec fn first_active(es: Seq<LogEntry>) -> int
    decreases es.len(),
{
    if es.len() == 0 {
        -1
    } else {
        let p = first_active(es.drop_last());
        if p >= 0 {
            p
        } else if es.last().end is None {
            es.len() - 1
        } else {
            -1
        }
    }
}

/// At most one entry is running.
pub open spec fn at_most_one_active(es: Seq<LogEntry>) -> bool {
    forall|i: int, j: int|
        0 <= i < es.len() && 0 <= j < es.len() && es[i].end is None && es[j].end is None ==> i == j
}

/// `new` is `old` with entry `k` given an end time and nothing else changed.
pub open spec fn stopped_at(old: Seq<LogEntry>, new: Seq<LogEntry>, k: int) -> bool {
    &&& new.len() == old.len()
    &&& 0 <= k < old.len()
    &&& forall|j: int| 0 <= j < old.len() && j != k ==> new[j] == old[j]
    &&& new[k].start == old[k].start
    &&& new[k].tag == old[k].tag
    &&& new[k].end matches Some(t) && valid_datetime(t)
}

/// The first running entry, when there is one, is running and comes before every other.
pub proof fn lemma_first_active(es: Seq<LogEntry>)
    ensures
        -1 <= first_active(es) < es.len(),
        first_active(es) >= 0 ==> es[first_active(es)].end is None,
        first_active(es) >= 0 ==> forall|j: int| 0 <= j < first_active(es) ==> es[j].end is Some,
        first_active(es) == -1 ==> forall|j: int| 0 <= j < es.len() ==> es[j].end is Some,
    decreases es.len(),
{
    if es.len() > 0 {
        let p = es.drop_last();
        lemma_first_active(p);
        assert(forall|j: int| 0 <= j < p.len() ==> p[j] == es[j]);
    }
}

/// The current local date and time, cut to the whole second: the log keeps no
/// fraction of a second.
fn now_whole_seconds() -> (r: DateTime)
    ensures
        valid_datetime(r),
        r.nanosecond == 0,
{
    let t = now();
    DateTime { nanosecond: 0, ..t }
}

/// The line of one entry, without its newline.
fn entry_text(e: &Entry) -> (r: String)
    requires
        valid_entry(e@),
    ensures
        r@ == entry_line(e@),
{
    proof {
        reveal_strlit(" -- ");
        reveal_strlit(" | ");
        reveal_strlit("*");
    }
    let mut out = format_datetime(&e.start);
    out.append(" -- ");
    match e.end {
        Some(t) => {
            out.append(format_datetime(&t).as_str());
        },
        None => {
            out.append("*");
        },
    }
    out.append(" | ");
    out.append(e.tag.as_str());
    assert(out@ =~= entry_line(e@));
    out
}

impl TaskLog {
    /// The text form of this log.
    pub fn write(&self) -> (r: String)
        ensures
            r@ == log_text(self.model()),
    {
        proof {
            use_type_invariant(self);
        }
        let mut out = String::new();
        let mut i: usize = 0;
        assert(self.entries@.take(0) =~= Seq::<Entry>::empty());
        assert(entries_view(self.entries@.take(0)) =~= Seq::<LogEntry>::empty());
        while i < self.entries.len()
            invariant
                i <= self.entries.len(),
                forall|j: int| 0 <= j < self.entries@.len() ==> valid_entry(#[trigger] self.entries@[j]@),
                out@ == log_text(entries_view(self.entries@.take(i as int))),
            decreases self.entries.len() - i,
        {
            proof {
                reveal_strlit("\n");
            }
            let e = &self.entries[i];
            assert(valid_entry(self.entries@[i as int]@));
            let ghost before = out@;
            let line = entry_text(e);
            out.append(line.as_str());
            out.append("\n");
            proof {
                let ev = entries_view(self.entries@.take(i + 1));
                assert(ev.drop_last() =~= entries_view(self.entries@.take(i as int)));
                assert(ev.last() == e@);
                assert(out@ =~= before + entry_line(e@) + seq!['\n']);
            }
            i = i + 1;
        }
        assert(self.entries@.take(self.entries.len() as int) =~= self.entries@);
        out
    }

    /// The first running entry, if any.
    pub fn active(&self) -> (r: Option<&Entry>)
        ensures
            match r {
                Some(e) => first_active(self.model()) >= 0 && e@ == self.model()[first_active(
                    self.model(),
                )],
                None => first_active(self.model()) == -1,
            },
    {
        match self.position_active() {
            Some(k) => Some(&self.entries[k]),
            None => None,
        }
    }

    /// The index of the first running entry, if any.
    fn position_active(&self) -> (r: Option<usize>)
        ensures
            match r {
                Some(k) => k as int == first_active(self.model()) && k < self.entries.len(),
                None => first_active(self.model()) == -1,
            },
    {
        let ghost m = self.model();
        proof {
            lemma_first_active(m);
        }
        let mut i: usize = 0;
        while i < self.entries.len()
            invariant
                i <= self.entries.len(),
                m == self.model(),
                m.len() == self.entries.len(),
                forall|j: int| 0 <= j < i ==> m[j].end is Some,
            decreases self.entries.len() - i,
        {
            assert(m[i as int] == self.entries@[i as int]@);
            if self.entries[i].end.is_none() {
                proof {
                    lemma_first_active(m);
                    let f = first_active(m);
                    if f == -1 {
                        assert(m[i as int].end is Some);
                    } else if f < i {
                        assert(m[f].end is Some);
                    } else if f > i {
                        assert(m[i as int].end is Some);
                    }
                }
                return Some(i);
            }
            i = i + 1;
        }
        proof {
            lemma_first_active(m);
            if first_active(m) >= 0 {
                assert(m[first_active(m)].end is Some);
            }
        }
        None
    }

    /// All entries, in order.
    pub fn entries(&self) -> (r: &[Entry])
        ensures
            entries_view(r@) == self.model(),
    {
        self.entries.as_slice()
    }

    /// Ends the first running entry at `at`; fails with `NoActiveTask` when no
    /// entry is running.
    pub fn stop_at(&mut self, at: DateTime) -> (r: Result<(), TaktError>)
        requires
            valid_datetime(at),
        ensures
            ({
                let k = first_active(old(self).model());
                &&& k == -1 ==> (r matches Err(TaktError::NoActiveTask) && final(self).model()
                    == old(self).model())
                &&& k >= 0 ==> (r is Ok && final(self).model() == old(self).model().update(
                    k,
                    LogEntry {
                        start: old(self).model()[k].start,
                        end: Some(at),
                        tag: old(self).model()[k].tag,
                    },
                ))
                &&& plain_log(old(self).model()) && plain_datetime(at) ==> plain_log(
                    final(self).model(),
                )
            }),
    {
        proof {
            use_type_invariant(&*self);
        }
        match self.position_active() {
            None => Err(TaktError::NoActiveTask),
            Some(k) => {
                let ghost old_entries = self.entries@;
                let updated = Entry {
                    start: self.entries[k].start,
                    end: Some(at),
                    tag: self.entries[k].tag.clone(),
                };
                let mut entries: Vec<Entry> = Vec::new();
                std::mem::swap(&mut entries, &mut self.entries);
                entries.set(k, updated);
                self.entries = entries;
                assert(entries_view(self.entries@) =~= entries_view(old_entries).update(
                    k as int,
                    updated@,
                ));
                Ok(())
            },
        }
    }

    /// Ends the first running entry now, to the whole second; fails with
    /// `NoActiveTask` when no entry is running.
    pub fn stop(&mut self) -> (r: Result<(), TaktError>)
        ensures
            ({
                let k = first_active(old(self).model());
                &&& k == -1 ==> (r matches Err(TaktError::NoActiveTask) && final(self).model()
                    == old(self).model())
                &&& k >= 0 ==> (r is Ok && stopped_at(old(self).model(), final(self).model(), k)
                    && final(self).model()[k].end->Some_0.nanosecond == 0)
                &&& plain_log(old(self).model()) ==> plain_log(final(self).model())
            }),
    {
        let at = now_whole_seconds();
        proof {
            lemma_first_active(self.model());
        }
        self.stop_at(at)
    }

    /// Starts a new running entry for `tag` at `at`, ending the running one,
    /// if any, at `at` first. When at most one entry was running, the new one is
    /// the only one running.
    pub fn start_at(&mut self, tag: &str, at: DateTime)
        requires
            valid_datetime(at),
        ensures
            ({
                let old_m = old(self).model();
                let new_m = final(self).model();
                let k = first_active(old_m);
                &&& new_m.len() == old_m.len() + 1
                &&& new_m.last() == LogEntry { start: at, end: None, tag: tag@ }
                &&& k == -1 ==> new_m.drop_last() == old_m
                &&& k >= 0 ==> new_m.drop_last() == old_m.update(
                    k,
                    LogEntry { start: old_m[k].start, end: Some(at), tag: old_m[k].tag },
                )
                &&& at_most_one_active(old_m) ==> (at_most_one_active(new_m) && first_active(new_m)
                    == old_m.len())
                &&& plain_log(old_m) && plain_tag(tag@) && plain_datetime(at) ==> plain_log(new_m)
            }),
    {
        let ghost old_m = self.model();
        proof {
            lemma_first_active(old_m);
        }
        if self.position_active().is_some() {
            let _ = self.stop_at(at);
        }
        proof {
            use_type_invariant(&*self);
        }
        let ghost mid = self.model();
        let entry = Entry { start: at, end: None, tag: tag.to_string() };
        let mut entries: Vec<Entry> = Vec::new();
        std::mem::swap(&mut entries, &mut self.entries);
        let ghost before = entries@;
        entries.push(entry);
        assert(forall|j: int| 0 <= j < before.len() ==> entries@[j] == before[j]);
        self.entries = entries;
        proof {
            assert(self.entries@.drop_last() =~= before);
            assert(entries_view(self.entries@) =~= mid.push(entry@));
            assert(self.model().drop_last() =~= mid);
            let new_m = self.model();
            if at_most_one_active(old_m) {
                let k = first_active(old_m);
                assert forall|i: int| 0 <= i < new_m.len() && new_m[i].end is None implies i
                    == old_m.len() by {
                    if i < old_m.len() {
                        assert(new_m[i] == mid[i]);
                        if k >= 0 && i != k {
                            assert(old_m[i].end is None);
                        }
                    }
                }
                lemma_first_active(new_m);
                let f = first_active(new_m);
                if f >= 0 && f < old_m.len() {
                    assert(new_m[f].end is None);
                }
                if f == -1 {
                    assert(new_m[old_m.len() as int].end is None);
                }
            }
        }
    }

    /// Starts a new running entry for `tag` now, to the whole second, ending the
    /// running one, if any, at the same moment. When at most one entry was
    /// running, the new one is the only one running.
    pub fn start(&mut self, tag: &str) -> (r: Result<(), TaktError>)
        ensures
            r is Ok,
            ({
                let old_m = old(self).model();
                let new_m = final(self).model();
                let k = first_active(old_m);
                let at = new_m.last().start;
                &&& new_m.len() == old_m.len() + 1
                &&& new_m.last().end is None
                &&& new_m.last().tag == tag@
                &&& valid_datetime(at)
                &&& at.nanosecond == 0
                &&& k == -1 ==> new_m.drop_last() == old_m
                &&& k >= 0 ==> new_m.drop_last() == old_m.update(
                    k,
                    LogEntry { start: old_m[k].start, end: Some(at), tag: old_m[k].tag },
                )
                &&& at_most_one_active(old_m) ==> (at_most_one_active(new_m) && first_active(new_m)
                    == old_m.len())
                &&& plain_log(old_m) && plain_tag(tag@) ==> plain_log(new_m)
            }),
    {
        let at = now_whole_seconds();
        self.start_at(tag, at);
        Ok(())
    }

}

} // verus!
