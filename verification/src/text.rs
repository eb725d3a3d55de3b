//! Character-level text utilities: whitespace, trimming, splitting and joining.
use vstd::prelude::*;

verus! {

broadcast use vstd::string::group_string_axioms;

/// Unicode `White_Space`, the property that `char::is_whitespace` tests.
pub open spec fn is_ws(c: char) -> bool {
    ||| ('\u{9}' <= c && c <= '\u{d}')
    ||| c == ' '
    ||| c == '\u{85}'
    ||| c == '\u{a0}'
    ||| c == '\u{1680}'
    ||| ('\u{2000}' <= c && c <= '\u{200a}')
    ||| c == '\u{2028}'
    ||| c == '\u{2029}'
    ||| c == '\u{202f}'
    ||| c == '\u{205f}'
    ||| c == '\u{3000}'
}

/// Whether `c` is whitespace.
pub fn is_whitespace(c: char) -> (r: bool)
    ensures
        r == is_ws(c),
{
    ('\u{9}' <= c && c <= '\u{d}') || c == ' ' || c == '\u{85}' || c == '\u{a0}' || c == '\u{1680}'
        || ('\u{2000}' <= c && c <= '\u{200a}') || c == '\u{2028}' || c == '\u{2029}' || c
        == '\u{202f}' || c == '\u{205f}' || c == '\u{3000}'
}

/// `s` without its trailing whitespace.
pub open spec fn trim_end(s: Seq<char>) -> Seq<char>
    decreases s.len(),
{
    if s.len() > 0 && is_ws(s.last()) {
        trim_end(s.drop_last())
    } else {
        s
    }
}

/// `s` without its leading whitespace.
pub open spec fn trim_start(s: Seq<char>) -> Seq<char>
    decreases s.len(),
{
    if s.len() > 0 && is_ws(s[0]) {
        trim_start(s.drop_first())
    } else {
        s
    }
}

/// `s` without leading and trailing whitespace.
pub open spec fn trim(s: Seq<char>) -> Seq<char> {
    trim_start(trim_end(s))
}

/// Text that starts and ends with a character other than whitespace is its own
/// trim.
pub proof fn lemma_trim_plain(s: Seq<char>)
    requires
        s.len() > 0,
        !is_ws(s[0]),
        !is_ws(s.last()),
    ensures
        trim(s) == s,
{
}

/// Text that is its own trim, and not empty, starts and ends with a character
/// other than whitespace.
pub proof fn lemma_trimmed_ends(s: Seq<char>)
    requires
        s.len() > 0,
        trim(s) == s,
    ensures
        !is_ws(s[0]),
        !is_ws(s.last()),
{
    if is_ws(s.last()) {
        lemma_trim_end_shorter(s);
        lemma_trim_start_shorter(trim_end(s));
    } else if is_ws(s[0]) {
        lemma_trim_start_shorter(s);
    }
}

/// Trimming the end never lengthens, and shortens text ending in whitespace.
proof fn lemma_trim_end_shorter(s: Seq<char>)
    ensures
        trim_end(s).len() <= s.len(),
        s.len() > 0 && is_ws(s.last()) ==> trim_end(s).len() < s.len(),
    decreases s.len(),
{
    if s.len() > 0 && is_ws(s.last()) {
        lemma_trim_end_shorter(s.drop_last());
    }
}

/// Trimming the start never lengthens, and shortens text starting with whitespace.
proof fn lemma_trim_start_shorter(s: Seq<char>)
    ensures
        trim_start(s).len() <= s.len(),
        s.len() > 0 && is_ws(s[0]) ==> trim_start(s).len() < s.len(),
    decreases s.len(),
{
    if s.len() > 0 && is_ws(s[0]) {
        lemma_trim_start_shorter(s.drop_first());
    }
}

/// The pieces of `s` between occurrences of `sep`; there is always at least one piece.
pub open spec fn split_on(s: Seq<char>, sep: char) -> Seq<Seq<char>>
    decreases s.len(),
{
    if s.len() == 0 {
        seq![Seq::<char>::empty()]
    } else {
        let p = split_on(s.drop_last(), sep);
        if s.last() == sep {
            p.push(Seq::<char>::empty())
        } else {
            p.update(p.len() - 1, p.last().push(s.last()))
        }
    }
}

/// Splitting never yields an empty list of pieces.
pub proof fn lemma_split_nonempty(s: Seq<char>, sep: char)
    ensures
        split_on(s, sep).len() >= 1,
    decreases s.len(),
{
    if s.len() > 0 {
        lemma_split_nonempty(s.drop_last(), sep);
    }
}

/// No piece holds the separator.
pub proof fn lemma_split_pieces_free(s: Seq<char>, sep: char)
    ensures
        forall|k: int, i: int|
            0 <= k < split_on(s, sep).len() && 0 <= i < split_on(s, sep)[k].len() ==> #[trigger] split_on(
                s,
                sep,
            )[k][i] != sep,
    decreases s.len(),
{
    if s.len() > 0 {
        lemma_split_pieces_free(s.drop_last(), sep);
        lemma_split_nonempty(s.drop_last(), sep);
        let p = split_on(s.drop_last(), sep);
        let q = split_on(s, sep);
        assert forall|k: int, i: int| 0 <= k < q.len() && 0 <= i < q[k].len() implies #[trigger] q[k][i]
            != sep by {
            if s.last() == sep {
                if k < p.len() {
                    assert(q[k] == p[k]);
                }
            } else if k < p.len() - 1 {
                assert(q[k] == p[k]);
            } else {
                assert(q[k] == p.last().push(s.last()));
                if i < p.last().len() {
                    assert(q[k][i] == p[p.len() - 1][i]);
                }
            }
        }
    }
}

/// `b` bounds a piece of `s` that ends at or before `limit` and holds `piece`.
pub open spec fn piece_at(s: Seq<char>, b: (usize, usize), limit: int, piece: Seq<char>) -> bool {
    &&& b.0 <= b.1 <= limit
    &&& s.subrange(b.0 as int, b.1 as int) == piece
}

/// The bounds `(start, end)` of each piece of `v` between occurrences of `sep`.
pub fn piece_bounds(v: &Vec<char>, sep: char) -> (b: Vec<(usize, usize)>)
    ensures
        b.len() == split_on(v@, sep).len(),
        forall|k: int|
            0 <= k < b.len() ==> piece_at(v@, #[trigger] b[k], v.len() as int, split_on(v@, sep)[k]),
{
    let mut b: Vec<(usize, usize)> = Vec::new();
    let mut start: usize = 0;
    let mut j: usize = 0;
    assert(v@.take(0) =~= Seq::<char>::empty());
    while j < v.len()
        invariant
            start <= j <= v.len(),
            split_on(v@.take(j as int), sep).len() == b.len() + 1,
            forall|k: int| 0 <= k < b.len() ==> piece_at(v@, #[trigger] b[k], j as int, split_on(v@.take(j as int), sep)[k]),
            split_on(v@.take(j as int), sep).last() == v@.subrange(start as int, j as int),
        decreases v.len() - j,
    {
        let ghost t = v@.take(j as int);
        let ghost t1 = v@.take(j + 1);
        assert(t1.drop_last() =~= t);
        assert(t1.last() == v@[j as int]);
        proof {
            lemma_split_nonempty(t, sep);
        }
        let ghost old_b = b@;
        if v[j] == sep {
            b.push((start, j));
            assert(forall|k: int|
                0 <= k < b.len() ==> split_on(t1, sep)[k] == split_on(t, sep)[k]);
            start = j + 1;
            assert(v@.subrange(start as int, j + 1) =~= Seq::<char>::empty());
        } else {
            assert(v@.subrange(start as int, j + 1) =~= v@.subrange(start as int, j as int).push(
                v@[j as int],
            ));
            assert(forall|k: int|
                0 <= k < b.len() ==> split_on(t1, sep)[k] == split_on(t, sep)[k]);
        }
        j = j + 1;
        assert forall|k: int| 0 <= k < b.len() implies piece_at(v@, #[trigger] b[k], j as int, split_on(v@.take(j as int), sep)[k]) by {
            if k < old_b.len() {
                assert(b[k] == old_b[k]);
            }
        }
    }
    assert(v@.take(v.len() as int) =~= v@);
    b.push((start, j));
    b
}

/// The end of `v[a..b]` once its trailing whitespace is removed.
pub fn trim_end_at(v: &Vec<char>, a: usize, b: usize) -> (e: usize)
    requires
        a <= b <= v.len(),
    ensures
        a <= e <= b,
        v@.subrange(a as int, e as int) == trim_end(v@.subrange(a as int, b as int)),
{
    let mut e = b;
    while e > a && is_whitespace(v[e - 1])
        invariant
            a <= e <= b <= v.len(),
            trim_end(v@.subrange(a as int, b as int)) == trim_end(v@.subrange(a as int, e as int)),
        decreases e,
    {
        assert(v@.subrange(a as int, e as int).drop_last() =~= v@.subrange(a as int, e - 1));
        e = e - 1;
    }
    e
}

/// The start of `v[a..b]` once its leading whitespace is removed.
pub fn trim_start_at(v: &Vec<char>, a: usize, b: usize) -> (s: usize)
    requires
        a <= b <= v.len(),
    ensures
        a <= s <= b,
        v@.subrange(s as int, b as int) == trim_start(v@.subrange(a as int, b as int)),
{
    let mut s = a;
    while s < b && is_whitespace(v[s])
        invariant
            a <= s <= b <= v.len(),
            trim_start(v@.subrange(a as int, b as int)) == trim_start(v@.subrange(s as int, b as int)),
        decreases b - s,
    {
        assert(v@.subrange(s as int, b as int).drop_first() =~= v@.subrange(s + 1, b as int));
        s = s + 1;
    }
    s
}

/// Whether two strings hold the same characters.
pub(crate) fn str_eq(a: &str, b: &str) -> (r: bool)
    ensures
        r == (a@ == b@),
{
    let x = chars_of(a);
    let y = chars_of(b);
    if x.len() != y.len() {
        return false;
    }
    let mut i: usize = 0;
    while i < x.len()
        invariant
            i <= x.len() == y.len(),
            x@ == a@,
            y@ == b@,
            forall|k: int| 0 <= k < i ==> x@[k] == y@[k],
        decreases x.len() - i,
    {
        if x[i] != y[i] {
            return false;
        }
        i = i + 1;
    }
    assert(x@ =~= y@);
    true
}

/// Appending text without `sep` extends the last piece.
pub proof fn lemma_split_append_plain(a: Seq<char>, b: Seq<char>, sep: char)
    requires
        forall|i: int| 0 <= i < b.len() ==> b[i] != sep,
    ensures
        split_on(a + b, sep) == split_on(a, sep).update(
            split_on(a, sep).len() - 1,
            split_on(a, sep).last() + b,
        ),
    decreases b.len(),
{
    lemma_split_nonempty(a, sep);
    if b.len() == 0 {
        assert(a + b =~= a);
        assert(split_on(a, sep).last() + b =~= split_on(a, sep).last());
        assert(split_on(a, sep).update(split_on(a, sep).len() - 1, split_on(a, sep).last())
            =~= split_on(a, sep));
    } else {
        lemma_split_append_plain(a, b.drop_last(), sep);
        assert((a + b).drop_last() =~= a + b.drop_last());
        assert((a + b).last() == b.last());
        let s = split_on(a, sep);
        let p = split_on(a + b.drop_last(), sep);
        assert(p == s.update(s.len() - 1, s.last() + b.drop_last()));
        assert(p.len() == s.len());
        assert(p.last() == s.last() + b.drop_last());
        assert((s.last() + b.drop_last()).push(b.last()) =~= s.last() + b);
        assert(split_on(a + b, sep) == p.update(p.len() - 1, p.last().push(b.last())));
        assert(p.update(p.len() - 1, p.last().push(b.last())) =~= s.update(s.len() - 1, s.last() + b));
    }
}

/// `pat` occurs in `s` at index `i`.
pub open spec fn occurs_at(s: Seq<char>, pat: Seq<char>, i: int) -> bool {
    0 <= i && i + pat.len() <= s.len() && s.subrange(i, i + pat.len()) == pat
}

/// The index of the first occurrence of `pat` in `s`, or -1.
pub open spec fn find_pattern(s: Seq<char>, pat: Seq<char>) -> int
    decreases s.len(),
{
    if s.len() < pat.len() {
        -1
    } else if s.len() == 0 {
        if pat.len() == 0 {
            0
        } else {
            -1
        }
    } else {
        let r = find_pattern(s.drop_last(), pat);
        if r >= 0 {
            r
        } else if occurs_at(s, pat, s.len() - pat.len()) {
            s.len() - pat.len()
        } else {
            -1
        }
    }
}

/// `find_pattern` gives the first occurrence, or -1 when there is none.
pub proof fn lemma_find_pattern(s: Seq<char>, pat: Seq<char>)
    ensures
        find_pattern(s, pat) >= 0 ==> occurs_at(s, pat, find_pattern(s, pat)) && forall|j: int|
            0 <= j < find_pattern(s, pat) ==> !occurs_at(s, pat, j),
        find_pattern(s, pat) == -1 ==> forall|j: int| 0 <= j ==> !occurs_at(s, pat, j),
        find_pattern(s, pat) >= -1,
    decreases s.len(),
{
    if s.len() < pat.len() {
    } else if s.len() == 0 {
        assert(s.subrange(0, 0) =~= pat);
    } else {
        let p = s.drop_last();
        lemma_find_pattern(p, pat);
        assert forall|j: int| 0 <= j && j + pat.len() <= p.len() implies occurs_at(p, pat, j)
            == occurs_at(s, pat, j) by {
            assert(p.subrange(j, j + pat.len()) =~= s.subrange(j, j + pat.len()));
        }
    }
}

/// The first occurrence is the one with none before it.
pub proof fn lemma_find_first(s: Seq<char>, pat: Seq<char>, i: int)
    requires
        occurs_at(s, pat, i),
        forall|j: int| 0 <= j < i ==> !occurs_at(s, pat, j),
    ensures
        find_pattern(s, pat) == i,
{
    lemma_find_pattern(s, pat);
    let f = find_pattern(s, pat);
    if f == -1 {
        assert(!occurs_at(s, pat, i));
    } else if f > i {
        assert(!occurs_at(s, pat, i));
    }
}

/// The index of the first occurrence of `pat` in `v[a..b]`, counted from `a`.
pub fn find_in(v: &Vec<char>, a: usize, b: usize, pat: &Vec<char>) -> (r: Option<usize>)
    requires
        a <= b <= v.len(),
    ensures
        match r {
            Some(i) => i as int == find_pattern(v@.subrange(a as int, b as int), pat@),
            None => find_pattern(v@.subrange(a as int, b as int), pat@) == -1,
        },
{
    let ghost s = v@.subrange(a as int, b as int);
    proof {
        lemma_find_pattern(s, pat@);
    }
    if b - a < pat.len() {
        assert forall|j: int| 0 <= j implies !occurs_at(s, pat@, j) by {}
        proof {
            if find_pattern(s, pat@) >= 0 {
                assert(occurs_at(s, pat@, find_pattern(s, pat@)));
            }
        }
        return None;
    }
    let last = b - a - pat.len();
    let mut i: usize = 0;
    while i <= last
        invariant
            a <= b <= v.len(),
            last == b - a - pat.len(),
            s == v@.subrange(a as int, b as int),
            forall|j: int| 0 <= j < i ==> !occurs_at(s, pat@, j),
        decreases last + 1 - i,
    {
        let mut k: usize = 0;
        let mut same = true;
        while k < pat.len()
            invariant
                a <= b <= v.len(),
                i <= last == b - a - pat.len(),
                k <= pat.len(),
                same == (forall|m: int| 0 <= m < k ==> v@[a + i + m] == pat@[m]),
            decreases pat.len() - k,
        {
            if v[a + i + k] != pat[k] {
                same = false;
            }
            k = k + 1;
        }
        assert(same == occurs_at(s, pat@, i as int)) by {
            if same {
                assert(s.subrange(i as int, i + pat.len()) =~= pat@);
            } else {
                let m = choose|m: int| 0 <= m < pat.len() && v@[a + i + m] != pat@[m];
                assert(s.subrange(i as int, i + pat.len())[m] != pat@[m]);
            }
        }
        if same {
            proof {
                lemma_find_pattern(s, pat@);
                let f = find_pattern(s, pat@);
                if f == -1 {
                    assert(!occurs_at(s, pat@, i as int));
                } else if f < i {
                    assert(occurs_at(s, pat@, f));
                } else if f > i {
                    assert(!occurs_at(s, pat@, i as int));
                }
            }
            return Some(i);
        }
        if i == last {
            proof {
                lemma_find_pattern(s, pat@);
                let f = find_pattern(s, pat@);
                if f >= 0 {
                    assert(occurs_at(s, pat@, f));
                    assert(f <= last);
                }
            }
            return None;
        }
        i = i + 1;
    }
    None
}

/// `a` sorts before `b`: compared character by character by code point, a proper
/// prefix first (the order of `str`, whose UTF-8 bytes sort the same way).
pub open spec fn seq_less(a: Seq<char>, b: Seq<char>) -> bool
    decreases a.len(),
{
    if a.len() == 0 {
        b.len() > 0
    } else if b.len() == 0 {
        false
    } else if a[0] != b[0] {
        (a[0] as int) < (b[0] as int)
    } else {
        seq_less(a.drop_first(), b.drop_first())
    }
}

/// No text sorts before itself.
pub proof fn lemma_seq_less_irreflexive(a: Seq<char>)
    ensures
        !seq_less(a, a),
    decreases a.len(),
{
    if a.len() > 0 {
        lemma_seq_less_irreflexive(a.drop_first());
    }
}

/// Sorting before is transitive.
pub proof fn lemma_seq_less_transitive(a: Seq<char>, b: Seq<char>, c: Seq<char>)
    requires
        seq_less(a, b),
        seq_less(b, c),
    ensures
        seq_less(a, c),
    decreases a.len(),
{
    if a.len() > 0 && b.len() > 0 && c.len() > 0 && a[0] == b[0] && b[0] == c[0] {
        lemma_seq_less_transitive(a.drop_first(), b.drop_first(), c.drop_first());
    }
}

/// Of two different texts, one sorts before the other.
pub proof fn lemma_seq_less_total(a: Seq<char>, b: Seq<char>)
    requires
        a != b,
    ensures
        seq_less(a, b) || seq_less(b, a),
    decreases a.len(),
{
    if a.len() == 0 {
        if b.len() == 0 {
            assert(a =~= b);
        }
    } else if b.len() == 0 {
    } else if a[0] == b[0] {
        if a.drop_first() == b.drop_first() {
            assert(a =~= seq![a[0]] + a.drop_first());
            assert(b =~= seq![b[0]] + b.drop_first());
        }
        lemma_seq_less_total(a.drop_first(), b.drop_first());
    } else {
        assert((a[0] as int) != (b[0] as int));
    }
}

/// Whether `a` sorts before `b`.
pub fn str_less(a: &str, b: &str) -> (r: bool)
    ensures
        r == seq_less(a@, b@),
{
    let x = chars_of(a);
    let y = chars_of(b);
    let mut i: usize = 0;
    assert(x@.skip(0) =~= x@);
    assert(y@.skip(0) =~= y@);
    while i < x.len() && i < y.len()
        invariant
            i <= x.len(),
            i <= y.len(),
            seq_less(x@, y@) == seq_less(x@.skip(i as int), y@.skip(i as int)),
            x@ == a@,
            y@ == b@,
        decreases x.len() - i,
    {
        if x[i] != y[i] {
            assert(x@.skip(i as int)[0] == x@[i as int]);
            assert(y@.skip(i as int)[0] == y@[i as int]);
            let r = x[i] < y[i];
            assert(r == ((x@[i as int] as int) < (y@[i as int] as int)));
            return r;
        }
        assert(x@.skip(i as int).drop_first() =~= x@.skip(i + 1));
        assert(y@.skip(i as int).drop_first() =~= y@.skip(i + 1));
        i = i + 1;
    }
    i == x.len() && i < y.len()
}

/// The characters of `s`, in order.
pub fn chars_of(s: &str) -> (v: Vec<char>)
    ensures
        v@ == s@,
{
    let mut v: Vec<char> = Vec::new();
    for c in it: s.chars()
        invariant
            v@ == it.seq().take(it.index() as int),
            it.seq() == s@,
    {
        v.push(c);
    }
    v
}

} // verus!
