//! The tag tree: an indentation-based hierarchy of tag names.
//!
//! The text form has one tag per line, indented by two spaces per level:
//!
//! ```text
//! work
//!   project-x
//!     fix-bug
//! study
//! ```
use vstd::prelude::*;

use crate::error::TaktError;
use crate::text::{
    chars_of, is_whitespace, is_ws, lemma_split_append_plain, lemma_split_nonempty, piece_at,
    piece_bounds, split_on, str_eq, trim_end, trim_end_at,
};

verus! {

broadcast use vstd::string::group_string_axioms;

/// A tag as a value: its name and its sub-tags, in order.
pub struct Tag {
    pub name: Seq<char>,
    pub children: Seq<Tag>,
}

/// One node of the tag tree.
#[derive(Debug)]
pub struct TagNode {
    name: String,
    children: Vec<TagNode>,
}

/// The hierarchy of tags.
#[derive(Debug)]
pub struct TagTree {
    root: Vec<TagNode>,
}

impl TagNode {
    /// This node as a value.
    pub closed spec fn model(self) -> Tag
        decreases self,
    {
        Tag { name: self.name@, children: models(self.children@) }
    }
}

/// A sequence of nodes as values.
pub closed spec fn models(s: Seq<TagNode>) -> Seq<Tag>
    decreases s,
{
    if s.len() == 0 {
        Seq::empty()
    } else {
        models(s.drop_last()).push(s.last().model())
    }
}

impl TagTree {
    /// The top-level tags of this tree, as values.
    pub closed spec fn model(self) -> Seq<Tag> {
        models(self.root@)
    }
}

/// The values of a sequence of nodes, one per node.
pub proof fn lemma_models(s: Seq<TagNode>)
    ensures
        models(s).len() == s.len(),
        forall|i: int| 0 <= i < s.len() ==> #[trigger] models(s)[i] == s[i].model(),
    decreases s.len(),
{
    if s.len() > 0 {
        lemma_models(s.drop_last());
    }
}

/// The values of the first `i + 1` nodes extend those of the first `i`.
proof fn lemma_models_take(s: Seq<TagNode>, i: int)
    requires
        0 <= i < s.len(),
    ensures
        models(s.take(i + 1)) == models(s.take(i)).push(s[i].model()),
{
    assert(s.take(i + 1).drop_last() =~= s.take(i));
}

/// The lines of a forest whose top level sits at depth `d`, in order: each tag's
/// depth and name, followed by the lines of its sub-tags.
pub open spec fn outline(f: Seq<Tag>, d: int) -> Seq<(int, Seq<char>)>
    decreases f,
{
    if f.len() == 0 {
        Seq::empty()
    } else {
        outline(f.drop_last(), d) + seq![(d, f.last().name)] + outline(f.last().children, d + 1)
    }
}

/// `n` spaces.
pub open spec fn spaces(n: int) -> Seq<char> {
    Seq::new(n as nat, |_i: int| ' ')
}

/// The text of one tag line: two spaces per level of depth, the name, a newline.
pub open spec fn line_text(l: (int, Seq<char>)) -> Seq<char> {
    spaces(2 * l.0) + l.1 + seq!['\n']
}

/// The text of a sequence of tag lines.
pub open spec fn outline_text(o: Seq<(int, Seq<char>)>) -> Seq<char>
    decreases o.len(),
{
    if o.len() == 0 {
        Seq::empty()
    } else {
        outline_text(o.drop_last()) + line_text(o.last())
    }
}

/// The text form of a forest of tags.
pub open spec fn tree_text(f: Seq<Tag>) -> Seq<char> {
    outline_text(outline(f, 0))
}

/// The text of joined outlines is the joined texts.
pub proof fn lemma_outline_text_concat(a: Seq<(int, Seq<char>)>, b: Seq<(int, Seq<char>)>)
    ensures
        outline_text(a + b) == outline_text(a) + outline_text(b),
    decreases b.len(),
{
    if b.len() == 0 {
        assert(a + b =~= a);
    } else {
        lemma_outline_text_concat(a, b.drop_last());
        assert((a + b).drop_last() =~= a + b.drop_last());
    }
}

/// Appends the text of `nodes`, whose top level sits at `depth`, to `out`;
/// `indent` holds the two spaces per level of that depth.
fn write_nodes(nodes: &Vec<TagNode>, indent: &String, Ghost(depth): Ghost<int>, out: &mut String)
    requires
        depth >= 0,
        indent@ == spaces(2 * depth),
    ensures
        final(out)@ == old(out)@ + outline_text(outline(models(nodes@), depth)),
    decreases nodes@,
{
    let ghost start = out@;
    let mut i: usize = 0;
    proof {
        lemma_models(nodes@);
        assert(nodes@.take(0) =~= Seq::<TagNode>::empty());
        reveal_strlit("  ");
        reveal_strlit("\n");
    }
    let mut child_indent = indent.clone();
    child_indent.append("  ");
    assert(child_indent@ =~= spaces(2 * (depth + 1)));
    while i < nodes.len()
        invariant
            i <= nodes.len(),
            depth >= 0,
            indent@ == spaces(2 * depth),
            child_indent@ == spaces(2 * (depth + 1)),
            out@ == start + outline_text(outline(models(nodes@.take(i as int)), depth)),
        decreases nodes.len() - i,
    {
        let node = &nodes[i];
        proof {
            lemma_models(nodes@);
            lemma_models_take(nodes@, i as int);
            reveal_strlit("\n");
        }
        let ghost before = out@;
        out.append(indent.as_str());
        out.append(node.name.as_str());
        out.append("\n");
        assert(out@ =~= before + line_text((depth, node.model().name)));
        write_nodes(&node.children, &child_indent, Ghost(depth + 1), out);
        proof {
            let m = models(nodes@.take(i as int));
            let t = node.model();
            assert(models(nodes@.take(i + 1)) == m.push(t));
            assert(m.push(t).drop_last() =~= m);
            let o1 = outline(m, depth);
            let o2 = seq![(depth, t.name)];
            let o3 = outline(t.children, depth + 1);
            assert(outline(m.push(t), depth) == o1 + o2 + o3);
            lemma_outline_text_concat(o1 + o2, o3);
            lemma_outline_text_concat(o1, o2);
            assert(o2.drop_last() =~= Seq::<(int, Seq<char>)>::empty());
            assert(outline_text(o2.drop_last()) =~= Seq::<char>::empty());
            assert(o2.last() == (depth, t.name));
            assert(outline_text(o2) =~= line_text((depth, t.name)));
        }
        i = i + 1;
    }
    assert(nodes@.take(nodes.len() as int) =~= nodes@);
}

impl TagTree {
    /// The text form of this tree.
    pub fn write(&self) -> (r: String)
        ensures
            r@ == tree_text(self.model()),
    {
        let mut out = String::new();
        let indent = String::new();
        assert(indent@ =~= spaces(0));
        write_nodes(&self.root, &indent, Ghost(0), &mut out);
        out
    }
}

/// The number of spaces at the start of `s`.
pub open spec fn leading_spaces(s: Seq<char>) -> nat
    decreases s.len(),
{
    if s.len() > 0 && s[0] == ' ' {
        1 + leading_spaces(s.drop_first())
    } else {
        0
    }
}

/// A name holds neither whitespace nor `/`.
pub open spec fn clean_name(n: Seq<char>) -> bool {
    forall|i: int| 0 <= i < n.len() ==> !is_ws(#[trigger] n[i]) && n[i] != '/'
}

/// A lexed tag line: its 0-indexed line number, its depth and its name.
pub type LexLine = (int, int, Seq<char>);

/// Lexes the lines `p` in order. Blank lines (once trailing whitespace is removed)
/// are skipped; a line whose indentation is odd, or whose name holds whitespace or
/// `/`, is refused with its number and its text without trailing whitespace.
pub open spec fn lex_pieces(p: Seq<Seq<char>>) -> Result<Seq<LexLine>, (int, Seq<char>)>
    decreases p.len(),
{
    if p.len() == 0 {
        Ok(Seq::empty())
    } else {
        match lex_pieces(p.drop_last()) {
            Err(e) => Err(e),
            Ok(prev) => {
                let i = p.len() - 1;
                let line = trim_end(p.last());
                let ind = leading_spaces(line);
                if line.len() == 0 {
                    Ok(prev)
                } else if ind % 2 != 0 || !clean_name(line.skip(ind as int)) {
                    Err((i, line))
                } else {
                    Ok(prev.push((i, (ind / 2) as int, line.skip(ind as int))))
                }
            },
        }
    }
}

/// The lexed lines of a tag file's content, split at `\n`.
pub open spec fn lex_spec(content: Seq<char>) -> Result<Seq<LexLine>, (int, Seq<char>)> {
    lex_pieces(split_on(content, '\n'))
}

/// Lexed lines as values.
pub open spec fn lexed_view(v: Seq<(usize, usize, &str)>) -> Seq<LexLine> {
    v.map_values(|t: (usize, usize, &str)| (t.0 as int, t.1 as int, t.2@))
}

/// Once a prefix of the lines is refused, the whole text is refused the same way.
pub proof fn lemma_lex_err_extends(p: Seq<Seq<char>>, n: int)
    requires
        0 <= n <= p.len(),
        lex_pieces(p.take(n)) is Err,
    ensures
        lex_pieces(p) == lex_pieces(p.take(n)),
    decreases p.len(),
{
    if n == p.len() {
        assert(p.take(n) =~= p);
    } else {
        assert(p.drop_last().take(n) =~= p.take(n));
        lemma_lex_err_extends(p.drop_last(), n);
    }
}

/// The number of spaces at the start of `v[a..e]`.
fn count_spaces(v: &Vec<char>, a: usize, e: usize) -> (n: usize)
    requires
        a <= e <= v.len(),
    ensures
        a + n <= e,
        n == leading_spaces(v@.subrange(a as int, e as int)),
{
    let mut j = a;
    while j < e && v[j] == ' '
        invariant
            a <= j <= e <= v.len(),
            leading_spaces(v@.subrange(a as int, e as int)) == (j - a) + leading_spaces(
                v@.subrange(j as int, e as int),
            ),
        decreases e - j,
    {
        assert(v@.subrange(j as int, e as int).drop_first() =~= v@.subrange(j + 1, e as int));
        j = j + 1;
    }
    j - a
}

/// Whether `v[a..e]` holds neither whitespace nor `/`.
fn is_clean(v: &Vec<char>, a: usize, e: usize) -> (r: bool)
    requires
        a <= e <= v.len(),
    ensures
        r == clean_name(v@.subrange(a as int, e as int)),
{
    let mut j = a;
    while j < e
        invariant
            a <= j <= e <= v.len(),
            clean_name(v@.subrange(a as int, j as int)),
        decreases e - j,
    {
        if is_whitespace(v[j]) || v[j] == '/' {
            assert(v@.subrange(a as int, e as int)[j - a] == v[j as int]);
            return false;
        }
        assert(forall|k: int| a <= k <= j ==> v@.subrange(a as int, j + 1)[k - a] == v@[k]);
        j = j + 1;
    }
    true
}

impl TagTree {
    /// Splits tag-file content into `(line number, depth, name)` triples, skipping
    /// blank lines.
    pub fn lex(content: &str) -> (r: Result<Vec<(usize, usize, &str)>, TaktError>)
        ensures
            match (r, lex_spec(content@)) {
                (Ok(v), Ok(ls)) => lexed_view(v@) == ls,
                (Err(TaktError::MalformedLine { line, content: c }), Err((i, l))) => line == i
                    && c@ == l,
                _ => false,
            },
            r matches Ok(v) ==> forall|k: int| 0 <= k < v.len() ==> #[trigger] v[k].1 <= usize::MAX / 2,
    {
        let v = chars_of(content);
        let bounds = piece_bounds(&v, '\n');
        let ghost pieces = split_on(v@, '\n');
        let mut out: Vec<(usize, usize, &str)> = Vec::new();
        let mut k: usize = 0;
        assert(pieces.take(0) =~= Seq::<Seq<char>>::empty());
        assert(lexed_view(out@) =~= Seq::<LexLine>::empty());
        while k < bounds.len()
            invariant
                k <= bounds.len() == pieces.len(),
                pieces == split_on(content@, '\n'),
                v@ == content@,
                forall|j: int|
                    0 <= j < bounds.len() ==> piece_at(v@, #[trigger] bounds[j], v.len() as int, pieces[j]),
                lex_pieces(pieces.take(k as int)) == Ok::<Seq<LexLine>, (int, Seq<char>)>(lexed_view(out@)),
                forall|j: int| 0 <= j < out.len() ==> #[trigger] out[j].1 <= usize::MAX / 2,
            decreases bounds.len() - k,
        {
            let (a, b) = bounds[k];
            assert(piece_at(v@, bounds[k as int], v.len() as int, pieces[k as int]));
            let e = trim_end_at(&v, a, b);
            let ghost tk1 = pieces.take(k + 1);
            assert(tk1.drop_last() =~= pieces.take(k as int));
            assert(tk1.last() == pieces[k as int]);
            assert(v@.subrange(a as int, b as int) == pieces[k as int]);
            assert(trim_end(tk1.last()) == v@.subrange(a as int, e as int));
            if e > a {
                let ind = count_spaces(&v, a, e);
                let ghost line = v@.subrange(a as int, e as int);
                assert(line.skip(ind as int) =~= v@.subrange(a + ind, e as int));
                if ind % 2 != 0 || !is_clean(&v, a + ind, e) {
                    let text = content.substring_char(a, e);
                    let err = TaktError::MalformedLine { line: k, content: text.to_string() };
                    proof {
                        lemma_lex_err_extends(pieces, k + 1);
                        assert(pieces.take(pieces.len() as int) =~= pieces);
                    }
                    return Err(err);
                }
                let name = content.substring_char(a + ind, e);
                assert(lex_pieces(tk1) == Ok::<Seq<LexLine>, (int, Seq<char>)>(
                    lexed_view(out@).push((k as int, (ind / 2) as int, name@)),
                ));
                let ghost old_out = out@;
                out.push((k, ind / 2, name));
                assert(out@.drop_last() =~= old_out);
                assert(lexed_view(out@) =~= lexed_view(old_out).push(
                    (k as int, (ind / 2) as int, name@),
                ));
            } else {
                assert(lex_pieces(tk1) == lex_pieces(pieces.take(k as int)));
            }
            k = k + 1;
        }
        assert(pieces.take(pieces.len() as int) =~= pieces);
        Ok(out)
    }
}

/// The deepest depth line `k` may have: the first line sits at depth 0, every
/// later line at most one level below the line before it.
pub open spec fn max_depth_at(ls: Seq<LexLine>, k: int) -> int {
    if k == 0 {
        0
    } else {
        ls[k - 1].1 + 1
    }
}

/// Line `k` is indented no deeper than its position allows.
pub open spec fn depth_ok(ls: Seq<LexLine>, k: int) -> bool {
    ls[k].1 <= max_depth_at(ls, k)
}

/// The first line indented deeper than its position allows, if any.
pub open spec fn first_bad(ls: Seq<LexLine>) -> Option<int>
    decreases ls.len(),
{
    if ls.len() == 0 {
        None
    } else {
        match first_bad(ls.drop_last()) {
            Some(k) => Some(k),
            None => if depth_ok(ls, ls.len() - 1) {
                None
            } else {
                Some(ls.len() - 1)
            },
        }
    }
}

/// The depths and names of lexed lines.
pub open spec fn project(ls: Seq<LexLine>) -> Seq<(int, Seq<char>)> {
    ls.map_values(|l: LexLine| (l.1, l.2))
}

/// Why tag-file content is refused.
pub enum ParseFailure {
    /// A malformed line: its number and text.
    Malformed(int, Seq<char>),
    /// An over-indented line: its number, the deepest depth allowed, its depth.
    Indent(int, int, int),
    /// Any other failure.
    Other,
}

/// The forest whose lines are `o`.
pub open spec fn forest_of(o: Seq<(int, Seq<char>)>) -> Seq<Tag> {
    choose|f: Seq<Tag>| outline(f, 0) == o
}

/// What reading tag-file content gives: the error of the first malformed line,
/// else the error of the first over-indented line, else the forest whose lines
/// are the lexed lines.
pub open spec fn parse_spec(content: Seq<char>) -> Result<Seq<Tag>, ParseFailure> {
    match lex_spec(content) {
        Err((i, l)) => Err(ParseFailure::Malformed(i, l)),
        Ok(ls) => match first_bad(ls) {
            Some(k) => Err(ParseFailure::Indent(ls[k].0, max_depth_at(ls, k), ls[k].1)),
            None => Ok(forest_of(project(ls))),
        },
    }
}

/// A parse result as a value.
pub open spec fn parse_outcome(r: Result<TagTree, TaktError>) -> Result<Seq<Tag>, ParseFailure> {
    match r {
        Ok(t) => Ok(t.model()),
        Err(TaktError::MalformedLine { line, content }) => Err(
            ParseFailure::Malformed(line as int, content@),
        ),
        Err(TaktError::UnexpectedIndent { line, max, depth }) => Err(
            ParseFailure::Indent(line as int, max as int, depth as int),
        ),
        Err(_) => Err(ParseFailure::Other),
    }
}

/// An outline at depth `d` starts at depth `d` and never goes above it.
pub proof fn lemma_outline_depths(f: Seq<Tag>, d: int)
    ensures
        forall|i: int| 0 <= i < outline(f, d).len() ==> #[trigger] outline(f, d)[i].0 >= d,
        f.len() > 0 ==> outline(f, d).len() > 0 && outline(f, d)[0].0 == d,
        f.len() == 0 ==> outline(f, d).len() == 0,
    decreases f,
{
    if f.len() > 0 {
        lemma_outline_depths(f.drop_last(), d);
        lemma_outline_depths(f.last().children, d + 1);
        let a = outline(f.drop_last(), d);
        let b = seq![(d, f.last().name)];
        let c = outline(f.last().children, d + 1);
        assert forall|i: int| 0 <= i < outline(f, d).len() implies #[trigger] outline(f, d)[i].0
            >= d by {
            if i < a.len() {
                assert(outline(f, d)[i] == a[i]);
            } else if i == a.len() {
                assert(outline(f, d)[i] == b[0]);
            } else {
                assert(outline(f, d)[i] == c[i - a.len() - 1]);
            }
        }
        if a.len() == 0 {
            assert(outline(f, d)[0] == b[0]);
        } else {
            assert(outline(f, d)[0] == a[0]);
        }
    }
}

/// Different forests have different outlines.
pub proof fn lemma_outline_injective(f1: Seq<Tag>, f2: Seq<Tag>, d: int)
    requires
        outline(f1, d) == outline(f2, d),
    ensures
        f1 == f2,
    decreases outline(f1, d).len(),
{
    lemma_outline_depths(f1, d);
    lemma_outline_depths(f2, d);
    if f1.len() == 0 {
        assert(f1 =~= f2);
    } else {
        let o = outline(f1, d);
        let a1 = outline(f1.drop_last(), d);
        let c1 = outline(f1.last().children, d + 1);
        let a2 = outline(f2.drop_last(), d);
        let c2 = outline(f2.last().children, d + 1);
        lemma_outline_depths(f1.last().children, d + 1);
        lemma_outline_depths(f2.last().children, d + 1);
        assert(o == a1 + seq![(d, f1.last().name)] + c1);
        assert(o == a2 + seq![(d, f2.last().name)] + c2);
        assert(o[a1.len() as int].0 == d);
        assert(o[a2.len() as int].0 == d);
        if a1.len() < a2.len() {
            assert(o[a2.len() as int] == c1[a2.len() - a1.len() - 1]);
        }
        if a2.len() < a1.len() {
            assert(o[a1.len() as int] == c2[a1.len() - a2.len() - 1]);
        }
        assert(a1.len() == a2.len());
        assert(a1 =~= o.take(a1.len() as int));
        assert(a2 =~= o.take(a2.len() as int));
        assert(c1 =~= o.skip(a1.len() as int + 1));
        assert(c2 =~= o.skip(a2.len() as int + 1));
        assert(f1.last().name == o[a1.len() as int].1);
        assert(f2.last().name == o[a2.len() as int].1);
        lemma_outline_injective(f1.drop_last(), f2.drop_last(), d);
        lemma_outline_injective(f1.last().children, f2.last().children, d + 1);
        assert(f1 =~= f2.drop_last().push(f2.last()));
        assert(f2 =~= f2.drop_last().push(f2.last()));
    }
}

/// Lines whose depths are all in order have no first bad line.
pub proof fn lemma_first_bad_none(ls: Seq<LexLine>)
    requires
        forall|k: int| 0 <= k < ls.len() ==> depth_ok(ls, k),
    ensures
        first_bad(ls) is None,
    decreases ls.len(),
{
    if ls.len() > 0 {
        let p = ls.drop_last();
        assert forall|k: int| 0 <= k < p.len() implies depth_ok(p, k) by {
            assert(depth_ok(ls, k));
            if k > 0 {
                assert(p[k - 1] == ls[k - 1]);
            }
        }
        lemma_first_bad_none(p);
        assert(depth_ok(ls, ls.len() - 1));
    }
}

/// The first line whose depth is out of order is the first bad line.
pub proof fn lemma_first_bad_at(ls: Seq<LexLine>, k: int)
    requires
        0 <= k < ls.len(),
        forall|j: int| 0 <= j < k ==> depth_ok(ls, j),
        !depth_ok(ls, k),
    ensures
        first_bad(ls) == Some(k),
    decreases ls.len(),
{
    if k == ls.len() - 1 {
        let p = ls.drop_last();
        assert forall|j: int| 0 <= j < p.len() implies depth_ok(p, j) by {
            assert(depth_ok(ls, j));
            if j > 0 {
                assert(p[j - 1] == ls[j - 1]);
            }
        }
        lemma_first_bad_none(p);
    } else {
        let p = ls.drop_last();
        assert forall|j: int| 0 <= j < k implies depth_ok(p, j) by {
            assert(depth_ok(ls, j));
            if j > 0 {
                assert(p[j - 1] == ls[j - 1]);
            }
        }
        if k > 0 {
            assert(p[k - 1] == ls[k - 1]);
        }
        assert(!depth_ok(p, k));
        lemma_first_bad_at(p, k);
    }
}

/// Builds the nodes at `depth` from the lexed lines starting at `pos`, up to the
/// first line shallower than `depth`; returns them with the position after them.
fn parse_nodes(lines: &Vec<(usize, usize, &str)>, depth: usize, pos: usize) -> (r: Result<
    (Vec<TagNode>, usize),
    TaktError,
>)
    requires
        pos <= lines.len(),
        pos == 0 ==> depth == 0,
        pos > 0 ==> depth == lines[pos - 1].1 + 1,
        forall|k: int| 0 <= k < lines.len() ==> #[trigger] lines[k].1 < usize::MAX,
        forall|k: int| 0 <= k < pos ==> depth_ok(lexed_view(lines@), k),
    ensures
        match r {
            Ok((nodes, end)) => {
                &&& pos <= end <= lines.len()
                &&& forall|k: int| pos <= k < end ==> depth_ok(lexed_view(lines@), k)
                &&& end < lines.len() ==> lines[end as int].1 < depth
                &&& end > 0 ==> lines[end - 1].1 + 1 >= depth
                &&& outline(models(nodes@), depth as int) == project(
                    lexed_view(lines@).subrange(pos as int, end as int),
                )
            },
            Err(TaktError::UnexpectedIndent { line, max, depth: dd }) => exists|k: int|
                {
                    &&& pos <= k < lines.len()
                    &&& forall|j: int| pos <= j < k ==> depth_ok(lexed_view(lines@), j)
                    &&& !depth_ok(lexed_view(lines@), k)
                    &&& line == lines[k].0
                    &&& max == max_depth_at(lexed_view(lines@), k)
                    &&& dd == lines[k].1
                },
            Err(_) => false,
        },
    decreases lines.len() - pos,
{
    let ghost ls = lexed_view(lines@);
    let mut nodes: Vec<TagNode> = Vec::new();
    let mut cur = pos;
    assert(ls.subrange(pos as int, pos as int) =~= Seq::<LexLine>::empty());
    assert(project(Seq::<LexLine>::empty()) =~= Seq::<(int, Seq<char>)>::empty());
    while cur < lines.len()
        invariant
            ls == lexed_view(lines@),
            ls.len() == lines.len(),
            pos <= cur <= lines.len(),
            pos == 0 ==> depth == 0,
            pos > 0 ==> depth == lines[pos - 1].1 + 1,
            forall|k: int| 0 <= k < lines.len() ==> #[trigger] lines[k].1 < usize::MAX,
            forall|k: int| 0 <= k < cur ==> depth_ok(ls, k),
            cur > pos && cur < lines.len() ==> lines[cur as int].1 <= depth,
            cur > 0 ==> lines[cur - 1].1 + 1 >= depth,
            outline(models(nodes@), depth as int) == project(ls.subrange(pos as int, cur as int)),
        ensures
            cur < lines.len() ==> lines[cur as int].1 < depth,
        decreases lines.len() - cur,
    {
        let (i, d, name) = lines[cur];
        assert(ls[cur as int] == (i as int, d as int, name@));
        if d < depth {
            break ;
        } else if d == depth {
            assert(depth_ok(ls, cur as int));
            let children = parse_nodes(lines, depth + 1, cur + 1);
            match children {
                Ok((kids, end)) => {
                    let node = TagNode { name: name.to_string(), children: kids };
                    let ghost old_nodes = nodes@;
                    nodes.push(node);
                    proof {
                        assert(nodes@.drop_last() =~= old_nodes);
                        let m = models(old_nodes);
                        let t = node.model();
                        assert(models(nodes@) == m.push(t));
                        assert(m.push(t).drop_last() =~= m);
                        let p1 = project(ls.subrange(pos as int, cur as int));
                        let p2 = project(ls.subrange(cur + 1, end as int));
                        assert(outline(m.push(t), depth as int) == p1 + seq![
                            (depth as int, t.name),
                        ] + p2);
                        assert(p1 + seq![(depth as int, t.name)] + p2 =~= project(
                            ls.subrange(pos as int, end as int),
                        ));
                    }
                    cur = end;
                },
                Err(e) => {
                    return Err(e);
                },
            }
        } else {
            assert(cur == pos);
            assert(!depth_ok(ls, cur as int));
            return Err(TaktError::UnexpectedIndent { line: i, max: depth, depth: d });
        }
    }
    Ok((nodes, cur))
}

impl TagTree {
    /// Reads tag-file content: each non-blank line is one tag, indented by two
    /// spaces per level below its parent.
    pub fn parse(content: &str) -> (r: Result<TagTree, TaktError>)
        ensures
            parse_outcome(r) == parse_spec(content@),
    {
        let lexed = TagTree::lex(content)?;
        let ghost ls = lexed_view(lexed@);
        assert(forall|k: int| 0 <= k < lexed.len() ==> #[trigger] lexed[k].1 < usize::MAX);
        match parse_nodes(&lexed, 0, 0) {
            Ok((nodes, end)) => {
                let tree = TagTree { root: nodes };
                proof {
                    assert(end == lexed.len());
                    assert(ls.subrange(0, end as int) =~= ls);
                    lemma_first_bad_none(ls);
                    let o = project(ls);
                    assert(outline(tree.model(), 0) == o);
                    let f = forest_of(o);
                    assert(outline(f, 0) == o);
                    lemma_outline_injective(f, tree.model(), 0);
                }
                Ok(tree)
            },
            Err(e) => {
                proof {
                    if let TaktError::UnexpectedIndent { line, max, depth } = e {
                        let k = choose|k: int|
                            {
                                &&& 0 <= k < lexed.len()
                                &&& forall|j: int| 0 <= j < k ==> depth_ok(ls, j)
                                &&& !depth_ok(ls, k)
                                &&& line == lexed[k].0
                                &&& max == max_depth_at(ls, k)
                                &&& depth == lexed[k].1
                            };
                        lemma_first_bad_at(ls, k);
                    }
                }
                Err(e)
            },
        }
    }
}

/// The paths, as lists of names, of every tag named `name` in `f`, in the order
/// the tags appear in the text; `prefix` is the path of `f`'s parent.
pub open spec fn tag_matches(f: Seq<Tag>, name: Seq<char>, prefix: Seq<Seq<char>>) -> Seq<
    Seq<Seq<char>>,
>
    decreases f,
{
    if f.len() == 0 {
        Seq::empty()
    } else {
        let t = f.last();
        let p = prefix.push(t.name);
        tag_matches(f.drop_last(), name, prefix) + (if t.name == name {
            seq![p]
        } else {
            Seq::empty()
        }) + tag_matches(t.children, name, p)
    }
}

/// The number of tags named exactly `name` in `f`, at every level.
pub open spec fn name_count(f: Seq<Tag>, name: Seq<char>) -> int
    decreases f,
{
    if f.len() == 0 {
        0
    } else {
        name_count(f.drop_last(), name) + (if f.last().name == name {
            1int
        } else {
            0int
        }) + name_count(f.last().children, name)
    }
}

/// `path` goes down from `prefix` to a tag named `name`: it extends `prefix`
/// and its last segment is `name`.
pub open spec fn path_below_named(path: Seq<Seq<char>>, prefix: Seq<Seq<char>>, name: Seq<char>) -> bool {
    &&& path.len() > prefix.len()
    &&& path.subrange(0, prefix.len() as int) == prefix
    &&& path.last() == name
}

/// Resolving a name finds the tags named exactly that name, and every one of
/// them: there are as many matches as tags named `name`, and each match
/// extends `prefix` by a chain of tags of `f` from the top down whose last
/// tag is named `name` itself.
pub proof fn law_resolve_matches(f: Seq<Tag>, name: Seq<char>, prefix: Seq<Seq<char>>)
    ensures
        tag_matches(f, name, prefix).len() == name_count(f, name),
        forall|k: int|
            0 <= k < tag_matches(f, name, prefix).len() ==> path_below_named(
                #[trigger] tag_matches(f, name, prefix)[k],
                prefix,
                name,
            ) && is_path(f, tag_matches(f, name, prefix)[k].skip(prefix.len() as int)),
    decreases f,
{
    if f.len() > 0 {
        let t = f.last();
        let p = prefix.push(t.name);
        let a = tag_matches(f.drop_last(), name, prefix);
        let b: Seq<Seq<Seq<char>>> = if t.name == name {
            seq![p]
        } else {
            Seq::empty()
        };
        let c = tag_matches(t.children, name, p);
        law_resolve_matches(f.drop_last(), name, prefix);
        law_resolve_matches(t.children, name, p);
        let m = tag_matches(f, name, prefix);
        assert(m == a + b + c);
        let fd = f.drop_last();
        let last = f.len() - 1;
        assert(f[last] == t);
        assert forall|k: int| 0 <= k < m.len() implies path_below_named(#[trigger] m[k], prefix, name)
            && is_path(f, m[k].skip(prefix.len() as int)) by {
            let x = m[k].skip(prefix.len() as int);
            if k < a.len() {
                assert(m[k] == a[k]);
                assert(is_path(fd, x));
                if x.len() > 0 {
                    let i = choose|i: int|
                        0 <= i < fd.len() && #[trigger] fd[i].name == x[0] && is_path(
                            fd[i].children,
                            x.drop_first(),
                        );
                    assert(f[i] == fd[i]);
                }
            } else if k < a.len() + b.len() {
                assert(m[k] == p);
                assert(p.subrange(0, prefix.len() as int) =~= prefix);
                assert(x =~= seq![t.name]);
                assert(x.drop_first() =~= Seq::<Seq<char>>::empty());
                assert(is_path(t.children, x.drop_first()));
                assert(f[last].name == x[0]);
            } else {
                let j = k - a.len() - b.len();
                assert(m[k] == c[j]);
                assert(c[j].subrange(0, p.len() as int) == p);
                assert(c[j].subrange(0, prefix.len() as int) =~= p.subrange(
                    0,
                    prefix.len() as int,
                ));
                assert(p.subrange(0, prefix.len() as int) =~= prefix);
                let y = c[j].skip(p.len() as int);
                assert(is_path(t.children, y));
                assert(x[0] == c[j].subrange(0, p.len() as int)[prefix.len() as int]);
                assert(x[0] == t.name);
                assert(x.drop_first() =~= y);
                assert(f[last].name == x[0]);
            }
        }
    }
}

/// Names joined by `/`.
pub open spec fn join_path(segs: Seq<Seq<char>>) -> Seq<char>
    decreases segs.len(),
{
    if segs.len() == 0 {
        Seq::empty()
    } else if segs.len() == 1 {
        segs[0]
    } else {
        join_path(segs.drop_last()) + seq!['/'] + segs.last()
    }
}

/// Each path joined by `/`.
pub open spec fn joined(m: Seq<Seq<Seq<char>>>) -> Seq<Seq<char>> {
    m.map_values(|p: Seq<Seq<char>>| join_path(p))
}

/// Strings as character sequences.
pub open spec fn strings_view(v: Seq<String>) -> Seq<Seq<char>> {
    v.map_values(|s: String| s@)
}

/// `path` joined by `/`.
fn join_strings(path: &Vec<String>) -> (r: String)
    ensures
        r@ == join_path(strings_view(path@)),
{
    let mut out = String::new();
    let mut i: usize = 0;
    while i < path.len()
        invariant
            i <= path.len(),
            out@ == join_path(strings_view(path@.take(i as int))),
        decreases path.len() - i,
    {
        proof {
            reveal_strlit("/");
        }
        let ghost sv = strings_view(path@.take(i + 1));
        assert(sv.drop_last() =~= strings_view(path@.take(i as int)));
        assert(sv.last() == path@[i as int]@);
        if i > 0 {
            out.append("/");
        } else {
            assert(out@ =~= Seq::<char>::empty());
        }
        out.append(path[i].as_str());
        i = i + 1;
    }
    assert(path@.take(path.len() as int) =~= path@);
    out
}

/// The `/`-joined paths of the tags named `name` among `nodes`, whose parent's
/// path is `path`.
fn resolve_nodes(nodes: &Vec<TagNode>, name: &str, path: &mut Vec<String>) -> (r: Vec<String>)
    ensures
        final(path)@ == old(path)@,
        strings_view(r@) == joined(tag_matches(models(nodes@), name@, strings_view(old(path)@))),
    decreases nodes@,
{
    let ghost prefix = strings_view(path@);
    let ghost start_path = path@;
    let mut matches: Vec<String> = Vec::new();
    let mut i: usize = 0;
    proof {
        lemma_models(nodes@);
        assert(nodes@.take(0) =~= Seq::<TagNode>::empty());
        assert(strings_view(matches@) =~= Seq::<Seq<char>>::empty());
    }
    while i < nodes.len()
        invariant
            i <= nodes.len(),
            prefix == strings_view(path@),
            path@ == start_path,
            strings_view(matches@) == joined(
                tag_matches(models(nodes@.take(i as int)), name@, prefix),
            ),
        decreases nodes.len() - i,
    {
        let node = &nodes[i];
        proof {
            lemma_models(nodes@);
            lemma_models_take(nodes@, i as int);
        }
        let ghost before = path@;
        path.push(node.name.clone());
        let ghost p = prefix.push(node.name@);
        assert(strings_view(path@) =~= p);
        let ghost m0 = matches@;
        if str_eq(node.name.as_str(), name) {
            let joined_path = join_strings(path);
            matches.push(joined_path);
        }
        let mut sub = resolve_nodes(&node.children, name, path);
        let ghost m1 = matches@;
        let ghost sub_v = sub@;
        matches.append(&mut sub);
        let _ = path.pop();
        assert(path@ =~= before);
        proof {
            let m = models(nodes@.take(i as int));
            let t = node.model();
            assert(models(nodes@.take(i + 1)) == m.push(t));
            assert(m.push(t).drop_last() =~= m);
            let a = tag_matches(m, name@, prefix);
            let b: Seq<Seq<Seq<char>>> = if t.name == name@ {
                seq![p]
            } else {
                Seq::empty()
            };
            let c = tag_matches(t.children, name@, p);
            assert(tag_matches(m.push(t), name@, prefix) == a + b + c);
            assert(joined(a + b + c) =~= joined(a) + joined(b) + joined(c));
            assert(strings_view(m1) =~= strings_view(m0) + joined(b));
            assert(strings_view(matches@) =~= strings_view(m1) + strings_view(sub_v));
        }
        i = i + 1;
    }
    assert(nodes@.take(nodes.len() as int) =~= nodes@);
    matches
}

impl TagTree {
    /// The full path of the tag `name`: `name` is the name of one tag, or, when
    /// no tag has that name, the `/`-separated path of a tag from the top. Fails
    /// with `UnknownTag` when it is neither, and with `AmbiguousTag`, listing
    /// every path, when several tags have that name.
    pub fn resolve(&self, name: &str) -> (r: Result<String, TaktError>)
        ensures
            ({
                let m = tag_matches(self.model(), name@, Seq::empty());
                let by_path = contains_path(self.model(), split_on(name@, '/'));
                &&& m.len() == 0 && by_path ==> (r matches Ok(p) && p@ == name@)
                &&& m.len() == 0 && !by_path ==> (r matches Err(TaktError::UnknownTag(n)) && n@
                    == name@)
                &&& m.len() == 1 ==> (r matches Ok(p) && p@ == join_path(m[0]))
                &&& m.len() >= 2 ==> (r matches Err(TaktError::AmbiguousTag(v)) && strings_view(v@)
                    == joined(m))
            }),
    {
        let mut path: Vec<String> = Vec::new();
        assert(strings_view(path@) =~= Seq::<Seq<char>>::empty());
        let mut matches = resolve_nodes(&self.root, name, &mut path);
        assert(strings_view(matches@).len() == matches@.len());
        if matches.len() == 0 {
            let segs = segments(name);
            assert(strs_view(segs@).skip(0) =~= strs_view(segs@));
            if has_path(&self.root, &segs, 0) {
                Ok(name.to_string())
            } else {
                Err(TaktError::UnknownTag(name.to_string()))
            }
        } else if matches.len() == 1 {
            assert(strings_view(matches@)[0] == matches@[0]@);
            let p = matches.remove(0);
            Ok(p)
        } else {
            Err(TaktError::AmbiguousTag(matches))
        }
    }
}

/// The index of the first tag named `n` in `f`, or -1.
pub open spec fn find_tag(f: Seq<Tag>, n: Seq<char>) -> int
    decreases f.len(),
{
    if f.len() == 0 {
        -1
    } else {
        let p = find_tag(f.drop_last(), n);
        if p >= 0 {
            p
        } else if f.last().name == n {
            f.len() - 1
        } else {
            -1
        }
    }
}

/// `f` with the path `segs` added: each name is looked up among the tags of the
/// level reached so far, first match first, and created at the end of that level
/// when missing.
pub open spec fn add_path(f: Seq<Tag>, segs: Seq<Seq<char>>) -> Seq<Tag>
    decreases segs.len(),
{
    if segs.len() == 0 {
        f
    } else {
        let i = find_tag(f, segs[0]);
        if i >= 0 {
            f.update(i, Tag { name: segs[0], children: add_path(f[i].children, segs.drop_first()) })
        } else {
            f.push(Tag { name: segs[0], children: add_path(Seq::empty(), segs.drop_first()) })
        }
    }
}

/// `f` holds the path `segs`, following the first tag of each name.
pub open spec fn contains_path(f: Seq<Tag>, segs: Seq<Seq<char>>) -> bool
    decreases segs.len(),
{
    segs.len() == 0 || {
        let i = find_tag(f, segs[0]);
        i >= 0 && contains_path(f[i].children, segs.drop_first())
    }
}

/// `find_tag` gives the first tag of a name, or -1 when there is none.
pub proof fn lemma_find_tag(f: Seq<Tag>, n: Seq<char>)
    ensures
        -1 <= find_tag(f, n) < f.len(),
        find_tag(f, n) >= 0 ==> f[find_tag(f, n)].name == n,
        find_tag(f, n) >= 0 ==> forall|j: int| 0 <= j < find_tag(f, n) ==> f[j].name != n,
        find_tag(f, n) == -1 ==> forall|j: int| 0 <= j < f.len() ==> f[j].name != n,
    decreases f.len(),
{
    if f.len() > 0 {
        let p = f.drop_last();
        lemma_find_tag(p, n);
        assert(forall|j: int| 0 <= j < p.len() ==> p[j] == f[j]);
    }
}

/// `find_tag` reads only the names.
pub proof fn lemma_find_tag_same_names(f: Seq<Tag>, g: Seq<Tag>, n: Seq<char>)
    requires
        f.len() == g.len(),
        forall|j: int| 0 <= j < f.len() ==> f[j].name == g[j].name,
    ensures
        find_tag(f, n) == find_tag(g, n),
{
    lemma_find_tag(f, n);
    lemma_find_tag(g, n);
}

/// Appending a tag does not move the first tag of a name.
pub proof fn lemma_find_tag_push(f: Seq<Tag>, t: Tag, n: Seq<char>)
    ensures
        find_tag(f, n) >= 0 ==> find_tag(f.push(t), n) == find_tag(f, n),
        find_tag(f, n) == -1 && t.name == n ==> find_tag(f.push(t), n) == f.len(),
{
    assert(f.push(t).drop_last() =~= f);
}

/// The first index `i` with `names[i] == seg`, as `find_tag` gives it.
fn position(nodes: &Vec<TagNode>, seg: &str) -> (r: Option<usize>)
    ensures
        match r {
            Some(i) => i as int == find_tag(models(nodes@), seg@),
            None => find_tag(models(nodes@), seg@) == -1,
        },
{
    let mut i: usize = 0;
    proof {
        lemma_models(nodes@);
    }
    while i < nodes.len()
        invariant
            i <= nodes.len(),
            models(nodes@).len() == nodes.len(),
            forall|j: int| 0 <= j < nodes.len() ==> #[trigger] models(nodes@)[j] == nodes@[j].model(),
            forall|j: int| 0 <= j < i ==> models(nodes@)[j].name != seg@,
        decreases nodes.len() - i,
    {
        if str_eq(nodes[i].name.as_str(), seg) {
            proof {
                let f = models(nodes@);
                lemma_find_tag(f, seg@);
                let x = find_tag(f, seg@);
                assert(nodes@[i as int].model().name == nodes@[i as int].name@);
                assert(f[i as int].name == seg@);
                if x == -1 {
                    assert(f[i as int].name != seg@);
                } else if x < i {
                    assert(f[x].name != seg@);
                } else if x > i {
                    assert(f[i as int].name != seg@);
                }
            }
            return Some(i);
        }
        assert(nodes@[i as int].model().name == nodes@[i as int].name@);
        i = i + 1;
    }
    proof {
        lemma_find_tag(models(nodes@), seg@);
    }
    None
}

/// Character sequences of string slices.
pub open spec fn strs_view(v: Seq<&str>) -> Seq<Seq<char>> {
    v.map_values(|s: &str| s@)
}

/// The `/`-separated segments of `path`.
fn segments(path: &str) -> (r: Vec<&str>)
    ensures
        strs_view(r@) == split_on(path@, '/'),
{
    let v = chars_of(path);
    let bounds = piece_bounds(&v, '/');
    let mut segs: Vec<&str> = Vec::new();
    let mut i: usize = 0;
    while i < bounds.len()
        invariant
            i <= bounds.len() == split_on(path@, '/').len(),
            v@ == path@,
            forall|j: int|
                0 <= j < bounds.len() ==> piece_at(v@, #[trigger] bounds[j], v.len() as int, split_on(path@, '/')[j]),
            strs_view(segs@) == split_on(path@, '/').take(i as int),
        decreases bounds.len() - i,
    {
        let (a, b) = bounds[i];
        assert(piece_at(v@, bounds[i as int], v.len() as int, split_on(path@, '/')[i as int]));
        let seg = path.substring_char(a, b);
        let ghost before = segs@;
        segs.push(seg);
        assert(segs@.drop_last() =~= before);
        assert(strs_view(segs@) =~= strs_view(before).push(seg@));
        assert(split_on(path@, '/').take(i + 1) =~= split_on(path@, '/').take(i as int).push(
            split_on(path@, '/')[i as int],
        ));
        i = i + 1;
    }
    assert(split_on(path@, '/').take(i as int) =~= split_on(path@, '/'));
    segs
}

/// Whether the path `segs[k..]` leads down from `nodes`, following the first
/// tag of each name.
fn has_path(nodes: &Vec<TagNode>, segs: &Vec<&str>, k: usize) -> (r: bool)
    requires
        k <= segs.len(),
    ensures
        r == contains_path(models(nodes@), strs_view(segs@).skip(k as int)),
    decreases segs.len() - k,
{
    let ghost rest = strs_view(segs@).skip(k as int);
    if k == segs.len() {
        return true;
    }
    let seg = segs[k];
    assert(rest[0] == seg@);
    assert(rest.drop_first() =~= strs_view(segs@).skip(k + 1));
    proof {
        lemma_models(nodes@);
    }
    match position(nodes, seg) {
        Some(i) => {
            proof {
                lemma_find_tag(models(nodes@), seg@);
            }
            assert(models(nodes@)[i as int] == nodes@[i as int].model());
            has_path(&nodes[i].children, segs, k + 1)
        },
        None => false,
    }
}

/// Adds the path `segs[k..]` below `nodes`.
fn add_into(nodes: &mut Vec<TagNode>, segs: &Vec<&str>, k: usize)
    requires
        k <= segs.len(),
    ensures
        models(final(nodes)@) == add_path(models(old(nodes)@), strs_view(segs@).skip(k as int)),
    decreases segs.len() - k,
{
    let ghost rest = strs_view(segs@).skip(k as int);
    if k == segs.len() {
        assert(rest =~= Seq::<Seq<char>>::empty());
        return;
    }
    let seg = segs[k];
    assert(rest[0] == seg@);
    assert(rest.drop_first() =~= strs_view(segs@).skip(k + 1));
    proof {
        lemma_models(nodes@);
    }
    match position(nodes, seg) {
        Some(i) => {
            let ghost before = nodes@;
            proof {
                lemma_find_tag(models(nodes@), seg@);
            }
            add_into(&mut nodes[i].children, segs, k + 1);
            proof {
                lemma_models(nodes@);
                lemma_models(before);
                lemma_find_tag(models(before), seg@);
                assert(models(nodes@) =~= models(before).update(
                    i as int,
                    Tag {
                        name: seg@,
                        children: add_path(models(before[i as int].children@), rest.drop_first()),
                    },
                ));
                assert(models(before)[i as int].children == models(before[i as int].children@));
                assert(models(nodes@) == add_path(models(before), rest));
            }
        },
        None => {
            let mut children: Vec<TagNode> = Vec::new();
            add_into(&mut children, segs, k + 1);
            let ghost before = nodes@;
            nodes.push(TagNode { name: seg.to_string(), children });
            proof {
                assert(nodes@.drop_last() =~= before);
                assert(models(Seq::<TagNode>::empty()) =~= Seq::<Tag>::empty());
                assert(models(nodes@) == models(before).push(nodes@.last().model()));
                assert(models(nodes@) == add_path(models(before), rest));
            }
        },
    }
}

impl TagTree {
    /// Adds a `/`-separated tag path such as `work/project-x/new-task`, creating
    /// the tags that are missing; a path already present is left as it is.
    pub fn add(&mut self, path: &str)
        ensures
            final(self).model() == add_path(old(self).model(), split_on(path@, '/')),
    {
        let segs = segments(path);
        assert(strs_view(segs@).skip(0) =~= strs_view(segs@));
        add_into(&mut self.root, &segs, 0);
    }
}

/// The forest after adding each of `paths` in turn.
pub open spec fn add_all(f: Seq<Tag>, paths: Seq<Seq<char>>) -> Seq<Tag>
    decreases paths.len(),
{
    if paths.len() == 0 {
        f
    } else {
        add_path(add_all(f, paths.drop_last()), split_on(paths.last(), '/'))
    }
}

impl TagTree {
    /// A tree without tags.
    pub fn new() -> (r: TagTree)
        ensures
            r.model() == Seq::<Tag>::empty(),
    {
        let r = TagTree { root: Vec::new() };
        assert(models(r.root@) =~= Seq::<Tag>::empty());
        r
    }

    /// The tree holding the `/`-separated tag paths `paths`, added in order.
    pub fn from_paths(paths: &[String]) -> (r: TagTree)
        ensures
            r.model() == add_all(Seq::empty(), paths@.map_values(|p: String| p@)),
    {
        let ghost ps = paths@.map_values(|p: String| p@);
        let mut tree = TagTree::new();
        let mut i: usize = 0;
        assert(ps.take(0) =~= Seq::<Seq<char>>::empty());
        while i < paths.len()
            invariant
                i <= paths.len(),
                ps == paths@.map_values(|p: String| p@),
                tree.model() == add_all(Seq::empty(), ps.take(i as int)),
            decreases paths.len() - i,
        {
            tree.add(paths[i].as_str());
            assert(ps.take(i + 1).drop_last() =~= ps.take(i as int));
            assert(ps.take(i + 1).last() == paths@[i as int]@);
            i = i + 1;
        }
        assert(ps.take(paths.len() as int) =~= ps);
        tree
    }
}

impl Default for TagTree {
    /// A tree without tags.
    fn default() -> (r: TagTree)
        ensures
            r.model() == Seq::<Tag>::empty(),
    {
        TagTree::new()
    }
}

/// A tag name that survives a write and a read: not empty, with neither
/// whitespace nor `/`.
pub open spec fn valid_tag_name(n: Seq<char>) -> bool {
    n.len() > 0 && clean_name(n)
}

/// Every tag of the forest has a valid name.
pub open spec fn valid_forest(f: Seq<Tag>) -> bool
    decreases f,
{
    f.len() == 0 || {
        &&& valid_forest(f.drop_last())
        &&& valid_tag_name(f.last().name)
        &&& valid_forest(f.last().children)
    }
}

/// The text of each tag line, without its newline.
pub open spec fn lines_of(o: Seq<(int, Seq<char>)>) -> Seq<Seq<char>> {
    o.map_values(|l: (int, Seq<char>)| spaces(2 * l.0) + l.1)
}

/// Tag lines numbered from 0.
pub open spec fn numbered(o: Seq<(int, Seq<char>)>) -> Seq<LexLine> {
    Seq::new(o.len(), |i: int| (i, o[i].0, o[i].1))
}

/// An outline goes at most one level deeper per line, and names in a valid
/// forest are valid.
pub proof fn lemma_outline_shape(f: Seq<Tag>, d: int)
    ensures
        forall|k: int|
            0 < k < outline(f, d).len() ==> #[trigger] outline(f, d)[k].0 <= outline(f, d)[k - 1].0
                + 1,
        valid_forest(f) ==> forall|k: int|
            0 <= k < outline(f, d).len() ==> valid_tag_name(#[trigger] outline(f, d)[k].1),
    decreases f,
{
    if f.len() > 0 {
        let a = outline(f.drop_last(), d);
        let b = seq![(d, f.last().name)];
        let c = outline(f.last().children, d + 1);
        let o = outline(f, d);
        lemma_outline_shape(f.drop_last(), d);
        lemma_outline_shape(f.last().children, d + 1);
        lemma_outline_depths(f.drop_last(), d);
        lemma_outline_depths(f.last().children, d + 1);
        assert(o == a + b + c);
        assert forall|k: int| 0 < k < o.len() implies #[trigger] o[k].0 <= o[k - 1].0 + 1 by {
            if k < a.len() {
                assert(o[k] == a[k] && o[k - 1] == a[k - 1]);
            } else if k == a.len() {
                assert(o[k - 1] == a[k - 1]);
            } else if k == a.len() + 1 {
                assert(o[k] == c[0]);
            } else {
                assert(o[k] == c[k - a.len() - 1] && o[k - 1] == c[k - a.len() - 2]);
            }
        }
        if valid_forest(f) {
            assert forall|k: int| 0 <= k < o.len() implies valid_tag_name(#[trigger] o[k].1) by {
                if k < a.len() {
                    assert(o[k] == a[k]);
                } else if k == a.len() {
                    assert(o[k] == b[0]);
                } else {
                    assert(o[k] == c[k - a.len() - 1]);
                }
            }
        }
    }
}

/// The text of an outline of valid names splits at its newlines into its lines
/// and a last, empty piece.
pub proof fn lemma_split_outline_text(o: Seq<(int, Seq<char>)>)
    requires
        forall|k: int| 0 <= k < o.len() ==> valid_tag_name(#[trigger] o[k].1),
    ensures
        split_on(outline_text(o), '\n') == lines_of(o).push(Seq::<char>::empty()),
    decreases o.len(),
{
    if o.len() == 0 {
        assert(split_on(outline_text(o), '\n') =~= seq![Seq::<char>::empty()]);
        assert(lines_of(o).push(Seq::<char>::empty()) =~= seq![Seq::<char>::empty()]);
    } else {
        let p = o.drop_last();
        assert forall|k: int| 0 <= k < p.len() implies valid_tag_name(#[trigger] p[k].1) by {
            assert(p[k] == o[k]);
        }
        lemma_split_outline_text(p);
        let l = o.last();
        assert(valid_tag_name(o[o.len() - 1].1));
        let x = spaces(2 * l.0) + l.1;
        assert forall|i: int| 0 <= i < x.len() implies x[i] != '\n' by {
            if i >= spaces(2 * l.0).len() {
                assert(x[i] == l.1[i - spaces(2 * l.0).len()]);
            }
        }
        let t = outline_text(p);
        assert(outline_text(o) =~= (t + x).push('\n'));
        lemma_split_append_plain(t, x, '\n');
        assert((t + x).push('\n').drop_last() =~= t + x);
        let s = lines_of(p).push(Seq::<char>::empty());
        assert(s.last() + x =~= x);
        assert(s.update(s.len() - 1, x) =~= lines_of(o));
    }
}

/// `n` spaces before text that does not start with one are `n` leading spaces.
pub proof fn lemma_leading_spaces(n: nat, x: Seq<char>)
    requires
        x.len() == 0 || x[0] != ' ',
    ensures
        leading_spaces(spaces(n as int) + x) == n,
    decreases n,
{
    if n == 0 {
        assert(spaces(0) + x =~= x);
    } else {
        lemma_leading_spaces((n - 1) as nat, x);
        assert((spaces(n as int) + x).drop_first() =~= spaces(n - 1) + x);
    }
}

/// The lines of an outline of valid names lex as the outline, numbered.
pub proof fn lemma_lex_lines(o: Seq<(int, Seq<char>)>)
    requires
        forall|k: int| 0 <= k < o.len() ==> valid_tag_name(#[trigger] o[k].1),
        forall|k: int| 0 <= k < o.len() ==> #[trigger] o[k].0 >= 0,
    ensures
        lex_pieces(lines_of(o)) == Ok::<Seq<LexLine>, (int, Seq<char>)>(numbered(o)),
    decreases o.len(),
{
    if o.len() > 0 {
        let p = o.drop_last();
        assert forall|k: int| 0 <= k < p.len() implies valid_tag_name(#[trigger] p[k].1) && p[k].0
            >= 0 by {
            assert(p[k] == o[k]);
        }
        lemma_lex_lines(p);
        assert(lines_of(o).drop_last() =~= lines_of(p));
        let l = o.last();
        assert(valid_tag_name(o[o.len() - 1].1) && o[o.len() - 1].0 >= 0);
        let line = spaces(2 * l.0) + l.1;
        assert(lines_of(o).last() == line);
        assert(line.last() == l.1.last());
        assert(!is_ws(l.1[l.1.len() - 1]));
        assert(trim_end(line) == line);
        lemma_leading_spaces((2 * l.0) as nat, l.1);
        assert(line.skip(2 * l.0) =~= l.1);
        let ind = leading_spaces(trim_end(line));
        assert(ind == 2 * l.0);
        assert(ind % 2 == 0);
        assert(ind / 2 == l.0);
        assert(lines_of(o).len() == o.len());
        assert(numbered(o) =~= numbered(p).push((o.len() - 1, l.0, l.1)));
        assert(clean_name(trim_end(lines_of(o).last()).skip(ind as int)));
        assert(trim_end(lines_of(o).last()).len() != 0);
        assert(lex_pieces(lines_of(o)) == Ok::<Seq<LexLine>, (int, Seq<char>)>(
            numbered(p).push((o.len() - 1, l.0, l.1)),
        ));
    } else {
        assert(lines_of(o) =~= Seq::<Seq<char>>::empty());
        assert(numbered(o) =~= Seq::<LexLine>::empty());
    }
}

/// Writing a forest of validly named tags and reading the text back gives the
/// same forest.
pub proof fn law_tag_text_round_trip(f: Seq<Tag>)
    requires
        valid_forest(f),
    ensures
        parse_spec(tree_text(f)) == Ok::<Seq<Tag>, ParseFailure>(f),
{
    let o = outline(f, 0);
    lemma_outline_shape(f, 0);
    lemma_outline_depths(f, 0);
    lemma_split_outline_text(o);
    let pieces = lines_of(o).push(Seq::<char>::empty());
    assert(pieces.drop_last() =~= lines_of(o));
    assert(trim_end(pieces.last()) =~= Seq::<char>::empty());
    lemma_lex_lines(o);
    assert(lex_pieces(pieces) == lex_pieces(lines_of(o)));
    let ls = numbered(o);
    assert forall|k: int| 0 <= k < ls.len() implies depth_ok(ls, k) by {
        if k > 0 {
            assert(o[k].0 <= o[k - 1].0 + 1);
        }
    }
    lemma_first_bad_none(ls);
    assert(project(ls) =~= o);
    let g = forest_of(o);
    assert(outline(g, 0) == o);
    lemma_outline_injective(g, f, 0);
}

/// After a path is added, the forest holds it.
pub proof fn law_add_then_contains(f: Seq<Tag>, segs: Seq<Seq<char>>)
    ensures
        contains_path(add_path(f, segs), segs),
    decreases segs.len(),
{
    if segs.len() > 0 {
        let i = find_tag(f, segs[0]);
        let g = add_path(f, segs);
        lemma_find_tag(f, segs[0]);
        law_add_then_contains(
            if i >= 0 {
                f[i].children
            } else {
                Seq::empty()
            },
            segs.drop_first(),
        );
        if i >= 0 {
            lemma_find_tag_same_names(f, g, segs[0]);
        } else {
            lemma_find_tag_push(
                f,
                Tag { name: segs[0], children: add_path(Seq::empty(), segs.drop_first()) },
                segs[0],
            );
        }
    }
}

/// Adding a path the forest already holds changes nothing: no tag is duplicated.
pub proof fn law_add_existing_unchanged(f: Seq<Tag>, segs: Seq<Seq<char>>)
    requires
        contains_path(f, segs),
    ensures
        add_path(f, segs) == f,
    decreases segs.len(),
{
    if segs.len() > 0 {
        let i = find_tag(f, segs[0]);
        lemma_find_tag(f, segs[0]);
        law_add_existing_unchanged(f[i].children, segs.drop_first());
        assert(f.update(i, Tag { name: segs[0], children: f[i].children }) =~= f);
    }
}

/// Adding a path keeps every path the forest held.
pub proof fn law_add_keeps_paths(f: Seq<Tag>, segs: Seq<Seq<char>>, q: Seq<Seq<char>>)
    requires
        contains_path(f, q),
    ensures
        contains_path(add_path(f, segs), q),
    decreases q.len(),
{
    if q.len() > 0 && segs.len() > 0 {
        let g = add_path(f, segs);
        let i = find_tag(f, segs[0]);
        let j = find_tag(f, q[0]);
        lemma_find_tag(f, segs[0]);
        lemma_find_tag(f, q[0]);
        if i >= 0 {
            lemma_find_tag_same_names(f, g, q[0]);
            if i == j {
                law_add_keeps_paths(f[i].children, segs.drop_first(), q.drop_first());
            } else {
                assert(g[j] == f[j]);
            }
        } else {
            let t = Tag { name: segs[0], children: add_path(Seq::empty(), segs.drop_first()) };
            lemma_find_tag_push(f, t, q[0]);
            assert(g[j] == f[j]);
        }
    }
}

/// Adding a path of valid names to a validly named forest keeps every name valid,
/// so the forest still reads back from its text.
pub proof fn law_add_keeps_names_valid(f: Seq<Tag>, segs: Seq<Seq<char>>)
    requires
        valid_forest(f),
        forall|k: int| 0 <= k < segs.len() ==> valid_tag_name(#[trigger] segs[k]),
    ensures
        valid_forest(add_path(f, segs)),
    decreases segs.len(),
{
    if segs.len() > 0 {
        let rest = segs.drop_first();
        assert forall|k: int| 0 <= k < rest.len() implies valid_tag_name(#[trigger] rest[k]) by {
            assert(rest[k] == segs[k + 1]);
        }
        assert(valid_tag_name(segs[0]));
        let i = find_tag(f, segs[0]);
        lemma_find_tag(f, segs[0]);
        if i >= 0 {
            lemma_valid_forest_index(f, i);
            law_add_keeps_names_valid(f[i].children, rest);
            lemma_valid_forest_update(
                f,
                i,
                Tag { name: segs[0], children: add_path(f[i].children, rest) },
            );
        } else {
            law_add_keeps_names_valid(Seq::empty(), rest);
            let t = Tag { name: segs[0], children: add_path(Seq::empty(), rest) };
            assert(f.push(t).drop_last() =~= f);
        }
    }
}

/// Each tag of a valid forest has a valid name and a valid sub-forest.
pub proof fn lemma_valid_forest_index(f: Seq<Tag>, i: int)
    requires
        valid_forest(f),
        0 <= i < f.len(),
    ensures
        valid_tag_name(f[i].name),
        valid_forest(f[i].children),
    decreases f.len(),
{
    if i < f.len() - 1 {
        lemma_valid_forest_index(f.drop_last(), i);
    }
}

/// Replacing a tag of a valid forest with a valid one keeps it valid.
pub proof fn lemma_valid_forest_update(f: Seq<Tag>, i: int, t: Tag)
    requires
        valid_forest(f),
        0 <= i < f.len(),
        valid_tag_name(t.name),
        valid_forest(t.children),
    ensures
        valid_forest(f.update(i, t)),
    decreases f.len(),
{
    let g = f.update(i, t);
    if i < f.len() - 1 {
        lemma_valid_forest_update(f.drop_last(), i, t);
        assert(g.drop_last() =~= f.drop_last().update(i, t));
    } else {
        assert(g.drop_last() =~= f.drop_last());
    }
}

/// An outline a forest at depth `d` can have: no line above depth `d`, the
/// first at `d`, and each line at most one level below the line before it.
#[verifier::opaque]
pub open spec fn well_shaped(o: Seq<(int, Seq<char>)>, d: int) -> bool {
    &&& forall|i: int| 0 <= i < o.len() ==> #[trigger] o[i].0 >= d
    &&& o.len() > 0 ==> o[0].0 == d
    &&& forall|i: int| 0 < i < o.len() ==> #[trigger] o[i].0 <= o[i - 1].0 + 1
}

/// The index of the last line of `o` at depth `d`, or -1.
pub open spec fn last_at(o: Seq<(int, Seq<char>)>, d: int) -> int
    decreases o.len(),
{
    if o.len() == 0 {
        -1
    } else if o.last().0 == d {
        o.len() - 1
    } else {
        last_at(o.drop_last(), d)
    }
}

/// `last_at` gives the last line at depth `d`, or -1 when there is none.
pub proof fn lemma_last_at(o: Seq<(int, Seq<char>)>, d: int)
    ensures
        -1 <= last_at(o, d) < o.len(),
        last_at(o, d) >= 0 ==> o[last_at(o, d)].0 == d,
        forall|i: int| last_at(o, d) < i < o.len() ==> #[trigger] o[i].0 != d,
    decreases o.len(),
{
    if o.len() > 0 && o.last().0 != d {
        lemma_last_at(o.drop_last(), d);
        assert forall|i: int| last_at(o, d) < i < o.len() implies #[trigger] o[i].0 != d by {
            if i < o.len() - 1 {
                assert(o[i] == o.drop_last()[i]);
            }
        }
    }
}

/// The forest at depth `d` whose lines are `o`: the last line at depth `d` is
/// the last top tag, the lines after it its sub-tags, the lines before it the
/// tags before it.
pub open spec fn build_forest(o: Seq<(int, Seq<char>)>, d: int) -> Seq<Tag>
    decreases o.len(),
{
    let j = last_at(o, d);
    if o.len() == 0 || j < 0 || j >= o.len() {
        Seq::empty()
    } else {
        build_forest(o.take(j), d).push(
            Tag { name: o[j].1, children: build_forest(o.skip(j + 1), d + 1) },
        )
    }
}

/// Cutting a well-shaped outline at its last line at depth `d` leaves the lines
/// before it well shaped at `d` and the lines after it well shaped at `d + 1`.
proof fn lemma_well_shaped_split(o: Seq<(int, Seq<char>)>, d: int, j: int)
    requires
        well_shaped(o, d),
        0 <= j < o.len(),
        o[j].0 == d,
        forall|i: int| j < i < o.len() ==> #[trigger] o[i].0 != d,
    ensures
        well_shaped(o.take(j), d),
        well_shaped(o.skip(j + 1), d + 1),
{
    reveal(well_shaped);
    let a = o.take(j);
    let c = o.skip(j + 1);
    assert forall|i: int| 0 < i < a.len() implies #[trigger] a[i].0 <= a[i - 1].0 + 1 by {
        assert(a[i] == o[i] && a[i - 1] == o[i - 1]);
    }
    assert forall|i: int| 0 <= i < a.len() implies #[trigger] a[i].0 >= d by {
        assert(a[i] == o[i]);
    }
    if a.len() > 0 {
        assert(a[0] == o[0]);
    }
    assert forall|i: int| 0 <= i < c.len() implies #[trigger] c[i].0 >= d + 1 by {
        assert(c[i] == o[i + j + 1]);
        assert(o[i + j + 1].0 >= d);
        assert(o[i + j + 1].0 != d);
    }
    if c.len() > 0 {
        assert(c[0] == o[j + 1]);
        assert(o[j + 1].0 <= o[j].0 + 1);
    }
    assert forall|i: int| 0 < i < c.len() implies #[trigger] c[i].0 <= c[i - 1].0 + 1 by {
        assert(c[i] == o[i + j + 1] && c[i - 1] == o[i + j]);
    }
}

/// The forest built from a well-shaped outline has that outline.
pub proof fn lemma_build_forest(o: Seq<(int, Seq<char>)>, d: int)
    requires
        well_shaped(o, d),
    ensures
        outline(build_forest(o, d), d) == o,
    decreases o.len(),
{
    if o.len() > 0 {
        lemma_last_at(o, d);
        let j = last_at(o, d);
        assert(o[0].0 == d) by {
            reveal(well_shaped);
        }
        let a = o.take(j);
        let c = o.skip(j + 1);
        lemma_well_shaped_split(o, d, j);
        lemma_build_forest(a, d);
        lemma_build_forest(c, d + 1);
        let t = Tag { name: o[j].1, children: build_forest(c, d + 1) };
        let f = build_forest(o, d);
        assert(f == build_forest(a, d).push(t));
        assert(f.drop_last() =~= build_forest(a, d));
        assert(f.last() == t);
        assert(o =~= a + seq![(d, o[j].1)] + c);
    } else {
        assert(outline(build_forest(o, d), d) =~= o);
    }
}

/// Every well-shaped outline at depth 0 is the outline of a forest, so
/// `forest_of` gives a forest with exactly that outline.
pub proof fn lemma_forest_of(o: Seq<(int, Seq<char>)>)
    requires
        well_shaped(o, 0),
    ensures
        outline(forest_of(o), 0) == o,
{
    lemma_build_forest(o, 0);
    let w = build_forest(o, 0);
    assert(outline(w, 0) == o);
}

/// A forest whose outline holds only valid names is validly named.
pub proof fn lemma_valid_from_outline(f: Seq<Tag>, d: int)
    requires
        forall|k: int| 0 <= k < outline(f, d).len() ==> valid_tag_name(#[trigger] outline(f, d)[k].1),
    ensures
        valid_forest(f),
    decreases f,
{
    if f.len() > 0 {
        let a = outline(f.drop_last(), d);
        let c = outline(f.last().children, d + 1);
        let o = outline(f, d);
        assert(o == a + seq![(d, f.last().name)] + c);
        assert forall|k: int| 0 <= k < a.len() implies valid_tag_name(#[trigger] a[k].1) by {
            assert(o[k] == a[k]);
        }
        assert forall|k: int| 0 <= k < c.len() implies valid_tag_name(#[trigger] c[k].1) by {
            assert(o[k + a.len() + 1] == c[k]);
        }
        assert(o[a.len() as int] == (d, f.last().name));
        assert(valid_tag_name(o[a.len() as int].1));
        lemma_valid_from_outline(f.drop_last(), d);
        lemma_valid_from_outline(f.last().children, d + 1);
    }
}

/// Text whose trailing whitespace is removed, when not empty, ends in a
/// character other than whitespace.
proof fn lemma_trim_end_last(s: Seq<char>)
    ensures
        trim_end(s).len() > 0 ==> !is_ws(trim_end(s).last()),
    decreases s.len(),
{
    if s.len() > 0 && is_ws(s.last()) {
        lemma_trim_end_last(s.drop_last());
    }
}

/// Text whose last character is not a space has fewer leading spaces than
/// characters.
proof fn lemma_leading_spaces_short(s: Seq<char>)
    requires
        s.len() > 0,
        s.last() != ' ',
    ensures
        leading_spaces(s) < s.len(),
    decreases s.len(),
{
    if s[0] == ' ' {
        assert(s.drop_first().last() == s.last());
        lemma_leading_spaces_short(s.drop_first());
    }
}

/// Lexed lines have depths of at least 0 and valid names.
proof fn lemma_lexed_lines_valid(p: Seq<Seq<char>>)
    requires
        lex_pieces(p) is Ok,
    ensures
        forall|k: int|
            0 <= k < lex_pieces(p)->Ok_0.len() ==> #[trigger] lex_pieces(p)->Ok_0[k].1 >= 0
                && valid_tag_name(lex_pieces(p)->Ok_0[k].2),
    decreases p.len(),
{
    if p.len() > 0 {
        lemma_lexed_lines_valid(p.drop_last());
        let prev = lex_pieces(p.drop_last())->Ok_0;
        let r = lex_pieces(p)->Ok_0;
        let line = trim_end(p.last());
        let ind = leading_spaces(line);
        if line.len() > 0 && !(ind % 2 != 0 || !clean_name(line.skip(ind as int))) {
            lemma_trim_end_last(p.last());
            lemma_leading_spaces_short(line);
            assert(line.skip(ind as int).len() > 0);
            assert(r == prev.push((p.len() - 1, (ind / 2) as int, line.skip(ind as int))));
            assert forall|k: int| 0 <= k < r.len() implies #[trigger] r[k].1 >= 0 && valid_tag_name(
                r[k].2,
            ) by {
                if k < prev.len() {
                    assert(r[k] == prev[k]);
                }
            }
        } else {
            assert(r == prev);
        }
    }
}

/// Every tree that tag-file text reads as has valid names and the lexed lines
/// as its outline, and writing it and reading the text back gives it again.
pub proof fn law_parsed_tree_round_trip(content: Seq<char>)
    requires
        parse_spec(content) is Ok,
    ensures
        valid_forest(parse_spec(content)->Ok_0),
        outline(parse_spec(content)->Ok_0, 0) == project(lex_spec(content)->Ok_0),
        parse_spec(tree_text(parse_spec(content)->Ok_0)) == parse_spec(content),
{
    let ls = lex_spec(content)->Ok_0;
    let o = project(ls);
    lemma_lexed_lines_valid(split_on(content, '\n'));
    assert(first_bad(ls) is None);
    lemma_first_bad_all(ls);
    assert(well_shaped(o, 0)) by {
        reveal(well_shaped);
        assert forall|i: int| 0 <= i < o.len() implies #[trigger] o[i].0 >= 0 by {
            assert(o[i].0 == ls[i].1);
        }
        if o.len() > 0 {
            assert(depth_ok(ls, 0));
        }
        assert forall|i: int| 0 < i < o.len() implies #[trigger] o[i].0 <= o[i - 1].0 + 1 by {
            assert(depth_ok(ls, i));
        }
    }
    lemma_forest_of(o);
    let f = forest_of(o);
    assert forall|k: int| 0 <= k < outline(f, 0).len() implies valid_tag_name(
        #[trigger] outline(f, 0)[k].1,
    ) by {
        assert(outline(f, 0)[k] == o[k]);
        assert(o[k].1 == ls[k].2);
    }
    lemma_valid_from_outline(f, 0);
    law_tag_text_round_trip(f);
}

/// Lines with no first bad line have every depth in order.
proof fn lemma_first_bad_all(ls: Seq<LexLine>)
    requires
        first_bad(ls) is None,
    ensures
        forall|k: int| 0 <= k < ls.len() ==> depth_ok(ls, k),
    decreases ls.len(),
{
    if ls.len() > 0 {
        let p = ls.drop_last();
        lemma_first_bad_all(p);
        assert forall|k: int| 0 <= k < ls.len() implies depth_ok(ls, k) by {
            if k < p.len() {
                assert(depth_ok(p, k));
                assert(p[k] == ls[k]);
                if k > 0 {
                    assert(p[k - 1] == ls[k - 1]);
                }
            }
        }
    }
}

/// No two sibling tags share a name, at any level.
pub open spec fn distinct_siblings(f: Seq<Tag>) -> bool
    decreases f,
{
    f.len() == 0 || {
        &&& distinct_siblings(f.drop_last())
        &&& distinct_siblings(f.last().children)
        &&& forall|i: int| 0 <= i < f.len() - 1 ==> #[trigger] f[i].name != f.last().name
    }
}

/// Siblings are distinct exactly when the names at the top are pairwise
/// different and each tag's sub-tags have distinct siblings.
pub proof fn lemma_distinct_siblings(f: Seq<Tag>)
    ensures
        distinct_siblings(f) <==> ((forall|i: int, j: int|
            0 <= i < j < f.len() ==> #[trigger] f[i].name != #[trigger] f[j].name) && (forall|i: int|
            0 <= i < f.len() ==> distinct_siblings(#[trigger] f[i].children))),
    decreases f.len(),
{
    if f.len() > 0 {
        let p = f.drop_last();
        lemma_distinct_siblings(p);
        assert(forall|i: int| 0 <= i < p.len() ==> p[i] == f[i]);
        assert(f[f.len() - 1] == f.last());
    }
}

/// The number of tags of a forest, at every level.
pub open spec fn tag_count(f: Seq<Tag>) -> int
    decreases f,
{
    if f.len() == 0 {
        0
    } else {
        tag_count(f.drop_last()) + 1 + tag_count(f.last().children)
    }
}

/// How many of the first `n` prefixes of `segs` (of lengths 1 to `n`) are not
/// paths of `f`.
pub open spec fn missing_prefixes(f: Seq<Tag>, segs: Seq<Seq<char>>, n: int) -> int
    decreases n,
{
    if n <= 0 {
        0
    } else {
        missing_prefixes(f, segs, n - 1) + if contains_path(f, segs.take(n)) {
            0int
        } else {
            1int
        }
    }
}

/// Replacing one tag changes the count by the difference of the two.
proof fn lemma_tag_count_update(f: Seq<Tag>, i: int, t: Tag)
    requires
        0 <= i < f.len(),
    ensures
        tag_count(f.update(i, t)) == tag_count(f) - 1 - tag_count(f[i].children) + 1 + tag_count(
            t.children,
        ),
    decreases f.len(),
{
    let g = f.update(i, t);
    if i == f.len() - 1 {
        assert(g.drop_last() =~= f.drop_last());
    } else {
        lemma_tag_count_update(f.drop_last(), i, t);
        assert(g.drop_last() =~= f.drop_last().update(i, t));
    }
}

/// Below the first tag named `segs[0]`, the prefixes of `segs` are the prefixes
/// of the rest of `segs`.
proof fn lemma_missing_below(f: Seq<Tag>, segs: Seq<Seq<char>>, n: int)
    requires
        segs.len() > 0,
        find_tag(f, segs[0]) >= 0,
        1 <= n <= segs.len(),
    ensures
        missing_prefixes(f, segs, n) == missing_prefixes(
            f[find_tag(f, segs[0])].children,
            segs.drop_first(),
            n - 1,
        ),
    decreases n,
{
    let c = f[find_tag(f, segs[0])].children;
    assert(segs.take(n).drop_first() =~= segs.drop_first().take(n - 1));
    assert(segs.take(n)[0] == segs[0]);
    assert(segs.take(n).len() == n);
    assert(contains_path(f, segs.take(n)) == contains_path(c, segs.drop_first().take(n - 1)));
    assert(missing_prefixes(f, segs, n) == missing_prefixes(f, segs, n - 1) + if contains_path(
        c,
        segs.drop_first().take(n - 1),
    ) {
        0int
    } else {
        1int
    });
    if n == 1 {
        assert(missing_prefixes(f, segs, 0) == 0);
        assert(contains_path(c, segs.drop_first().take(0)));
    } else {
        lemma_missing_below(f, segs, n - 1);
    }
}

/// When no tag is named `segs[0]`, none of the prefixes of `segs` is a path.
proof fn lemma_missing_all(f: Seq<Tag>, segs: Seq<Seq<char>>, n: int)
    requires
        segs.len() > 0,
        find_tag(f, segs[0]) < 0,
        0 <= n <= segs.len(),
    ensures
        missing_prefixes(f, segs, n) == n,
    decreases n,
{
    if n > 0 {
        assert(segs.take(n)[0] == segs[0]);
        lemma_missing_all(f, segs, n - 1);
    }
}

/// Nothing but the empty path is a path of the empty forest.
proof fn lemma_missing_empty(segs: Seq<Seq<char>>, n: int)
    requires
        0 <= n <= segs.len(),
    ensures
        missing_prefixes(Seq::<Tag>::empty(), segs, n) == n,
{
    if segs.len() > 0 {
        lemma_missing_all(Seq::empty(), segs, n);
    }
}

/// Adding a path creates one tag for each of its prefixes that was not yet a
/// path of the tree, and no other.
pub proof fn law_add_node_count(f: Seq<Tag>, segs: Seq<Seq<char>>)
    ensures
        tag_count(add_path(f, segs)) == tag_count(f) + missing_prefixes(f, segs, segs.len() as int),
    decreases segs.len(),
{
    if segs.len() > 0 {
        let rest = segs.drop_first();
        let i = find_tag(f, segs[0]);
        lemma_find_tag(f, segs[0]);
        if i >= 0 {
            law_add_node_count(f[i].children, rest);
            lemma_missing_below(f, segs, segs.len() as int);
            lemma_tag_count_update(f, i, Tag { name: segs[0], children: add_path(f[i].children, rest) });
        } else {
            law_add_node_count(Seq::empty(), rest);
            lemma_missing_empty(rest, rest.len() as int);
            lemma_missing_all(f, segs, segs.len() as int);
            let t = Tag { name: segs[0], children: add_path(Seq::empty(), rest) };
            assert(f.push(t).drop_last() =~= f);
        }
    }
}

/// Adding a path to a tree whose siblings have distinct names keeps them
/// distinct: an existing tag of a name is followed, never duplicated.
pub proof fn law_add_keeps_siblings_distinct(f: Seq<Tag>, segs: Seq<Seq<char>>)
    requires
        distinct_siblings(f),
    ensures
        distinct_siblings(add_path(f, segs)),
    decreases segs.len(),
{
    if segs.len() > 0 {
        let rest = segs.drop_first();
        let i = find_tag(f, segs[0]);
        lemma_find_tag(f, segs[0]);
        lemma_distinct_siblings(f);
        if i >= 0 {
            law_add_keeps_siblings_distinct(f[i].children, rest);
            let g = add_path(f, segs);
            assert(g == f.update(i, Tag { name: segs[0], children: add_path(f[i].children, rest) }));
            lemma_distinct_siblings(g);
        } else {
            law_add_keeps_siblings_distinct(Seq::empty(), rest);
            let t = Tag { name: segs[0], children: add_path(Seq::empty(), rest) };
            assert(f.push(t).drop_last() =~= f);
        }
    }
}

/// `segs` names a chain of tags from the top of `f` down: a tag named
/// `segs[0]`, below it one named `segs[1]`, and so on.
pub open spec fn is_path(f: Seq<Tag>, segs: Seq<Seq<char>>) -> bool
    decreases segs.len(),
{
    segs.len() == 0 || exists|i: int|
        0 <= i < f.len() && #[trigger] f[i].name == segs[0] && is_path(f[i].children, segs.drop_first())
}

/// How many of the first `n` prefixes of `segs` (of lengths 1 to `n`) name no
/// chain of tags from the top of `f`.
pub open spec fn missing_paths(f: Seq<Tag>, segs: Seq<Seq<char>>, n: int) -> int
    decreases n,
{
    if n <= 0 {
        0
    } else {
        missing_paths(f, segs, n - 1) + if is_path(f, segs.take(n)) {
            0int
        } else {
            1int
        }
    }
}

/// Where sibling names are distinct, following the first tag of each name is
/// following the only one: `contains_path` holds exactly for chains of tags.
pub proof fn lemma_is_path(f: Seq<Tag>, segs: Seq<Seq<char>>)
    requires
        distinct_siblings(f),
    ensures
        is_path(f, segs) == contains_path(f, segs),
    decreases segs.len(),
{
    if segs.len() > 0 {
        lemma_find_tag(f, segs[0]);
        lemma_distinct_siblings(f);
        let j = find_tag(f, segs[0]);
        let rest = segs.drop_first();
        if j >= 0 {
            lemma_is_path(f[j].children, rest);
        }
        if is_path(f, segs) {
            let i = choose|i: int|
                0 <= i < f.len() && #[trigger] f[i].name == segs[0] && is_path(f[i].children, rest);
            assert(j >= 0);
            assert(i == j);
        }
        if contains_path(f, segs) {
            assert(f[j].name == segs[0]);
        }
    }
}

/// Counting prefixes that name no chain of tags is counting those that
/// `contains_path` misses, where sibling names are distinct.
proof fn lemma_missing_paths(f: Seq<Tag>, segs: Seq<Seq<char>>, n: int)
    requires
        distinct_siblings(f),
    ensures
        missing_paths(f, segs, n) == missing_prefixes(f, segs, n),
    decreases n,
{
    if n > 0 {
        lemma_missing_paths(f, segs, n - 1);
        lemma_is_path(f, segs.take(n));
    }
}

/// In a tree whose names are valid and whose sibling names are distinct,
/// adding a path of valid names keeps both, and adds exactly one tag for each
/// prefix of the path that named no chain of tags from the top before.
pub proof fn law_add_tree(f: Seq<Tag>, segs: Seq<Seq<char>>)
    requires
        valid_forest(f),
        distinct_siblings(f),
        forall|k: int| 0 <= k < segs.len() ==> valid_tag_name(#[trigger] segs[k]),
    ensures
        valid_forest(add_path(f, segs)),
        distinct_siblings(add_path(f, segs)),
        tag_count(add_path(f, segs)) == tag_count(f) + missing_paths(f, segs, segs.len() as int),
{
    law_add_keeps_names_valid(f, segs);
    law_add_keeps_siblings_distinct(f, segs);
    law_add_node_count(f, segs);
    lemma_missing_paths(f, segs, segs.len() as int);
}

/// `law_add_tree` for a `/`-separated path whose segments are not empty and
/// hold no whitespace: what `TagTree::add` does to a tree with valid names and
/// distinct sibling names.
pub proof fn law_add_path_tree(f: Seq<Tag>, path: Seq<char>)
    requires
        valid_forest(f),
        distinct_siblings(f),
        forall|k: int|
            0 <= k < split_on(path, '/').len() ==> (#[trigger] split_on(path, '/')[k]).len() > 0
                && forall|i: int| 0 <= i < split_on(path, '/')[k].len() ==> !is_ws(split_on(path, '/')[k][i]),
    ensures
        valid_forest(add_path(f, split_on(path, '/'))),
        distinct_siblings(add_path(f, split_on(path, '/'))),
        tag_count(add_path(f, split_on(path, '/'))) == tag_count(f) + missing_paths(
            f,
            split_on(path, '/'),
            split_on(path, '/').len() as int,
        ),
{
    let segs = split_on(path, '/');
    crate::text::lemma_split_pieces_free(path, '/');
    assert forall|k: int| 0 <= k < segs.len() implies valid_tag_name(#[trigger] segs[k]) by {
        assert forall|i: int| 0 <= i < segs[k].len() implies !is_ws(#[trigger] segs[k][i]) && segs[k][i]
            != '/' by {
            assert(segs[k][i] == split_on(path, '/')[k][i]);
        }
    }
    law_add_tree(f, segs);
}

} // verus!
