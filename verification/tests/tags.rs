use takt::tags::TagTree;
use takt::TaktError;

const SAMPLE: &str = "\
work
  project-x
    fix-bug
    implement-api
  project-y
study
  math
    linear-algebra
  rust
personal";

#[test]
fn tags_parse_and_write_round_trip() {
    let tree = TagTree::parse(SAMPLE).unwrap();
    let output = tree.write();
    assert_eq!(output.trim_end(), SAMPLE);
}

#[test]
fn resolve_unique_leaf() {
    let tree = TagTree::parse(SAMPLE).unwrap();
    assert_eq!(tree.resolve("fix-bug").unwrap(), "work/project-x/fix-bug");
}

#[test]
fn resolve_unique_intermediate() {
    let tree = TagTree::parse(SAMPLE).unwrap();
    assert_eq!(tree.resolve("project-x").unwrap(), "work/project-x");
}

#[test]
fn resolve_top_level() {
    let tree = TagTree::parse(SAMPLE).unwrap();
    assert_eq!(tree.resolve("personal").unwrap(), "personal");
}

#[test]
fn resolve_unknown() {
    let tree = TagTree::parse(SAMPLE).unwrap();
    let err = tree.resolve("nonexistent").unwrap_err();
    assert!(matches!(err, TaktError::UnknownTag(_)));
}

#[test]
fn resolve_ambiguous() {
    let input = "\
a
  shared
b
  shared";
    let tree = TagTree::parse(input).unwrap();
    let err = tree.resolve("shared").unwrap_err();
    match err {
        TaktError::AmbiguousTag(paths) => {
            assert_eq!(paths, vec!["a/shared", "b/shared"]);
        }
        _ => panic!("expected Ambiguous"),
    }
}

#[test]
fn add_new_path() {
    let mut tree = TagTree::parse(SAMPLE).unwrap();
    tree.add("work/project-x/new-task");
    assert_eq!(tree.resolve("new-task").unwrap(), "work/project-x/new-task");
}

#[test]
fn add_entirely_new_branch() {
    let mut tree = TagTree::parse(SAMPLE).unwrap();
    tree.add("hobbies/guitar");
    assert_eq!(tree.resolve("guitar").unwrap(), "hobbies/guitar");
}

#[test]
fn add_does_not_duplicate_existing() {
    let mut tree = TagTree::parse(SAMPLE).unwrap();
    tree.add("work/project-x/fix-bug");
    // should still resolve uniquely, not create a duplicate
    assert_eq!(tree.resolve("fix-bug").unwrap(), "work/project-x/fix-bug");
}

#[test]
fn parse_rejects_depth_jump() {
    let input = "foo\n    bar"; // jumps from 0 to 2
    let err = TagTree::parse(input).unwrap_err();
    assert!(matches!(err, TaktError::UnexpectedIndent { .. }))
}

#[test]
fn parse_rejects_indented_first_line() {
    let input = "  foo"; // top-level line can't be indented
    let err = TagTree::parse(input).unwrap_err();
    assert!(matches!(err, TaktError::UnexpectedIndent { .. }));
}

#[test]
fn lex_rejects_odd_indentation() {
    let input = "foo\n   bar"; // 3 spaces — not a multiple of 2
    let err = TagTree::parse(input).unwrap_err();
    assert!(matches!(err, TaktError::MalformedLine { .. }));
}

#[test]
fn lex_rejects_tab_indentation() {
    let input = "\tfoo"; // tab leaves a whitespace char in the name
    let err = TagTree::parse(input).unwrap_err();
    assert!(matches!(err, TaktError::MalformedLine { .. }));
}

#[test]
fn lex_rejects_whitespace_in_name() {
    let input = "foo bar"; // internal space
    let err = TagTree::parse(input).unwrap_err();
    assert!(matches!(err, TaktError::MalformedLine { .. }));
}

#[test]
fn parse_skips_blank_lines() {
    let input = "work\n\n  project-x\n\n";
    let tree = TagTree::parse(input).unwrap();
    assert_eq!(tree.resolve("project-x").unwrap(), "work/project-x");
}

#[test]
fn parse_tolerates_trailing_whitespace() {
    let input = "work   \n  project-x  ";
    let tree = TagTree::parse(input).unwrap();
    assert_eq!(tree.resolve("project-x").unwrap(), "work/project-x");
}

// Further cases: exact values, errors, and edges.

#[test]
fn lex_reports_depth_and_name_per_line() {
    let lines = TagTree::lex("work\n\n  project-x   \nstudy").unwrap();
    assert_eq!(lines, vec![(0, 0, "work"), (2, 1, "project-x"), (3, 0, "study")]);
}

#[test]
fn lex_error_names_the_line() {
    match TagTree::lex("ok\n   bad").unwrap_err() {
        TaktError::MalformedLine { line, content } => {
            assert_eq!(line, 1);
            assert_eq!(content, "   bad");
        }
        _ => panic!("expected MalformedLine"),
    }
}

#[test]
fn depth_jump_reports_limit_and_depth() {
    match TagTree::parse("a\n  b\n      c").unwrap_err() {
        TaktError::UnexpectedIndent { line, max, depth } => {
            assert_eq!(line, 2);
            assert_eq!(max, 2);
            assert_eq!(depth, 3);
        }
        _ => panic!("expected UnexpectedIndent"),
    }
}

#[test]
fn empty_text_is_an_empty_tree() {
    let tree = TagTree::parse("").unwrap();
    assert_eq!(tree.write(), "");
    assert!(matches!(tree.resolve("x").unwrap_err(), TaktError::UnknownTag(_)));
}

#[test]
fn add_twice_writes_once() {
    let mut tree = TagTree::new();
    tree.add("a/b");
    tree.add("a/b");
    tree.add("a/c");
    assert_eq!(tree.write(), "a\n  b\n  c\n");
}

#[test]
fn from_paths_builds_in_order() {
    let paths = vec!["work/project-x".to_string(), "study/math".to_string(), "work/y".to_string()];
    let tree = TagTree::from_paths(&paths);
    assert_eq!(tree.write(), "work\n  project-x\n  y\nstudy\n  math\n");
}

#[test]
fn default_tree_is_empty() {
    let tree = TagTree::default();
    assert_eq!(tree.write(), "");
}

#[test]
fn write_then_parse_gives_same_text() {
    let mut tree = TagTree::new();
    tree.add("x/y/z");
    tree.add("w");
    let text = tree.write();
    let again = TagTree::parse(&text).unwrap();
    assert_eq!(again.write(), text);
}

#[test]
fn resolve_full_path() {
    let tree = TagTree::parse("work\n  project-x\n    fix-bug\n").unwrap();
    assert_eq!(tree.resolve("work/project-x/fix-bug").unwrap(), "work/project-x/fix-bug");
    assert_eq!(tree.resolve("work/project-x").unwrap(), "work/project-x");
    assert!(matches!(tree.resolve("work/fix-bug").unwrap_err(), TaktError::UnknownTag(_)));
}

#[test]
fn leaf_name_still_wins_over_path() {
    let tree = TagTree::parse("a\n  b\nb").unwrap();
    match tree.resolve("b").unwrap_err() {
        TaktError::AmbiguousTag(paths) => assert_eq!(paths, vec!["a/b", "b"]),
        _ => panic!("expected Ambiguous"),
    }
}

#[test]
fn error_message_counts_lines_from_one() {
    let err = TagTree::lex("foo\n   bar").unwrap_err();
    assert!(matches!(&err, TaktError::MalformedLine { line: 1, content } if content == "   bar"));
    assert_eq!(err.message(), "malformed line 2:    bar");
}

#[test]
fn indent_error_message() {
    let err = TagTree::parse("a\n  b\n      c").unwrap_err();
    assert_eq!(err.message(), "unexpected indent on line 3: expected depth ≤ 2, got 3");
}

#[test]
fn fixed_error_messages() {
    assert_eq!(TaktError::NoActiveTask.message(), "no active task — run `takt start <tag>` first");
    assert_eq!(TaktError::UnknownTag("x".to_string()).message(), "unknown tag: x");
    assert_eq!(
        TaktError::NoDataDir.message(),
        "could not locate a data directory (is $HOME set?)"
    );
    assert_eq!(
        TaktError::AmbiguousTag(vec!["a/s".to_string(), "b/s".to_string()]).message(),
        "ambiguous tag, could be: [\"a/s\", \"b/s\"]"
    );
}

#[test]
fn add_creates_only_missing_prefixes() {
    let mut tree = TagTree::parse("work\n  project-x\n").unwrap();
    tree.add("work/project-x/a/b");
    assert_eq!(tree.write(), "work\n  project-x\n    a\n      b\n");
    tree.add("work/project-x/a/b");
    assert_eq!(tree.write(), "work\n  project-x\n    a\n      b\n");
}
