use code_format::tree::format::{
  before_comments_format, break_token_column, break_token_list, code_format as render_lines,
};
use code_format::tree::{code_format, Rule, RuleWithComment};
use code_format::{ColumnConfig, Context, Layout};

fn oneline_comment_format(s: String) -> String {
  format!("// {s}")
}

fn block_comment_format(ctx: Layout, s: Vec<String>) -> Vec<String> {
  let mut v = vec![format!("/* depth {}", ctx.depth)];
  for s in s {
    v.push(s)
  }
  v.push(String::from("*/"));
  v
}

type Oneline = fn(String) -> String;
type Block = fn(Layout, Vec<String>) -> Vec<String>;

const ONELINE: Oneline = oneline_comment_format;
const BLOCK: Block = block_comment_format;

fn ctx_with<'a>(depth: usize, line_width: usize) -> Context<'a, Oneline, Block> {
  Context {
    depth,
    tab_spaces: 2,
    line_width,
    break_str: String::from("\n"),
    list_join_str: None,
    oneline_comment_format: &ONELINE,
    block_comment_format: &BLOCK,
  }
}

fn make_ctx<'a>() -> Context<'a, Oneline, Block> {
  ctx_with(0, 35)
}

fn plain(rule: Rule) -> RuleWithComment {
  RuleWithComment {
    before_comments: vec![],
    rule,
    after_comment: None,
  }
}

fn raw(s: &str) -> RuleWithComment {
  plain(Rule::Raw(s.to_string()))
}

fn commented(before: Vec<&str>, rule: Rule, after: Option<&str>) -> RuleWithComment {
  RuleWithComment {
    before_comments: before.into_iter().map(|s| s.to_string()).collect(),
    rule,
    after_comment: after.map(|s| s.to_string()),
  }
}

fn paren(open: &str, content: RuleWithComment, close: &str) -> Rule {
  Rule::Paren(open.to_string(), Box::new(content), close.to_string())
}

fn list(join: &str, children: Vec<RuleWithComment>) -> Rule {
  Rule::List(join.to_string(), children)
}

fn token(text: &str, is_break: Option<bool>, space_size: Option<usize>) -> (RuleWithComment, ColumnConfig) {
  (raw(text), ColumnConfig { is_break, space_size })
}

fn lines(v: Vec<&str>) -> Vec<String> {
  v.into_iter().map(|s| s.to_string()).collect()
}

#[test]
fn paren_around_raw_collapses() {
  let rule = plain(paren("(", raw("3.14"), ")"));
  assert_eq!("(3.14)", code_format(&make_ctx(), &rule));
  assert_eq!((lines(vec!["(3.14)"]), false), render_lines(&make_ctx(), &rule));
}

#[test]
fn short_list_goes_on_one_line() {
  let rule = plain(list(",", vec![raw("42"), raw("3.14")]));
  assert_eq!("42, 3.14", code_format(&make_ctx(), &rule));
}

#[test]
fn list_as_wide_as_the_line_is_broken() {
  // "aaaa, bbbb" is ten wide: it must be narrower than the width to stay.
  let rule = plain(list(",", vec![raw("aaaa"), raw("bbbb")]));
  assert_eq!("aaaa, bbbb", code_format(&ctx_with(0, 11), &rule));
  assert_eq!("  aaaa,\n  bbbb", code_format(&ctx_with(0, 10), &rule));
}

#[test]
fn long_list_in_brackets_takes_a_line_per_element() {
  let rule = plain(paren(
    "[",
    plain(list(
      ",",
      vec![
        raw("first_element"),
        raw("second_element"),
        raw("third_element"),
        raw("fourth_element"),
        raw("fifth_element"),
      ],
    )),
    "]",
  ));
  let expected = "[\n  first_element,\n  second_element,\n  third_element,\n  fourth_element,\n  fifth_element\n]";
  assert_eq!(expected, code_format(&make_ctx(), &rule));
}

#[test]
fn let_column_packs_its_tokens() {
  let block = plain(paren("{", raw("value"), "}"));
  let rule = plain(Rule::Column(vec![
    token("let", Some(false), None),
    token("name", Some(false), Some(2)),
    token("=", None, None),
    (block, ColumnConfig::default()),
  ]));
  assert_eq!("let name  = {value}", code_format(&make_ctx(), &rule));
}

#[test]
fn let_column_breaks_before_a_block_that_does_not_fit() {
  let block = plain(paren("{", raw("a_rather_long_value_here"), "}"));
  let rule = plain(Rule::Column(vec![
    token("let", Some(false), None),
    token("name", Some(false), Some(2)),
    token("=", None, None),
    (block, ColumnConfig::default()),
  ]));
  // "let name  =" is 11 wide, the block 26: together with the blank 38 > 35.
  assert_eq!(
    "let name  =\n{a_rather_long_value_here}",
    code_format(&make_ctx(), &rule)
  );
}

#[test]
fn column_breaks_after_a_forced_break() {
  let rule = plain(Rule::Column(vec![
    token("a", Some(true), None),
    token("b", None, None),
    token("c", None, None),
  ]));
  assert_eq!(
    (lines(vec!["a", "b c"]), false),
    render_lines(&make_ctx(), &rule)
  );
}

#[test]
fn column_without_space_joins_tokens() {
  let rule = plain(Rule::Column(vec![
    token("f", None, Some(0)),
    token("(x)", None, None),
  ]));
  assert_eq!("f(x)", code_format(&make_ctx(), &rule));
}

#[test]
fn column_flushes_settled_when_nothing_is_provisional() {
  let rule = plain(Rule::Column(vec![
    token("aaaaaa", None, None),
    token("bbbbbb", None, None),
  ]));
  // width 10: "aaaaaa bbbbbb" is 13 wide.
  assert_eq!(
    (lines(vec!["aaaaaa", "bbbbbb"]), false),
    render_lines(&ctx_with(0, 10), &rule)
  );
}

#[test]
fn column_keeps_the_wider_line_within_the_width() {
  // settled "aa", provisional "bbbb": both candidate lines fit into 9,
  // "bbbb ccc" (8) is wider than "aa bbbb" (7) and is taken.
  let rule = plain(Rule::Column(vec![
    token("aa", Some(false), None),
    token("bbbb", Some(false), None),
    token("ccc", None, None),
  ]));
  assert_eq!(
    (lines(vec!["aa", "bbbb ccc", ""]), false),
    render_lines(&ctx_with(0, 9), &rule)
  );
}

#[test]
fn column_closes_the_line_early_when_the_tail_would_overflow() {
  // settled "aa", provisional "bbbb": "aa bbbb" (7) fits into 8,
  // "bbbb ccccc" (10) does not.
  let rule = plain(Rule::Column(vec![
    token("aa", Some(false), None),
    token("bbbb", Some(false), None),
    token("ccccc", None, None),
  ]));
  assert_eq!(
    (lines(vec!["aa bbbb", "ccccc"]), false),
    render_lines(&ctx_with(0, 8), &rule)
  );
}

#[test]
fn column_prefers_the_earlier_line_on_a_tie() {
  // "aaa bb" and "bb aaa" are both 6 wide and both fit into 7.
  let rule = plain(Rule::Column(vec![
    token("aaa", Some(false), None),
    token("bb", Some(false), None),
    token("aaa", None, None),
  ]));
  assert_eq!(
    (lines(vec!["aaa bb", "aaa"]), false),
    render_lines(&ctx_with(0, 7), &rule)
  );
}

#[test]
fn column_carries_the_last_line_of_a_broken_token() {
  let broken = plain(paren("{", commented(vec![], Rule::Raw("x".to_string()), Some("c")), "}"));
  let rule = plain(Rule::Column(vec![
    token("fn", None, None),
    (broken, ColumnConfig::default()),
    token("end", None, None),
  ]));
  assert_eq!(
    (lines(vec!["fn", "{", "x // c", "} end"]), false),
    render_lines(&make_ctx(), &rule)
  );
}

#[test]
fn column_comment_joins_the_last_line() {
  let rule = commented(
    vec![],
    Rule::Column(vec![token("a", None, None), token("b", None, None)]),
    Some("note"),
  );
  assert_eq!(
    (lines(vec!["a b // note"]), true),
    render_lines(&make_ctx(), &rule)
  );
}

#[test]
fn column_comment_stands_alone_after_a_token_comment() {
  let rule = commented(
    vec![],
    Rule::Column(vec![
      token("a", None, None),
      (
        commented(vec![], Rule::Raw("b".to_string()), Some("inner")),
        ColumnConfig::default(),
      ),
    ]),
    Some("outer"),
  );
  assert_eq!(
    (lines(vec!["a b // inner", "// outer"]), true),
    render_lines(&make_ctx(), &rule)
  );
}

#[test]
fn empty_column_is_one_empty_line() {
  let rule = plain(Rule::Column(vec![]));
  assert_eq!((lines(vec![""]), false), render_lines(&make_ctx(), &rule));
}

#[test]
fn raw_with_comments() {
  let rule = commented(vec!["before"], Rule::Raw("x".to_string()), Some("after"));
  assert_eq!(
    (lines(vec!["// before", "x // after"]), true),
    render_lines(&make_ctx(), &rule)
  );
}

#[test]
fn several_comments_before_make_a_block() {
  let rule = commented(vec!["one", "two"], Rule::Raw("x".to_string()), None);
  assert_eq!(
    (lines(vec!["/* depth 3", "one", "two", "*/", "x"]), false),
    render_lines(&ctx_with(3, 35), &rule)
  );
}

#[test]
fn before_comments_none_one_many() {
  let ctx = make_ctx();
  assert_eq!(None, before_comments_format(&ctx, &vec![]));
  assert_eq!(
    Some(lines(vec!["// a"])),
    before_comments_format(&ctx, &lines(vec!["a"]))
  );
  assert_eq!(
    Some(lines(vec!["/* depth 0", "a", "b", "*/"])),
    before_comments_format(&ctx, &lines(vec!["a", "b"]))
  );
}

#[test]
fn wrapper_without_comments_is_its_content() {
  let inner = commented(vec![], Rule::Raw("x".to_string()), Some("c"));
  let wrapped = plain(Rule::AST(Box::new(commented(
    vec![],
    Rule::Raw("x".to_string()),
    Some("c"),
  ))));
  assert_eq!(
    render_lines(&make_ctx(), &inner),
    render_lines(&make_ctx(), &wrapped)
  );
  assert_eq!((lines(vec!["x // c"]), true), render_lines(&make_ctx(), &wrapped));
}

#[test]
fn wrapper_renders_its_comments() {
  let rule = commented(vec!["lead"], Rule::AST(Box::new(raw("x"))), Some("trail"));
  assert_eq!(
    (lines(vec!["// lead", "x", "// trail"]), true),
    render_lines(&make_ctx(), &rule)
  );
}

#[test]
fn paren_with_trailing_content_comment_opens_a_block() {
  let rule = plain(paren(
    "(",
    commented(vec![], Rule::Raw("x".to_string()), Some("c")),
    ")",
  ));
  assert_eq!(
    (lines(vec!["(", "x // c", ")"]), false),
    render_lines(&make_ctx(), &rule)
  );
}

#[test]
fn paren_comment_follows_the_closing_bracket() {
  let rule = commented(vec![], paren("(", raw("x"), ")"), Some("c"));
  assert_eq!((lines(vec!["(x) // c"]), true), render_lines(&make_ctx(), &rule));
}

#[test]
fn joiner_goes_before_a_trailing_comment() {
  let rule = plain(list(
    ",",
    vec![
      commented(vec![], Rule::Raw("a".to_string()), Some("first")),
      commented(vec![], paren("(", raw("b"), ")"), Some("second")),
      raw("c"),
    ],
  ));
  assert_eq!(
    (lines(vec!["  a, // first", "  (b), // second", "  c"]), false),
    render_lines(&make_ctx(), &rule)
  );
}

#[test]
fn list_comment_is_a_line_of_its_own_when_broken() {
  let rule = commented(
    vec![],
    list(",", vec![commented(vec!["lead"], Rule::Raw("a".to_string()), None), raw("b")]),
    Some("tail"),
  );
  assert_eq!(
    (lines(vec!["  // lead", "  a,", "  b", "// tail"]), true),
    render_lines(&make_ctx(), &rule)
  );
}

#[test]
fn list_comment_joins_the_one_line() {
  let rule = commented(vec![], list(";", vec![raw("a"), raw("b")]), Some("tail"));
  assert_eq!(
    (lines(vec!["a; b // tail"]), true),
    render_lines(&make_ctx(), &rule)
  );
}

#[test]
fn list_reports_the_comment_of_its_last_element() {
  let ctx = make_ctx();
  let children = vec![raw("a"), commented(vec![], Rule::Raw("b".to_string()), Some("c"))];
  assert_eq!(
    (lines(vec!["a, b // c"]), true),
    break_token_list(&ctx, &",".to_string(), &vec![], &children, &None)
  );
}

#[test]
fn empty_list() {
  let rule = plain(list(",", vec![]));
  assert_eq!((lines(vec![""]), false), render_lines(&make_ctx(), &rule));
  // no width left: the broken form of no elements has no line
  assert_eq!((lines(vec![]), false), render_lines(&ctx_with(20, 35), &rule));
}

#[test]
fn width_counts_bytes() {
  // four characters of three bytes each, a separator of two bytes and one byte
  let rule = plain(list(",", vec![raw("ああああ"), raw("x")]));
  assert_eq!("ああああ, x", code_format(&ctx_with(0, 16), &rule));
  assert_eq!("  ああああ,\n  x", code_format(&ctx_with(0, 15), &rule));
}

#[test]
fn break_string_joins_the_lines() {
  let mut ctx = ctx_with(0, 4);
  ctx.break_str = String::from("|");
  let rule = plain(list(",", vec![raw("aa"), raw("bb")]));
  assert_eq!("  aa,|  bb", code_format(&ctx, &rule));
}

#[test]
fn column_lines_stay_within_the_width() {
  let words = ["alpha", "beta", "gamma", "delta", "epsilon", "zeta", "eta", "theta", "iota"];
  let configs = [None, Some(false), None, Some(false), Some(false), None, Some(true), None, None];
  let tokens: Vec<(RuleWithComment, ColumnConfig)> = words
    .iter()
    .zip(configs.iter())
    .map(|(w, b)| token(w, *b, None))
    .collect();
  for width in 7..60 {
    let ctx = ctx_with(0, width);
    let (out, _) = break_token_column(&ctx, &vec![], &tokens, &None);
    for line in out.iter() {
      assert!(line.len() <= width, "{line:?} is wider than {width}");
    }
    let joined = out.join(" ");
    let all: Vec<&str> = joined.split_whitespace().collect();
    assert_eq!(words.to_vec(), all);
  }
}

#[test]
fn one_line_list_is_narrower_than_the_width() {
  let children = vec![raw("alpha"), raw("beta"), raw("gamma")];
  for width in 0..30 {
    let ctx = ctx_with(0, width);
    let (out, _) = break_token_list(&ctx, &",".to_string(), &vec![], &children, &None);
    if out.len() == 1 {
      assert!(out[0].len() < width);
      assert_eq!("alpha, beta, gamma", out[0]);
    } else {
      assert_eq!(lines(vec!["  alpha,", "  beta,", "  gamma"]), out);
    }
  }
}

#[test]
fn collapsed_paren_stays_collapsed_with_more_width() {
  let rule = plain(paren(
    "(",
    plain(list(",", vec![raw("alpha"), raw("beta")])),
    ")",
  ));
  let narrow = render_lines(&ctx_with(3, 20), &rule);
  assert_eq!((lines(vec!["(alpha, beta)"]), false), narrow);
  for depth in 0..3 {
    assert_eq!(narrow, render_lines(&ctx_with(depth, 20), &rule));
  }
  for width in 20..40 {
    assert_eq!(narrow, render_lines(&ctx_with(3, width), &rule));
  }
}

#[test]
fn trees_are_copied() {
  let tree = commented(
    vec!["lead", "more"],
    Rule::Column(vec![
      (plain(paren("(", raw("a"), ")")), ColumnConfig::default().set_is_break(Some(true))),
      (
        plain(list(",", vec![raw("b"), plain(Rule::AST(Box::new(raw("c"))))])),
        ColumnConfig::default().set_space_size(3),
      ),
    ]),
    Some("trail"),
  );
  let copy = tree.clone();
  assert_eq!(format!("{tree:?}"), format!("{copy:?}"));
  assert_eq!(format!("{:?}", tree.rule), format!("{:?}", tree.rule.clone()));
  assert_eq!(render_lines(&make_ctx(), &tree), render_lines(&make_ctx(), &copy));
}

#[test]
fn last_element_of_a_list_gets_no_joiner() {
  let ctx = make_ctx();
  let children = vec![raw("a"), commented(vec![], Rule::Raw("b".to_string()), Some("y"))];
  assert_eq!(
    (lines(vec!["a, b // y"]), true),
    break_token_list(&ctx, &",".to_string(), &vec![], &children, &None)
  );
  // broken form: the first element keeps the joiner before its comment
  let broken = vec![
    commented(vec![], Rule::Raw("a".to_string()), Some("x")),
    commented(vec![], paren("(", raw("b"), ")"), Some("y")),
  ];
  // the list reports the comment at its end
  assert_eq!(
    (lines(vec!["  a, // x", "  (b) // y"]), true),
    break_token_list(&ctx, &",".to_string(), &vec![], &broken, &None)
  );
  // a list of one element: that element is the last
  let single = vec![commented(vec![], Rule::Raw("a".to_string()), Some("x"))];
  assert_eq!(
    (lines(vec!["a // x"]), true),
    break_token_list(&ctx, &";".to_string(), &vec![], &single, &None)
  );
}

#[test]
fn no_break_tokens_keep_their_spacing() {
  let forbid = ColumnConfig::default().set_is_break(Some(false));
  let tokens = vec![
    (raw("a"), forbid),
    (raw("b"), forbid),
    (raw("c"), forbid),
    (raw("d"), ColumnConfig::default()),
  ];
  assert_eq!(
    (lines(vec!["a b c d"]), false),
    break_token_column(&make_ctx(), &vec![], &tokens, &None)
  );
  let spaced = vec![
    (raw("a"), forbid.set_space_size(0)),
    (raw("b"), forbid.set_space_size(2)),
    (raw("c"), forbid.set_space_size(3)),
    (raw("d"), forbid),
    (raw("e"), ColumnConfig::default()),
  ];
  assert_eq!(
    (lines(vec!["ab  c   d e"]), false),
    break_token_column(&make_ctx(), &vec![], &spaced, &None)
  );
}

#[test]
fn more_width_makes_no_more_lines_without_columns() {
  let tree = plain(paren(
    "[",
    plain(list(
      ",",
      vec![
        raw("alpha"),
        plain(paren("(", plain(list(";", vec![raw("beta"), raw("gamma"), raw("delta")])), ")")),
        commented(vec!["note"], Rule::Raw("epsilon".to_string()), Some("why")),
        plain(Rule::AST(Box::new(plain(list("+", vec![raw("zeta"), raw("eta")]))))),
      ],
    )),
    "]",
  ));
  let mut before = usize::MAX;
  for width in 0..80 {
    let count = render_lines(&ctx_with(0, width), &tree).0.len();
    assert!(count <= before, "{count} lines at width {width}, {before} before");
    before = count;
  }
  // the comment before `epsilon` keeps the list broken: five lines of
  // elements between the two brackets
  assert_eq!(7, before);
  for depth in 0..20 {
    let deep = render_lines(&ctx_with(depth + 1, 60), &tree).0.len();
    let shallow = render_lines(&ctx_with(depth, 60), &tree).0.len();
    assert!(shallow <= deep);
  }
}

#[test]
fn closer_line_on_overflow_can_cost_a_line() {
  // "A BBB" fits into 6 and "BBB CCCC" does not: the line closes behind BBB.
  // Both fit into 8, and the wider, "BBB CCCC", is taken.
  let tokens = vec![
    token("A", None, None),
    token("BBB", Some(false), None),
    token("CCCC", None, None),
    token("D", None, None),
  ];
  assert_eq!(
    (lines(vec!["A BBB", "CCCC D"]), false),
    break_token_column(&ctx_with(0, 6), &vec![], &tokens, &None)
  );
  assert_eq!(
    (lines(vec!["A", "BBB CCCC", "D"]), false),
    break_token_column(&ctx_with(0, 8), &vec![], &tokens, &None)
  );
}

#[test]
fn column_keeps_its_tokens_in_order() {
  let broken = plain(paren("{", commented(vec![], Rule::Raw("x".to_string()), Some("c")), "}"));
  let tokens = vec![
    token("one", Some(false), Some(2)),
    token("two", Some(false), None),
    token("three", None, Some(0)),
    (broken, ColumnConfig::default()),
    token("four", Some(true), None),
    token("five", Some(false), Some(3)),
    token("six", None, None),
  ];
  for width in 0..40 {
    let (out, _) = break_token_column(&ctx_with(0, width), &vec![], &tokens, &None);
    let ink: String = out.concat().chars().filter(|c| *c != ' ').collect();
    assert_eq!("onetwothree{x//c}fourfivesix", ink, "at width {width}");
  }
}

#[test]
fn joiner_stands_before_the_comment_of_a_wrapper() {
  let children = vec![
    commented(vec![], Rule::AST(Box::new(raw("a"))), Some("x")),
    raw("b"),
  ];
  assert_eq!(
    (lines(vec!["  a,", "  // x", "  b"]), false),
    break_token_list(&make_ctx(), &",".to_string(), &vec![], &children, &None)
  );
  // the content has a comment of its own: the joiner stands before that
  let nested = vec![
    commented(
      vec![],
      Rule::AST(Box::new(commented(vec![], Rule::Raw("a".to_string()), Some("w")))),
      Some("x"),
    ),
    raw("b"),
  ];
  assert_eq!(
    (lines(vec!["  a, // w", "  // x", "  b"]), false),
    break_token_list(&make_ctx(), &",".to_string(), &vec![], &nested, &None)
  );
  // no list around it: nothing is put behind the line
  let alone = commented(vec![], Rule::AST(Box::new(raw("a"))), Some("x"));
  assert_eq!((lines(vec!["a", "// x"]), true), render_lines(&make_ctx(), &alone));
}

#[test]
fn joiner_stands_before_the_comment_of_a_list_in_a_list() {
  let one_line = vec![
    commented(vec![], list(";", vec![raw("p"), raw("q")]), Some("c")),
    raw("z"),
  ];
  assert_eq!(
    (lines(vec!["  p; q, // c", "  z"]), false),
    break_token_list(&make_ctx(), &",".to_string(), &vec![], &one_line, &None)
  );
  let broken = vec![
    commented(
      vec![],
      list(";", vec![commented(vec!["lead"], Rule::Raw("p".to_string()), None), raw("q")]),
      Some("c"),
    ),
    raw("z"),
  ];
  assert_eq!(
    (lines(vec!["    // lead", "    p;", "    q,", "  // c", "  z"]), false),
    break_token_list(&make_ctx(), &",".to_string(), &vec![], &broken, &None)
  );
  // the inner list ends in a comment of its last element
  let ending = vec![
    plain(list(";", vec![raw("p"), commented(vec![], Rule::Raw("q".to_string()), Some("y"))])),
    raw("z"),
  ];
  assert_eq!(
    (lines(vec!["  p; q, // y", "  z"]), false),
    break_token_list(&make_ctx(), &",".to_string(), &vec![], &ending, &None)
  );
}

#[test]
fn joiner_stands_before_the_comment_of_a_column_in_a_list() {
  let own = vec![
    commented(
      vec![],
      Rule::Column(vec![token("a", None, None), token("b", None, None)]),
      Some("c"),
    ),
    raw("z"),
  ];
  assert_eq!(
    (lines(vec!["  a b, // c", "  z"]), false),
    break_token_list(&make_ctx(), &",".to_string(), &vec![], &own, &None)
  );
  let of_token = vec![
    plain(Rule::Column(vec![
      token("a", None, None),
      (commented(vec![], Rule::Raw("b".to_string()), Some("y")), ColumnConfig::default()),
    ])),
    raw("z"),
  ];
  assert_eq!(
    (lines(vec!["  a b, // y", "  z"]), false),
    break_token_list(&make_ctx(), &",".to_string(), &vec![], &of_token, &None)
  );
  // a column on its own reports the comment of its last token
  let column = plain(Rule::Column(vec![
    token("a", None, None),
    (commented(vec![], Rule::Raw("b".to_string()), Some("y")), ColumnConfig::default()),
  ]));
  assert_eq!((lines(vec!["a b // y"]), true), render_lines(&make_ctx(), &column));
}

#[test]
fn lines_stay_within_the_width_and_what_may_go_beyond_it() {
  // texts of five bytes at most, brackets and joiners of one byte, no comment:
  // a line may go beyond the width by the brackets of two nested collapses
  // and by one joiner
  let tree = plain(paren(
    "[",
    plain(list(
      ",",
      vec![
        raw("alpha"),
        plain(paren("(", plain(list(";", vec![raw("beta"), raw("gamma"), raw("delta")])), ")")),
        plain(Rule::Column(vec![
          token("let", Some(false), None),
          token("x", Some(false), Some(2)),
          token("=", None, None),
          (plain(paren("{", raw("zeta"), "}")), ColumnConfig::default()),
        ])),
        plain(paren("<", plain(paren("(", raw("eta"), ")")), ">")),
      ],
    )),
    "]",
  ));
  // from width 20 on every text fits at the depth where it stands
  for width in 20..60 {
    let (out, _) = render_lines(&ctx_with(0, width), &tree);
    for line in out.iter() {
      assert!(line.len() <= width + 5, "{line:?} at width {width}");
    }
  }
  // a bracket that fits is within the width with its brackets
  assert_eq!(
    (lines(vec!["(3.14)"]), false),
    render_lines(&ctx_with(0, 6), &plain(paren("(", raw("3.14"), ")")))
  );
  // a text wider than the line stands whole: the one line beyond the width
  assert_eq!(
    (lines(vec!["  a_text_wider_than_the_line,", "  b"]), false),
    render_lines(
      &ctx_with(0, 10),
      &plain(list(",", vec![raw("a_text_wider_than_the_line"), raw("b")]))
    )
  );
}

#[test]
fn bracket_around_a_short_list_stays_collapsed() {
  let empty = plain(paren("(", plain(list(",", vec![])), ")"));
  let single = plain(paren("(", plain(list(",", vec![raw("alpha")])), ")"));
  let column = plain(paren(
    "{",
    plain(Rule::Column(vec![token("a", Some(false), None), token("b", None, None)])),
    "}",
  ));
  for depth in 0..8 {
    assert_eq!((lines(vec!["()"]), false), render_lines(&ctx_with(depth, 20), &empty));
    assert_eq!((lines(vec!["(alpha)"]), false), render_lines(&ctx_with(depth, 22), &single));
    assert_eq!((lines(vec!["{a b}"]), false), render_lines(&ctx_with(depth, 20), &column));
  }
  for width in 6..40 {
    assert_eq!((lines(vec!["(alpha)"]), false), render_lines(&ctx_with(0, width), &single));
  }
}

#[test]
fn more_width_makes_no_more_lines_around_a_column_on_one_line() {
  let tree = plain(paren(
    "[",
    plain(list(
      ",",
      vec![
        plain(Rule::Column(vec![token("let", Some(false), None), token("x", None, None)])),
        raw("a_longer_element"),
        plain(Rule::Column(vec![token("y", None, None)])),
      ],
    )),
    "]",
  ));
  let mut before = usize::MAX;
  for width in 12..60 {
    let count = render_lines(&ctx_with(0, width), &tree).0.len();
    assert!(count <= before, "{count} lines at width {width}, {before} before");
    before = count;
  }
  assert_eq!(1, before);
}

#[test]
fn more_width_makes_no_more_lines_with_lists_of_any_length() {
  let tree = plain(paren(
    "[",
    plain(list(
      ",",
      vec![
        plain(list(";", vec![raw("a_single_element")])),
        plain(list(";", vec![])),
        plain(paren("(", plain(list("+", vec![raw("b")])), ")")),
        raw("c"),
      ],
    )),
    "]",
  ));
  let mut before = usize::MAX;
  for width in 12..60 {
    let count = render_lines(&ctx_with(0, width), &tree).0.len();
    assert!(count <= before, "{count} lines at width {width}, {before} before");
    before = count;
  }
  assert_eq!(
    (lines(vec!["[a_single_element, , (b), c]"]), false),
    render_lines(&ctx_with(0, 59), &tree)
  );
}
