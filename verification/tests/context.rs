use code_format::text::{
  append_lines, clone_lines, clone_opt, glued, concat_lines, join_lines, push_line, spaces,
  text_width,
};
use code_format::{ColumnConfig, Context, Layout};

fn oneline_comment_format(s: String) -> String {
  format!("# {s}")
}

fn block_comment_format(ctx: Layout, s: Vec<String>) -> Vec<String> {
  s.into_iter()
    .map(|l| format!("{}:{}:{} {l}", ctx.depth, ctx.tab_spaces, ctx.line_width))
    .collect()
}

type Oneline = fn(String) -> String;
type Block = fn(Layout, Vec<String>) -> Vec<String>;

const ONELINE: Oneline = oneline_comment_format;
const BLOCK: Block = block_comment_format;

fn ctx_with<'a>(depth: usize, tab_spaces: usize, line_width: usize) -> Context<'a, Oneline, Block> {
  Context {
    depth,
    tab_spaces,
    line_width,
    break_str: String::from("\n"),
    list_join_str: None,
    oneline_comment_format: &ONELINE,
    block_comment_format: &BLOCK,
  }
}

#[test]
fn column_config_default_and_setters() {
  let config = ColumnConfig::default();
  assert_eq!(ColumnConfig { is_break: None, space_size: None }, config);
  assert_eq!(1, config.space_after());
  let forbid = config.set_is_break(Some(false));
  assert_eq!(ColumnConfig { is_break: Some(false), space_size: None }, forbid);
  let spaced = forbid.set_space_size(3);
  assert_eq!(ColumnConfig { is_break: Some(false), space_size: Some(3) }, spaced);
  assert_eq!(3, spaced.space_after());
  assert_eq!(0, config.set_space_size(0).space_after());
  assert_eq!(
    ColumnConfig { is_break: Some(true), space_size: Some(3) },
    spaced.set_is_break(Some(true))
  );
}

#[test]
fn len_max_is_what_the_indentation_leaves() {
  assert_eq!(35, ctx_with(0, 2, 35).len_max());
  assert_eq!(29, ctx_with(3, 2, 35).len_max());
  assert_eq!(1, ctx_with(17, 2, 35).len_max());
}

#[test]
fn len_max_is_never_negative() {
  assert_eq!(0, ctx_with(18, 2, 35).len_max());
  assert_eq!(0, ctx_with(5, 7, 35).len_max());
  assert_eq!(0, ctx_with(usize::MAX, usize::MAX, 35).len_max());
  assert_eq!(0, ctx_with(0, 2, 0).len_max());
}

#[test]
fn increment_depth_goes_one_deeper() {
  let ctx = ctx_with(4, 2, 35);
  let deeper = ctx.increment_depth();
  assert_eq!(5, deeper.depth);
  assert_eq!(2, deeper.tab_spaces);
  assert_eq!(35, deeper.line_width);
  assert_eq!("\n", deeper.break_str);
  assert_eq!(None, deeper.list_join_str);
  assert_eq!(usize::MAX, ctx_with(usize::MAX, 2, 35).increment_depth().depth);
}

#[test]
fn indent_is_one_step() {
  assert_eq!("  ", ctx_with(4, 2, 35).indent());
  assert_eq!("", ctx_with(4, 0, 35).indent());
  assert_eq!("     ", ctx_with(0, 5, 35).indent());
}

#[test]
fn set_list_join_str_changes_the_joiner_only() {
  let ctx = ctx_with(4, 2, 35);
  let joined = ctx.set_list_join_str(Some(",".to_string()));
  assert_eq!(Some(",".to_string()), joined.list_join_str);
  assert_eq!(4, joined.depth);
  assert_eq!(None, joined.set_list_join_str(None).list_join_str);
}

#[test]
fn renderers_are_called_with_the_layout() {
  let ctx = ctx_with(4, 2, 35);
  assert_eq!("# note", ctx.oneline("note".to_string()));
  assert_eq!(
    vec!["4:2:35 a".to_string(), "4:2:35 b".to_string()],
    ctx.block(vec!["a".to_string(), "b".to_string()])
  );
}

#[test]
fn text_width_is_the_byte_length() {
  assert_eq!(0, text_width(""));
  assert_eq!(5, text_width("hello"));
  assert_eq!(6, text_width("日本"));
  assert_eq!(4, text_width("😀"));
}

#[test]
fn spaces_and_concat() {
  assert_eq!("", spaces(0));
  assert_eq!("   ", spaces(3));
  assert_eq!("ab", glued("a", "b"));
  assert_eq!("a", glued("a", ""));
}

#[test]
fn lines_are_joined_and_glued() {
  let v = vec!["a".to_string(), "b".to_string(), "c".to_string()];
  assert_eq!("a, b, c", join_lines(&v, ", "));
  assert_eq!("abc", concat_lines(&v));
  assert_eq!("", join_lines(&vec![], ", "));
  assert_eq!("a", join_lines(&vec!["a".to_string()], ", "));
  assert_eq!("", concat_lines(&vec![]));
}

#[test]
fn lines_are_copied_and_appended() {
  let v = vec!["a".to_string(), "b".to_string()];
  let mut w = clone_lines(&v);
  assert_eq!(v, w);
  push_line(&mut w, "c".to_string());
  append_lines(&mut w, vec!["d".to_string()]);
  assert_eq!(vec!["a", "b", "c", "d"], w);
  assert_eq!(Some("x".to_string()), clone_opt(&Some("x".to_string())));
  assert_eq!(None, clone_opt(&None));
}

#[test]
fn new_context_has_the_default_settings() {
  let ctx = Context::new(&ONELINE, &BLOCK);
  assert_eq!(0, ctx.depth);
  assert_eq!(2, ctx.tab_spaces);
  assert_eq!(35, ctx.line_width);
  assert_eq!("\n", ctx.break_str);
  assert_eq!(None, ctx.list_join_str);
  assert_eq!(35, ctx.len_max());
  assert_eq!("# x", ctx.oneline("x".to_string()));
}

#[test]
fn context_is_copied() {
  let mut ctx = ctx_with(3, 4, 50);
  ctx.list_join_str = Some(";".to_string());
  let copy = ctx.clone();
  assert_eq!(3, copy.depth);
  assert_eq!(4, copy.tab_spaces);
  assert_eq!(50, copy.line_width);
  assert_eq!("\n", copy.break_str);
  assert_eq!(Some(";".to_string()), copy.list_join_str);
  assert_eq!("# x", copy.oneline("x".to_string()));
}
