//! A pretty-printing engine for documents that may still be growing.
//!
//! A document is a tree of rules with comments attached. The static formatter
//! in [`tree`] renders a complete tree under a width and an indentation; the
//! tag graph in [`dynamic`] keeps a document as token sequences keyed by tags,
//! so that parts can be supplied later and the known prefix rendered first.

use vstd::prelude::*;
use vstd::string::StringExecFns;

pub mod text;
pub mod tree;
pub mod dynamic;

verus! {

/// How a column token may be joined to the token that follows it.
#[derive(Clone, Copy, Debug, PartialEq, Eq)]
pub struct ColumnConfig {
    /// `Some(true)`: always break after the token; `Some(false)`: never break
    /// after it; `None`: a break is allowed.
    pub is_break: Option<bool>,
    /// The number of blanks after the token; `None` stands for one blank.
    pub space_size: Option<usize>,
}

impl Default for ColumnConfig {
    /// A break is allowed after the token, and one blank follows it.
    fn default() -> (r: Self)
        ensures
            r == (ColumnConfig { is_break: None, space_size: None }),
    {
        ColumnConfig { is_break: None, space_size: None }
    }
}

impl ColumnConfig {
    /// The number of blanks that follow the token.
    pub open spec fn gap(self) -> nat {
        match self.space_size {
            Some(n) => n as nat,
            None => 1,
        }
    }

    /// The same directive with another rule for the break after the token.
    pub fn set_is_break(&self, penalty: Option<bool>) -> (r: Self)
        ensures
            r == (ColumnConfig { is_break: penalty, space_size: self.space_size }),
    {
        ColumnConfig { is_break: penalty, space_size: self.space_size }
    }

    /// The same directive with `size` blanks after the token.
    pub fn set_space_size(&self, size: usize) -> (r: Self)
        ensures
            r == (ColumnConfig { is_break: self.is_break, space_size: Some(size) }),
    {
        ColumnConfig { is_break: self.is_break, space_size: Some(size) }
    }

    /// The number of blanks that follow the token.
    pub fn space_after(&self) -> (n: usize)
        ensures
            n == self.gap(),
    {
        match self.space_size {
            Some(n) => n,
            None => 1,
        }
    }
}

/// The layout settings of a [`Context`], as mathematical values.
pub struct ContextView {
    pub depth: nat,
    pub tab_spaces: nat,
    pub line_width: nat,
    pub break_str: Seq<char>,
    pub list_join_str: Option<Seq<char>>,
}

impl ContextView {
    /// The width that is left for text at this depth; zero when the
    /// indentation alone fills the line.
    pub open spec fn len_max(self) -> nat {
        if self.tab_spaces * self.depth >= self.line_width {
            0
        } else {
            (self.line_width - self.tab_spaces * self.depth) as nat
        }
    }

    /// One level deeper. The depth stays where it is once it has reached the
    /// largest value a machine word holds.
    pub open spec fn deeper(self) -> ContextView {
        ContextView {
            depth: if self.depth < usize::MAX {
                self.depth + 1
            } else {
                self.depth
            },
            ..self
        }
    }

    /// The same settings with another list joiner.
    pub open spec fn with_join(self, j: Option<Seq<char>>) -> ContextView {
        ContextView { list_join_str: j, ..self }
    }

    /// One step of indentation.
    pub open spec fn indent(self) -> Seq<char> {
        text::blanks(self.tab_spaces)
    }
}

/// The numbers of a context, as the block comment renderer gets them.
#[derive(Clone, Copy, Debug, PartialEq, Eq)]
pub struct Layout {
    pub depth: usize,
    pub tab_spaces: usize,
    pub line_width: usize,
}

/// The two comment renderers of a context as mathematical functions: from a
/// comment to its one-line form, and from the settings and several comment
/// lines to the lines of a block.
pub struct CommentSpec {
    pub oneline: spec_fn(Seq<char>) -> Seq<char>,
    pub block: spec_fn(ContextView, Seq<Seq<char>>) -> Seq<Seq<char>>,
}

impl CommentSpec {
    /// The one-line form of `comment`.
    pub open spec fn oneline_text(self, comment: Seq<char>) -> Seq<char> {
        (self.oneline)(comment)
    }

    /// The block form of `comments` under `ctx`.
    pub open spec fn block_lines(self, ctx: ContextView, comments: Seq<Seq<char>>) -> Seq<
        Seq<char>,
    > {
        (self.block)(ctx, comments)
    }
}

/// Whether `layout` holds the numbers of `ctx`.
pub open spec fn layout_of(layout: Layout, ctx: ContextView) -> bool {
    &&& layout.depth == ctx.depth
    &&& layout.tab_spaces == ctx.tab_spaces
    &&& layout.line_width == ctx.line_width
}

/// Whether `f` takes every comment, and what it returns depends on the text
/// of the comment alone.
pub open spec fn renders_text<F: Fn(String) -> String>(f: F) -> bool {
    &&& forall|s: String| call_requires(f, (s,))
    &&& forall|s1: String, s2: String, r1: String, r2: String|
        s1@ == s2@ && #[trigger] call_ensures(f, (s1,), r1) && #[trigger] call_ensures(
            f,
            (s2,),
            r2,
        ) ==> r1@ == r2@
}

/// Whether `g` takes every layout and every list of comments, and what it
/// returns depends on the layout and the texts of the comments alone.
pub open spec fn renders_blocks<G: Fn(Layout, Vec<String>) -> Vec<String>>(g: G) -> bool {
    &&& forall|l: Layout, v: Vec<String>| call_requires(g, (l, v))
    &&& forall|l: Layout, v1: Vec<String>, v2: Vec<String>, r1: Vec<String>, r2: Vec<String>|
        text::lines_view(v1@) == text::lines_view(v2@) && #[trigger] call_ensures(g, (l, v1), r1)
            && #[trigger] call_ensures(g, (l, v2), r2) ==> text::lines_view(r1@)
            == text::lines_view(r2@)
}

/// What `f` returns for a comment with the text `c`.
pub open spec fn oneline_of<F: Fn(String) -> String>(f: F, c: Seq<char>) -> Seq<char> {
    (choose|p: (String, String)| p.0@ == c && #[trigger] call_ensures(f, (p.0,), p.1)).1@
}

/// What `g` returns under the numbers of `ctx` for comments with the texts
/// `c`.
pub open spec fn block_of<G: Fn(Layout, Vec<String>) -> Vec<String>>(
    g: G,
    ctx: ContextView,
    c: Seq<Seq<char>>,
) -> Seq<Seq<char>> {
    text::lines_view(
        (choose|p: (Layout, Vec<String>, Vec<String>)|
            layout_of(p.0, ctx) && text::lines_view(p.1@) == c && #[trigger] call_ensures(
                g,
                (p.0, p.1),
                p.2,
            )).2@,
    )
}

/// The two renderers `f` and `g` as mathematical functions.
pub open spec fn comment_spec<F: Fn(String) -> String, G: Fn(Layout, Vec<String>) -> Vec<String>>(
    f: F,
    g: G,
) -> CommentSpec {
    CommentSpec {
        oneline: |c: Seq<char>| oneline_of(f, c),
        block: |ctx: ContextView, c: Seq<Seq<char>>| block_of(g, ctx, c),
    }
}

/// The settings under which a document is rendered, with the two comment
/// renderers that the caller supplies.
pub struct Context<'a, F, G> {
    pub depth: usize,
    pub tab_spaces: usize,
    pub line_width: usize,
    pub break_str: String,
    pub list_join_str: Option<String>,
    pub oneline_comment_format: &'a F,
    pub block_comment_format: &'a G,
}

impl<'a, F, G> View for Context<'a, F, G> {
    type V = ContextView;

    open spec fn view(&self) -> ContextView {
        ContextView {
            depth: self.depth as nat,
            tab_spaces: self.tab_spaces as nat,
            line_width: self.line_width as nat,
            break_str: self.break_str@,
            list_join_str: text::opt_text(self.list_join_str),
        }
    }
}

impl<'a, F, G> Clone for Context<'a, F, G> {
    fn clone(&self) -> (c: Self)
        ensures
            c@ == self@,
            c.oneline_comment_format == self.oneline_comment_format,
            c.block_comment_format == self.block_comment_format,
    {
        Context {
            depth: self.depth,
            tab_spaces: self.tab_spaces,
            line_width: self.line_width,
            break_str: self.break_str.clone(),
            list_join_str: text::clone_opt(&self.list_join_str),
            oneline_comment_format: self.oneline_comment_format,
            block_comment_format: self.block_comment_format,
        }
    }
}

impl<'a, F: Fn(String) -> String, G: Fn(Layout, Vec<String>) -> Vec<String>> Context<'a, F, G> {
    /// The default settings with the given comment renderers: depth 0, an
    /// indentation of 2, a line of 35, lines broken by a line feed, and no
    /// list joiner.
    pub fn new(oneline_comment_format: &'a F, block_comment_format: &'a G) -> (ctx: Self)
        ensures
            ctx@ == (ContextView {
                depth: 0,
                tab_spaces: 2,
                line_width: 35,
                break_str: "\n"@,
                list_join_str: None,
            }),
            ctx.oneline_comment_format == oneline_comment_format,
            ctx.block_comment_format == block_comment_format,
    {
        Context {
            depth: 0,
            tab_spaces: 2,
            line_width: 35,
            break_str: String::from_str("\n"),
            list_join_str: None,
            oneline_comment_format,
            block_comment_format,
        }
    }

    /// Whether both renderers are functions of what they are given.
    pub open spec fn wf(self) -> bool {
        renders_text(*self.oneline_comment_format) && renders_blocks(*self.block_comment_format)
    }

    /// The two renderers as mathematical functions.
    pub open spec fn comments(self) -> CommentSpec {
        comment_spec(*self.oneline_comment_format, *self.block_comment_format)
    }

    /// Renders a comment that stands on one line.
    pub fn oneline(&self, comment: String) -> (r: String)
        requires
            self.wf(),
        ensures
            r@ == self.comments().oneline_text(comment@),
    {
        let f = self.oneline_comment_format;
        assert(call_requires(*f, (comment,)));
        let r = f(comment);
        assert(call_ensures(*f, ((comment, r).0,), (comment, r).1));
        r
    }

    /// Renders several comment lines as one block.
    pub fn block(&self, comments: Vec<String>) -> (r: Vec<String>)
        requires
            self.wf(),
        ensures
            text::lines_view(r@) == self.comments().block_lines(self@, text::lines_view(comments@)),
    {
        let g = self.block_comment_format;
        let layout = Layout {
            depth: self.depth,
            tab_spaces: self.tab_spaces,
            line_width: self.line_width,
        };
        assert(call_requires(*g, (layout, comments)));
        let r = g(layout, comments);
        assert(layout_of((layout, comments, r).0, self@) && call_ensures(
            *g,
            ((layout, comments, r).0, (layout, comments, r).1),
            (layout, comments, r).2,
        ));
        r
    }

    /// The same settings one level deeper.
    pub fn increment_depth(&self) -> (r: Self)
        ensures
            r@ == self@.deeper(),
            r.oneline_comment_format == self.oneline_comment_format,
            r.block_comment_format == self.block_comment_format,
    {
        Context {
            depth: if self.depth < usize::MAX {
                self.depth + 1
            } else {
                self.depth
            },
            tab_spaces: self.tab_spaces,
            line_width: self.line_width,
            break_str: self.break_str.clone(),
            list_join_str: text::clone_opt(&self.list_join_str),
            oneline_comment_format: self.oneline_comment_format,
            block_comment_format: self.block_comment_format,
        }
    }

    /// One step of indentation.
    pub fn indent(&self) -> (r: String)
        ensures
            r@ == self@.indent(),
    {
        text::spaces(self.tab_spaces)
    }

    /// The width that is left for text at this depth.
    pub fn len_max(&self) -> (r: usize)
        ensures
            r == self@.len_max(),
    {
        match self.tab_spaces.checked_mul(self.depth) {
            Some(indent_len) => if indent_len >= self.line_width {
                0
            } else {
                self.line_width - indent_len
            },
            None => 0,
        }
    }

    /// The same settings with another list joiner.
    pub fn set_list_join_str(&self, j_opt: Option<String>) -> (r: Self)
        ensures
            r@ == self@.with_join(text::opt_text(j_opt)),
            r.oneline_comment_format == self.oneline_comment_format,
            r.block_comment_format == self.block_comment_format,
    {
        Context {
            depth: self.depth,
            tab_spaces: self.tab_spaces,
            line_width: self.line_width,
            break_str: self.break_str.clone(),
            list_join_str: j_opt,
            oneline_comment_format: self.oneline_comment_format,
            block_comment_format: self.block_comment_format,
        }
    }
}

} // verus!
