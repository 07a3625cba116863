//! The document model and its static formatter.

use vstd::prelude::*;
use crate::text::{clone_lines, clone_opt, join_lines, join_with, lines_view, opt_text};
use crate::{ColumnConfig, CommentSpec, Context, ContextView, Layout};

pub mod bound;
pub mod collapse;
pub mod format;
pub mod kept;
pub mod laws;

verus! {

/// The forms a piece of source text can take: a literal, a sequence of
/// elements on one level, a bracketed element, and a sequence of tokens that
/// may be broken between tokens.
#[derive(Debug)]
pub enum Rule {
    /// A wrapper that only carries comments.
    AST(Box<RuleWithComment>),
    /// Text that is never broken.
    Raw(String),
    /// Elements of one level and the joiner between them.
    List(String, Vec<RuleWithComment>),
    /// One element between an opening and a closing bracket.
    Paren(String, Box<RuleWithComment>, String),
    /// Tokens packed onto lines, each with its joining directive.
    Column(Vec<(RuleWithComment, ColumnConfig)>),
}

/// A rule with the comments before it and the comment right after it.
#[derive(Debug)]
pub struct RuleWithComment {
    pub before_comments: Vec<String>,
    pub rule: Rule,
    pub after_comment: Option<String>,
}

/// A [`Rule`] as a mathematical value.
pub enum RuleView {
    AST(Box<NodeView>),
    Raw(Seq<char>),
    List(Seq<char>, Seq<NodeView>),
    Paren(Seq<char>, Box<NodeView>, Seq<char>),
    Column(Seq<(NodeView, ColumnConfig)>),
}

/// A [`RuleWithComment`] as a mathematical value.
pub struct NodeView {
    pub before_comments: Seq<Seq<char>>,
    pub rule: RuleView,
    pub after_comment: Option<Seq<char>>,
}

/// The rule as a mathematical value.
pub open spec fn rule_view(r: Rule) -> RuleView
    decreases r,
{
    match r {
        Rule::AST(inner) => RuleView::AST(Box::new(node_view(*inner))),
        Rule::Raw(s) => RuleView::Raw(s@),
        Rule::List(j, items) => RuleView::List(j@, nodes_view(items@)),
        Rule::Paren(o, inner, c) => RuleView::Paren(o@, Box::new(node_view(*inner)), c@),
        Rule::Column(items) => RuleView::Column(column_view(items@)),
    }
}

/// The rule with its comments as a mathematical value.
pub open spec fn node_view(n: RuleWithComment) -> NodeView
    decreases n,
{
    NodeView {
        before_comments: lines_view(n.before_comments@),
        rule: rule_view(n.rule),
        after_comment: opt_text(n.after_comment),
    }
}

/// The elements of a list as mathematical values.
pub open spec fn nodes_view(items: Seq<RuleWithComment>) -> Seq<NodeView>
    decreases items,
{
    Seq::new(
        items.len(),
        |i: int|
            if 0 <= i < items.len() {
                node_view(items[i])
            } else {
                arbitrary()
            },
    )
}

/// The tokens of a column as mathematical values.
pub open spec fn column_view(items: Seq<(RuleWithComment, ColumnConfig)>) -> Seq<
    (NodeView, ColumnConfig),
>
    decreases items,
{
    Seq::new(
        items.len(),
        |i: int|
            if 0 <= i < items.len() {
                (node_view(items[i].0), items[i].1)
            } else {
                arbitrary()
            },
    )
}

impl View for Rule {
    type V = RuleView;

    open spec fn view(&self) -> RuleView {
        rule_view(*self)
    }
}

impl View for RuleWithComment {
    type V = NodeView;

    open spec fn view(&self) -> NodeView {
        node_view(*self)
    }
}

/// A copy of a rule.
pub fn clone_rule(r: &Rule) -> (c: Rule)
    ensures
        c@ == r@,
    decreases r, 0nat,
{
    match r {
        Rule::AST(inner) => Rule::AST(Box::new(clone_node(inner))),
        Rule::Raw(s) => Rule::Raw(s.clone()),
        Rule::List(join, items) => {
            let mut v: Vec<RuleWithComment> = Vec::new();
            let mut i: usize = 0;
            while i < items.len()
                invariant
                    i <= items@.len(),
                    *r == Rule::List(*join, *items),
                    v@.len() == i,
                    forall|k: int| 0 <= k < i ==> (#[trigger] v@[k])@ == items@[k]@,
                decreases items@.len() - i,
            {
                assert(decreases_to!(*r => r->List_1));
                assert(decreases_to!(*items => items[i as int]));
                v.push(clone_node(&items[i]));
                i = i + 1;
            }
            assert(nodes_view(v@) =~= nodes_view(items@));
            Rule::List(join.clone(), v)
        },
        Rule::Paren(open, inner, close) => Rule::Paren(
            open.clone(),
            Box::new(clone_node(inner)),
            close.clone(),
        ),
        Rule::Column(items) => {
            let mut v: Vec<(RuleWithComment, ColumnConfig)> = Vec::new();
            let mut i: usize = 0;
            while i < items.len()
                invariant
                    i <= items@.len(),
                    *r == Rule::Column(*items),
                    v@.len() == i,
                    forall|k: int|
                        0 <= k < i ==> (#[trigger] v@[k]).0@ == items@[k].0@ && v@[k].1
                            == items@[k].1,
                decreases items@.len() - i,
            {
                assert(decreases_to!(*r => r->Column_0));
                assert(decreases_to!(*items => items[i as int]));
                v.push((clone_node(&items[i].0), items[i].1));
                i = i + 1;
            }
            assert(column_view(v@) =~= column_view(items@));
            Rule::Column(v)
        },
    }
}

/// A copy of a rule with its comments.
pub fn clone_node(n: &RuleWithComment) -> (c: RuleWithComment)
    ensures
        c@ == n@,
    decreases n, 1nat,
{
    RuleWithComment {
        before_comments: clone_lines(&n.before_comments),
        rule: clone_rule(&n.rule),
        after_comment: clone_opt(&n.after_comment),
    }
}

impl Clone for Rule {
    fn clone(&self) -> (c: Self)
        ensures
            c@ == self@,
    {
        clone_rule(self)
    }
}

impl Clone for RuleWithComment {
    fn clone(&self) -> (c: Self)
        ensures
            c@ == self@,
    {
        clone_node(self)
    }
}

/// The text of `node` under `ctx`: its lines with the break string between
/// them.
pub open spec fn formatted(fmt: CommentSpec, ctx: ContextView, node: NodeView) -> Seq<char> {
    join_with(format::render(fmt, ctx, node).0, ctx.break_str)
}

/// Renders a complete tree to one string.
pub fn code_format<F: Fn(String) -> String, G: Fn(Layout, Vec<String>) -> Vec<String>>(
    ctx: &Context<F, G>,
    rule_with_comment: &RuleWithComment,
) -> (r: String)
    requires
        ctx.wf(),
    ensures
        r@ == formatted(ctx.comments(), ctx@, rule_with_comment@),
{
    let (lines, _) = format::code_format(ctx, rule_with_comment);
    join_lines(&lines, ctx.break_str.as_str())
}

/// What a caller's syntax tree must offer to be rendered: its document.
pub trait Ast2RuleWithComment {
    /// The document of this syntax tree.
    fn to_rule(&self) -> RuleWithComment;
}

} // verus!
