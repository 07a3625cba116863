//! The tag graph: a document kept as token sequences keyed by tags, so that
//! parts of it can be supplied, replaced and confirmed while it grows.

use vstd::prelude::*;
use crate::text::{clone_lines, clone_opt, lines_view, opt_text};
use crate::ColumnConfig;

pub mod complete;
pub mod flatten;
pub mod format;
pub mod graph;
pub mod inflate;
pub mod laws;
pub mod resolve;
pub mod round_trip;
pub mod tokens;

pub use flatten::rule_to_listedrule;
pub use graph::Data;
pub use inflate::{listedrule_to_rule, parse_listedrule};
pub use resolve::flat_listedrule;
pub use tokens::{clone_token, clone_tokens, empty_store};

verus! {

/// The name of a part of a document whose content may come later.
pub type Tag = String;

/// The comments that stand before a rule, one per line.
pub type BeforeComments = Vec<String>;

/// The comment that stands right after a rule, if there is one.
pub type AfterComment = Option<String>;

/// One token of a flattened document.
#[derive(Debug, PartialEq, Eq)]
pub enum ListedRule {
    /// A reference to content that is not there yet.
    Unconfirmed(Tag),
    /// A reference to content that the graph holds under the tag.
    Link(String),
    Raw(String),
    Open(OpenRule),
    Close(CloseRule),
}

/// An opening bracket. A tag on it says that the body stands in the graph
/// under that tag, not behind the bracket.
#[derive(Debug, PartialEq, Eq)]
pub enum OpenRule {
    Paren(Option<Tag>, String, BeforeComments),
    List(Option<Tag>, String),
    Column(Option<Tag>),
    ColumnContents(ColumnConfig, BeforeComments),
    Contents(BeforeComments),
}

/// A closing bracket.
#[derive(Debug, PartialEq, Eq)]
pub enum CloseRule {
    Paren(String, AfterComment),
    List,
    Column,
    ColumnContents(AfterComment),
    Contents(AfterComment),
}

/// A document that may name parts by tags and may refer to parts that are
/// still to come.
#[derive(Debug, PartialEq, Eq)]
pub enum Rule {
    Unconfirmed(Tag),
    AST(Box<RuleWithComment>),
    Raw(String),
    List(Option<Tag>, String, Vec<RuleWithComment>),
    Paren(Option<Tag>, String, Box<RuleWithComment>, String),
    Column(Option<Tag>, Vec<(RuleWithComment, ColumnConfig)>),
}

/// A rule with the comments before it and the comment right after it.
#[derive(Debug, PartialEq, Eq)]
pub struct RuleWithComment {
    pub before_comments: Vec<String>,
    pub rule: Rule,
    pub after_comment: Option<String>,
}

/// The flattened body that belongs to one tag.
#[derive(Debug, PartialEq, Eq)]
pub struct InternalRule {
    pub rules: Vec<ListedRule>,
}

/// An [`OpenRule`] as a mathematical value.
pub enum OpenRuleView {
    Paren(Option<Seq<char>>, Seq<char>, Seq<Seq<char>>),
    List(Option<Seq<char>>, Seq<char>),
    Column(Option<Seq<char>>),
    ColumnContents(ColumnConfig, Seq<Seq<char>>),
    Contents(Seq<Seq<char>>),
}

/// A [`CloseRule`] as a mathematical value.
pub enum CloseRuleView {
    Paren(Seq<char>, Option<Seq<char>>),
    List,
    Column,
    ColumnContents(Option<Seq<char>>),
    Contents(Option<Seq<char>>),
}

/// A [`ListedRule`] as a mathematical value.
pub enum ListedRuleView {
    Unconfirmed(Seq<char>),
    Link(Seq<char>),
    Raw(Seq<char>),
    Open(OpenRuleView),
    Close(CloseRuleView),
}

/// A [`Rule`] as a mathematical value.
pub enum RuleView {
    Unconfirmed(Seq<char>),
    AST(Box<NodeView>),
    Raw(Seq<char>),
    List(Option<Seq<char>>, Seq<char>, Seq<NodeView>),
    Paren(Option<Seq<char>>, Seq<char>, Box<NodeView>, Seq<char>),
    Column(Option<Seq<char>>, Seq<(NodeView, ColumnConfig)>),
}

/// A [`RuleWithComment`] as a mathematical value.
pub struct NodeView {
    pub before_comments: Seq<Seq<char>>,
    pub rule: RuleView,
    pub after_comment: Option<Seq<char>>,
}

/// The bodies of a graph by tag, as mathematical values.
pub type Store = Map<Seq<char>, Seq<ListedRuleView>>;

impl View for OpenRule {
    type V = OpenRuleView;

    open spec fn view(&self) -> OpenRuleView {
        match *self {
            OpenRule::Paren(tag, open, before) => OpenRuleView::Paren(
                opt_text(tag),
                open@,
                lines_view(before@),
            ),
            OpenRule::List(tag, join) => OpenRuleView::List(opt_text(tag), join@),
            OpenRule::Column(tag) => OpenRuleView::Column(opt_text(tag)),
            OpenRule::ColumnContents(config, before) => OpenRuleView::ColumnContents(
                config,
                lines_view(before@),
            ),
            OpenRule::Contents(before) => OpenRuleView::Contents(lines_view(before@)),
        }
    }
}

impl View for CloseRule {
    type V = CloseRuleView;

    open spec fn view(&self) -> CloseRuleView {
        match *self {
            CloseRule::Paren(close, after) => CloseRuleView::Paren(close@, opt_text(after)),
            CloseRule::List => CloseRuleView::List,
            CloseRule::Column => CloseRuleView::Column,
            CloseRule::ColumnContents(after) => CloseRuleView::ColumnContents(opt_text(after)),
            CloseRule::Contents(after) => CloseRuleView::Contents(opt_text(after)),
        }
    }
}

impl View for ListedRule {
    type V = ListedRuleView;

    open spec fn view(&self) -> ListedRuleView {
        match *self {
            ListedRule::Unconfirmed(tag) => ListedRuleView::Unconfirmed(tag@),
            ListedRule::Link(tag) => ListedRuleView::Link(tag@),
            ListedRule::Raw(s) => ListedRuleView::Raw(s@),
            ListedRule::Open(o) => ListedRuleView::Open(o@),
            ListedRule::Close(c) => ListedRuleView::Close(c@),
        }
    }
}

/// The tokens of a sequence as mathematical values.
pub open spec fn tokens_view(v: Seq<ListedRule>) -> Seq<ListedRuleView> {
    Seq::new(v.len(), |i: int| v[i]@)
}

impl View for InternalRule {
    type V = Seq<ListedRuleView>;

    open spec fn view(&self) -> Seq<ListedRuleView> {
        tokens_view(self.rules@)
    }
}

/// The bodies of a map of internal rules as mathematical values.
pub open spec fn store_view(m: Map<Seq<char>, InternalRule>) -> Store {
    Map::new(|k: Seq<char>| m.contains_key(k), |k: Seq<char>| m[k]@)
}

/// The rule as a mathematical value.
pub open spec fn rule_view(r: Rule) -> RuleView
    decreases r,
{
    match r {
        Rule::Unconfirmed(tag) => RuleView::Unconfirmed(tag@),
        Rule::AST(inner) => RuleView::AST(Box::new(node_view(*inner))),
        Rule::Raw(s) => RuleView::Raw(s@),
        Rule::List(tag, j, items) => RuleView::List(opt_text(tag), j@, nodes_view(items@)),
        Rule::Paren(tag, o, inner, c) => RuleView::Paren(
            opt_text(tag),
            o@,
            Box::new(node_view(*inner)),
            c@,
        ),
        Rule::Column(tag, items) => RuleView::Column(opt_text(tag), column_view(items@)),
    }
}

/// The rule with its comments as a mathematical value.
pub open spec fn node_view(n: RuleWithComment) -> NodeView
    decreases n,
{
    NodeView {
        before_comments: lines_view(n.before_comments@),
        rule: rule_view(n.rule),
        after_comment: opt_text(n.after_comment),
    }
}

/// The elements of a list as mathematical values.
pub open spec fn nodes_view(items: Seq<RuleWithComment>) -> Seq<NodeView>
    decreases items,
{
    Seq::new(
        items.len(),
        |i: int|
            if 0 <= i < items.len() {
                node_view(items[i])
            } else {
                arbitrary()
            },
    )
}

/// The tokens of a column as mathematical values.
pub open spec fn column_view(items: Seq<(RuleWithComment, ColumnConfig)>) -> Seq<
    (NodeView, ColumnConfig),
>
    decreases items,
{
    Seq::new(
        items.len(),
        |i: int|
            if 0 <= i < items.len() {
                (node_view(items[i].0), items[i].1)
            } else {
                arbitrary()
            },
    )
}

impl View for Rule {
    type V = RuleView;

    open spec fn view(&self) -> RuleView {
        rule_view(*self)
    }
}

impl View for RuleWithComment {
    type V = NodeView;

    open spec fn view(&self) -> NodeView {
        node_view(*self)
    }
}

/// A copy of a rule.
pub fn clone_rule(r: &Rule) -> (c: Rule)
    ensures
        c@ == r@,
    decreases r, 0nat,
{
    match r {
        Rule::Unconfirmed(tag) => Rule::Unconfirmed(tag.clone()),
        Rule::AST(inner) => Rule::AST(Box::new(clone_node(inner))),
        Rule::Raw(s) => Rule::Raw(s.clone()),
        Rule::List(tag, join, items) => {
            let mut v: Vec<RuleWithComment> = Vec::new();
            let mut i: usize = 0;
            while i < items.len()
                invariant
                    i <= items@.len(),
                    *r == Rule::List(*tag, *join, *items),
                    v@.len() == i,
                    forall|k: int| 0 <= k < i ==> (#[trigger] v@[k])@ == items@[k]@,
                decreases items@.len() - i,
            {
                assert(decreases_to!(*r => r->List_2));
                assert(decreases_to!(*items => items[i as int]));
                v.push(clone_node(&items[i]));
                i = i + 1;
            }
            assert(nodes_view(v@) =~= nodes_view(items@));
            Rule::List(clone_opt(tag), join.clone(), v)
        },
        Rule::Paren(tag, open, inner, close) => Rule::Paren(
            clone_opt(tag),
            open.clone(),
            Box::new(clone_node(inner)),
            close.clone(),
        ),
        Rule::Column(tag, items) => {
            let mut v: Vec<(RuleWithComment, ColumnConfig)> = Vec::new();
            let mut i: usize = 0;
            while i < items.len()
                invariant
                    i <= items@.len(),
                    *r == Rule::Column(*tag, *items),
                    v@.len() == i,
                    forall|k: int|
                        0 <= k < i ==> (#[trigger] v@[k]).0@ == items@[k].0@ && v@[k].1
                            == items@[k].1,
                decreases items@.len() - i,
            {
                assert(decreases_to!(*r => r->Column_1));
                assert(decreases_to!(*items => items[i as int]));
                v.push((clone_node(&items[i].0), items[i].1));
                i = i + 1;
            }
            assert(column_view(v@) =~= column_view(items@));
            Rule::Column(clone_opt(tag), v)
        },
    }
}

/// A copy of a rule with its comments.
pub fn clone_node(n: &RuleWithComment) -> (c: RuleWithComment)
    ensures
        c@ == n@,
    decreases n, 1nat,
{
    RuleWithComment {
        before_comments: clone_lines(&n.before_comments),
        rule: clone_rule(&n.rule),
        after_comment: clone_opt(&n.after_comment),
    }
}

impl Clone for Rule {
    fn clone(&self) -> (c: Self)
        ensures
            c@ == self@,
    {
        clone_rule(self)
    }
}

impl Clone for RuleWithComment {
    fn clone(&self) -> (c: Self)
        ensures
            c@ == self@,
    {
        clone_node(self)
    }
}

} // verus!
