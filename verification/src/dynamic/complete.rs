//! Complete documents: a tree without tags and placeholders is settled as a
//! whole, and the incremental formatter renders it as the static formatter
//! renders the tree that comes back from the graph.

use vstd::prelude::*;
use crate::dynamic::flatten::{
    column_tokens, flatten, flatten_column, flatten_nodes, in_column_contents, in_contents,
    list_tokens, merged_store,
};
use crate::dynamic::format::{
    advance, advance_from, ready_unit, settled, static_node, static_nodes, static_rule,
    static_tokens, unit_end_from,
};
use crate::dynamic::graph::{reference, root_tag};
use crate::dynamic::inflate::plain;
use crate::dynamic::resolve::{flat, flat_token};
use crate::dynamic::round_trip::{
    column_elems, direct, direct_column, direct_nodes, glue, has_comments, kept,
    lemma_column_tokens_glue, lemma_glue_part, lemma_inflates, lemma_list_tokens_glue,
    lemma_occurs_one, lemma_occurs_split, lemma_occurs_within, node_elems, normal_nodes,
    normal_rule, normal_tokens, occurs, piece, wrapped,
};
use crate::dynamic::{CloseRuleView, ListedRuleView, NodeView, OpenRuleView, RuleView, Store};
use crate::tree::format::render;
use crate::{ColumnConfig, CommentSpec, ContextView};

verus! {

/// Whether `r` holds neither a tag nor a placeholder.
pub open spec fn complete_rule(r: RuleView) -> bool
    decreases r, 1nat,
{
    match r {
        RuleView::Unconfirmed(_) => false,
        RuleView::AST(n) => complete(*n),
        RuleView::Raw(_) => true,
        RuleView::List(tag, _, children) => tag is None && forall|i: int|
            0 <= i < children.len() ==> complete(#[trigger] children[i]),
        RuleView::Paren(tag, _, content, _) => tag is None && complete(*content),
        RuleView::Column(tag, items) => tag is None && forall|i: int|
            0 <= i < items.len() ==> complete((#[trigger] items[i]).0),
    }
}

/// Whether `n` holds neither a tag nor a placeholder.
pub open spec fn complete(n: NodeView) -> bool
    decreases n, 2nat,
{
    complete_rule(n.rule)
}

/// Whether none of `tokens` refers to a tag.
pub open spec fn bare(tokens: Seq<ListedRuleView>) -> bool {
    forall|i: int| 0 <= i < tokens.len() ==> reference(#[trigger] tokens[i]) is None
}

/// Two sequences without references make one without references.
proof fn lemma_bare_add(a: Seq<ListedRuleView>, b: Seq<ListedRuleView>)
    requires
        bare(a),
        bare(b),
    ensures
        bare(a + b),
{
    assert forall|i: int| 0 <= i < (a + b).len() implies reference(#[trigger] (a + b)[i])
        is None by {
        if i < a.len() {
            assert((a + b)[i] == a[i]);
        } else {
            assert((a + b)[i] == b[i - a.len()]);
        }
    }
}

/// Tokens without references resolve to themselves.
pub proof fn lemma_flat_bare(tokens: Seq<ListedRuleView>, store: Store, fuel: nat)
    requires
        bare(tokens),
    ensures
        flat(tokens, store, fuel) == tokens,
    decreases tokens.len(),
{
    if tokens.len() > 0 {
        assert(bare(tokens.drop_last())) by {
            assert forall|i: int| 0 <= i < tokens.drop_last().len() implies reference(
                #[trigger] tokens.drop_last()[i],
            ) is None by {
                assert(tokens.drop_last()[i] == tokens[i]);
            }
        }
        lemma_flat_bare(tokens.drop_last(), store, fuel);
        let t = tokens.last();
        assert(t == tokens[tokens.len() - 1]);
        assert(flat_token(t, store, fuel) == seq![t]);
        assert(tokens.drop_last() + seq![t] =~= tokens);
    } else {
        assert(flat(tokens, store, fuel) =~= tokens);
    }
}

/// Tokens without references are settled.
pub proof fn lemma_settled_bare(tokens: Seq<ListedRuleView>, store: Store, fuel: nat, n: nat)
    requires
        bare(tokens),
        n <= tokens.len(),
    ensures
        settled(tokens, store, fuel, n),
    decreases n,
{
    if n > 0 {
        lemma_settled_bare(tokens, store, fuel, (n - 1) as nat);
        assert(reference(tokens[n - 1]) is None);
    }
}

/// The flattened elements of a complete list are their resolved tokens, and
/// nothing is lifted out of them.
proof fn lemma_flatten_nodes_complete(children: Seq<NodeView>, n: nat)
    requires
        n <= children.len(),
        forall|i: int| 0 <= i < children.len() ==> complete(#[trigger] children[i]),
    ensures
        list_tokens(children, flatten_nodes(children), n) == list_tokens(
            children,
            direct_nodes(children),
            n,
        ),
        merged_store(flatten_nodes(children), n) == Map::<Seq<char>, Seq<ListedRuleView>>::empty(),
        bare(list_tokens(children, direct_nodes(children), n)),
    decreases children, n,
{
    if n > 0 {
        lemma_flatten_nodes_complete(children, (n - 1) as nat);
        let c = children[n - 1];
        assert(complete(c));
        lemma_flatten_complete(c.rule);
        assert(merged_store(flatten_nodes(children), n) =~= Map::<
            Seq<char>,
            Seq<ListedRuleView>,
        >::empty());
        lemma_bare_contents(c, direct(c.rule));
        lemma_bare_add(
            list_tokens(children, direct_nodes(children), (n - 1) as nat),
            in_contents(c, direct(c.rule)),
        );
    }
}

/// The flattened tokens of a complete column are their resolved tokens, and
/// nothing is lifted out of them.
proof fn lemma_flatten_column_complete(items: Seq<(NodeView, ColumnConfig)>, n: nat)
    requires
        n <= items.len(),
        forall|i: int| 0 <= i < items.len() ==> complete((#[trigger] items[i]).0),
    ensures
        column_tokens(items, flatten_column(items), n) == column_tokens(
            items,
            direct_column(items),
            n,
        ),
        merged_store(flatten_column(items), n) == Map::<Seq<char>, Seq<ListedRuleView>>::empty(),
        bare(column_tokens(items, direct_column(items), n)),
    decreases items, n,
{
    if n > 0 {
        lemma_flatten_column_complete(items, (n - 1) as nat);
        let c = items[n - 1].0;
        assert(complete(items[n - 1].0));
        lemma_flatten_complete(c.rule);
        assert(merged_store(flatten_column(items), n) =~= Map::<
            Seq<char>,
            Seq<ListedRuleView>,
        >::empty());
        lemma_bare_column_contents(c, items[n - 1].1, direct(c.rule));
        lemma_bare_add(
            column_tokens(items, direct_column(items), (n - 1) as nat),
            in_column_contents(c, items[n - 1].1, direct(c.rule)),
        );
    }
}

/// A list element around tokens without references has no reference.
proof fn lemma_bare_contents(n: NodeView, inner: Seq<ListedRuleView>)
    requires
        bare(inner),
    ensures
        bare(in_contents(n, inner)),
{
    let open = seq![ListedRuleView::Open(OpenRuleView::Contents(n.before_comments))];
    let close = seq![ListedRuleView::Close(CloseRuleView::Contents(n.after_comment))];
    assert(bare(open));
    assert(bare(close));
    lemma_bare_add(open, inner);
    lemma_bare_add(open + inner, close);
}

/// A column token around tokens without references has no reference.
proof fn lemma_bare_column_contents(n: NodeView, config: ColumnConfig, inner: Seq<ListedRuleView>)
    requires
        bare(inner),
    ensures
        bare(in_column_contents(n, config, inner)),
{
    let open = seq![ListedRuleView::Open(OpenRuleView::ColumnContents(config, n.before_comments))];
    let close = seq![ListedRuleView::Close(CloseRuleView::ColumnContents(n.after_comment))];
    assert(bare(open));
    assert(bare(close));
    lemma_bare_add(open, inner);
    lemma_bare_add(open + inner, close);
}

/// A complete tree flattens to its resolved tokens, which refer to no tag,
/// and lifts nothing out.
pub proof fn lemma_flatten_complete(r: RuleView)
    requires
        complete_rule(r),
    ensures
        flatten(r) == (direct(r), Map::<Seq<char>, Seq<ListedRuleView>>::empty()),
        bare(direct(r)),
    decreases r, 0nat,
{
    match r {
        RuleView::Unconfirmed(_) => {},
        RuleView::Raw(s) => {
            assert(bare(seq![ListedRuleView::Raw(s)]));
        },
        RuleView::AST(n) => {
            lemma_flatten_complete(n.rule);
            if has_comments(*n) {
                lemma_bare_contents(*n, direct(n.rule));
            }
        },
        RuleView::Paren(_, open, content, close) => {
            lemma_flatten_complete(content.rule);
            let o = seq![
                ListedRuleView::Open(OpenRuleView::Paren(None, open, content.before_comments)),
            ];
            let c = seq![ListedRuleView::Close(CloseRuleView::Paren(close, content.after_comment))];
            assert(bare(o));
            assert(bare(c));
            lemma_bare_add(o, direct(content.rule));
            lemma_bare_add(o + direct(content.rule), c);
        },
        RuleView::List(_, join, children) => {
            lemma_flatten_nodes_complete(children, children.len());
            let o = seq![ListedRuleView::Open(OpenRuleView::List(None, join))];
            let c = seq![ListedRuleView::Close(CloseRuleView::List)];
            let body = list_tokens(children, direct_nodes(children), children.len());
            assert(bare(o));
            assert(bare(c));
            lemma_bare_add(o, body);
            lemma_bare_add(o + body, c);
        },
        RuleView::Column(_, items) => {
            lemma_flatten_column_complete(items, items.len());
            let o = seq![ListedRuleView::Open(OpenRuleView::Column(None))];
            let c = seq![ListedRuleView::Close(CloseRuleView::Column)];
            let body = column_tokens(items, direct_column(items), items.len());
            assert(bare(o));
            assert(bare(c));
            lemma_bare_add(o, body);
            lemma_bare_add(o + body, c);
        },
    }
}

/// The search for the end of a unit passes over a bracket pair whose inside
/// it passes over.
proof fn lemma_pair_spans(
    tokens: Seq<ListedRuleView>,
    pos: nat,
    open: ListedRuleView,
    inner: Seq<ListedRuleView>,
    close: ListedRuleView,
    depth: nat,
)
    requires
        occurs(tokens, pos, seq![open] + inner + seq![close]),
        open is Open,
        close is Close,
        unit_end_from(tokens, pos + 1, depth + 1) == unit_end_from(
            tokens,
            pos + 1 + inner.len(),
            depth + 1,
        ),
    ensures
        unit_end_from(tokens, pos, depth) == if depth == 0 {
            Some(pos + inner.len() + 2)
        } else {
            unit_end_from(tokens, pos + inner.len() + 2, depth)
        },
{
    lemma_occurs_split(tokens, pos, seq![open] + inner, seq![close]);
    lemma_occurs_split(tokens, pos, seq![open], inner);
    lemma_occurs_one(tokens, pos, open);
    lemma_occurs_one(tokens, pos + 1 + inner.len(), close);
}

/// The search for the end of a unit passes over the elements of a list.
proof fn lemma_nodes_span(
    children: Seq<NodeView>,
    tokens: Seq<ListedRuleView>,
    start: nat,
    k: nat,
    depth: nat,
)
    requires
        k <= children.len(),
        depth >= 1,
        occurs(tokens, start, glue(node_elems(children), children.len())),
    ensures
        unit_end_from(tokens, start + glue(node_elems(children), k).len(), depth)
            == unit_end_from(
            tokens,
            start + glue(node_elems(children), children.len()).len(),
            depth,
        ),
    decreases children, children.len() - k,
{
    let elems = node_elems(children);
    let n = children.len();
    if k < n {
        lemma_glue_part(elems, k, n);
        let at = start + glue(elems, k).len();
        lemma_occurs_within(tokens, start, glue(elems, n), glue(elems, k).len(), elems[k as int]);
        let c = children[k as int];
        let open = ListedRuleView::Open(OpenRuleView::Contents(c.before_comments));
        let close = ListedRuleView::Close(CloseRuleView::Contents(c.after_comment));
        lemma_occurs_split(tokens, at, seq![open] + direct(c.rule), seq![close]);
        lemma_occurs_split(tokens, at, seq![open], direct(c.rule));
        lemma_unit_spans(c.rule, tokens, at + 1, depth + 1);
        lemma_pair_spans(tokens, at, open, direct(c.rule), close, depth);
        lemma_nodes_span(children, tokens, start, k + 1, depth);
    }
}

/// The search for the end of a unit passes over the tokens of a column.
proof fn lemma_column_span(
    items: Seq<(NodeView, ColumnConfig)>,
    tokens: Seq<ListedRuleView>,
    start: nat,
    k: nat,
    depth: nat,
)
    requires
        k <= items.len(),
        depth >= 1,
        occurs(tokens, start, glue(column_elems(items), items.len())),
    ensures
        unit_end_from(tokens, start + glue(column_elems(items), k).len(), depth)
            == unit_end_from(
            tokens,
            start + glue(column_elems(items), items.len()).len(),
            depth,
        ),
    decreases items, items.len() - k,
{
    let elems = column_elems(items);
    let n = items.len();
    if k < n {
        lemma_glue_part(elems, k, n);
        let at = start + glue(elems, k).len();
        lemma_occurs_within(tokens, start, glue(elems, n), glue(elems, k).len(), elems[k as int]);
        let c = items[k as int].0;
        let config = items[k as int].1;
        let open = ListedRuleView::Open(OpenRuleView::ColumnContents(config, c.before_comments));
        let close = ListedRuleView::Close(CloseRuleView::ColumnContents(c.after_comment));
        lemma_occurs_split(tokens, at, seq![open] + direct(c.rule), seq![close]);
        lemma_occurs_split(tokens, at, seq![open], direct(c.rule));
        lemma_unit_spans(c.rule, tokens, at + 1, depth + 1);
        lemma_pair_spans(tokens, at, open, direct(c.rule), close, depth);
        lemma_column_span(items, tokens, start, k + 1, depth);
    }
}

/// The resolved tokens of a tree are one unit: a search for the end of a
/// unit that starts in front of them ends behind them where nothing is open,
/// and goes on behind them where a bracket is.
pub proof fn lemma_unit_spans(r: RuleView, tokens: Seq<ListedRuleView>, pos: nat, depth: nat)
    requires
        occurs(tokens, pos, direct(r)),
    ensures
        unit_end_from(tokens, pos, depth) == if depth == 0 {
            Some(pos + direct(r).len())
        } else {
            unit_end_from(tokens, pos + direct(r).len(), depth)
        },
    decreases r, 0nat,
{
    match r {
        RuleView::Unconfirmed(tag) => {
            lemma_occurs_one(tokens, pos, ListedRuleView::Unconfirmed(tag));
        },
        RuleView::Raw(s) => {
            lemma_occurs_one(tokens, pos, ListedRuleView::Raw(s));
        },
        RuleView::AST(n) => {
            if has_comments(*n) {
                let open = ListedRuleView::Open(OpenRuleView::Contents(n.before_comments));
                let close = ListedRuleView::Close(CloseRuleView::Contents(n.after_comment));
                lemma_occurs_split(tokens, pos, seq![open] + direct(n.rule), seq![close]);
                lemma_occurs_split(tokens, pos, seq![open], direct(n.rule));
                lemma_unit_spans(n.rule, tokens, pos + 1, depth + 1);
                lemma_pair_spans(tokens, pos, open, direct(n.rule), close, depth);
            } else {
                lemma_unit_spans(n.rule, tokens, pos, depth);
            }
        },
        RuleView::Paren(_, open, content, close) => {
            let o = ListedRuleView::Open(OpenRuleView::Paren(None, open, content.before_comments));
            let c = ListedRuleView::Close(CloseRuleView::Paren(close, content.after_comment));
            lemma_occurs_split(tokens, pos, seq![o] + direct(content.rule), seq![c]);
            lemma_occurs_split(tokens, pos, seq![o], direct(content.rule));
            lemma_unit_spans(content.rule, tokens, pos + 1, depth + 1);
            lemma_pair_spans(tokens, pos, o, direct(content.rule), c, depth);
        },
        RuleView::List(_, join, children) => {
            let o = ListedRuleView::Open(OpenRuleView::List(None, join));
            let c = ListedRuleView::Close(CloseRuleView::List);
            lemma_list_tokens_glue(children, children.len());
            let body = glue(node_elems(children), children.len());
            lemma_occurs_split(tokens, pos, seq![o] + body, seq![c]);
            lemma_occurs_split(tokens, pos, seq![o], body);
            lemma_nodes_span(children, tokens, pos + 1, 0, depth + 1);
            lemma_pair_spans(tokens, pos, o, body, c, depth);
        },
        RuleView::Column(_, items) => {
            let o = ListedRuleView::Open(OpenRuleView::Column(None));
            let c = ListedRuleView::Close(CloseRuleView::Column);
            lemma_column_tokens_glue(items, items.len());
            let body = glue(column_elems(items), items.len());
            lemma_occurs_split(tokens, pos, seq![o] + body, seq![c]);
            lemma_occurs_split(tokens, pos, seq![o], body);
            lemma_column_span(items, tokens, pos + 1, 0, depth + 1);
            lemma_pair_spans(tokens, pos, o, body, c, depth);
        },
    }
}

/// A complete list element comes back as a rule that the static formatter
/// takes.
proof fn lemma_static_wrapped(n: NodeView)
    requires
        complete(n),
    ensures
        static_rule(wrapped(n)) is Some,
        static_node(kept(n)) is Some,
    decreases n, 1nat,
{
    lemma_static_complete(n.rule);
}

/// A complete tree comes back as a rule that the static formatter takes.
pub proof fn lemma_static_complete(r: RuleView)
    requires
        complete_rule(r),
    ensures
        static_rule(normal_rule(r)) is Some,
    decreases r, 0nat,
{
    match r {
        RuleView::Unconfirmed(_) => {},
        RuleView::Raw(_) => {},
        RuleView::AST(n) => {
            lemma_static_wrapped(*n);
        },
        RuleView::Paren(_, _, content, _) => {
            lemma_static_wrapped(*content);
        },
        RuleView::List(_, _, children) => {
            let parts = static_nodes(normal_nodes(children));
            assert forall|i: int| 0 <= i < parts.len() implies (#[trigger] parts[i]) is Some by {
                assert(complete(children[i]));
                lemma_static_wrapped(children[i]);
            }
        },
        RuleView::Column(_, items) => {
            let parts = static_tokens(normal_tokens(items));
            assert forall|i: int| 0 <= i < parts.len() implies (#[trigger] parts[i]) is Some by {
                assert(complete(items[i].0));
                lemma_static_wrapped(items[i].0);
            }
        },
    }
}

/// A complete document is rendered at once: the graph made for a tree
/// without tags and placeholders is settled as a whole, and one step of the
/// incremental formatter yields the lines that the static formatter makes of
/// the tree as it comes back, and leaves nothing under `root`.
pub proof fn lemma_complete_document(fmt: CommentSpec, ctx: ContextView, r: RuleView)
    requires
        complete_rule(r),
    ensures
        static_node(plain(normal_rule(r))) is Some,
        advance(fmt, ctx, flatten(r).1.insert(root_tag(), flatten(r).0), root_tag()) == (
            render(fmt, ctx, static_node(plain(normal_rule(r))).unwrap()).0,
            flatten(r).1.insert(root_tag(), flatten(r).0).insert(
                root_tag(),
                Seq::<ListedRuleView>::empty(),
            ),
        ),
{
    lemma_flatten_complete(r);
    lemma_static_complete(r);
    let tokens = direct(r);
    let store = flatten(r).1.insert(root_tag(), tokens);
    assert(piece(tokens, 0, tokens.len()) =~= tokens);
    lemma_unit_spans(r, tokens, 0, 0);
    lemma_inflates(r, tokens, 0);
    let unit = tokens.subrange(0, tokens.len() as int);
    assert(unit =~= tokens);
    lemma_settled_bare(unit, store, store.len(), unit.len());
    lemma_flat_bare(unit, store, store.len());
    let tree = static_node(plain(normal_rule(r))).unwrap();
    assert(ready_unit(tokens, store, 0) == Some((tree, tokens.len())));
    assert(ready_unit(tokens, store, tokens.len()) is None);
    assert(advance_from(fmt, ctx, tokens, store, tokens.len()) == (
        Seq::<Seq<char>>::empty(),
        tokens.len(),
    ));
    assert(render(fmt, ctx, tree).0 + Seq::<Seq<char>>::empty() =~= render(fmt, ctx, tree).0);
    assert(advance_from(fmt, ctx, tokens, store, 0) == (render(fmt, ctx, tree).0, tokens.len()));
    assert(tokens.subrange(tokens.len() as int, tokens.len() as int) =~= Seq::<
        ListedRuleView,
    >::empty());
    assert(store[root_tag()] == tokens);
}

} // verus!
