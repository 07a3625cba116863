//! What holds of every rendering: the width bound of lists and columns, that
//! a regular node which fits on one line keeps that line when more width is
//! given, and that more width makes no more lines where no column of several
//! lines is.

use vstd::prelude::*;
use crate::text::{
    blanks, concat_all, join_with, lemma_width_blanks, lemma_width_concat, width,
};
use crate::tree::format::{
    before_lines, child_forces_break, child_texts, closed_lines, column_layout, element_ctx,
    gapped, join_two, list_body, list_layout, pack, pack_step, render, render_children,
    render_tokens, token_ctx, Packing, Rendered,
};
use crate::tree::{NodeView, RuleView};
use crate::{ColumnConfig, CommentSpec, ContextView};

verus! {

/// Whether no line is wider than `max`.
pub open spec fn all_within(lines: Seq<Seq<char>>, max: nat) -> bool {
    forall|k: int| 0 <= k < lines.len() ==> width(#[trigger] lines[k]) <= max
}

/// Whether each of the first `n` tokens is at most one line, no wider than
/// `max`.
pub open spec fn tokens_fit(items: Seq<(Rendered, ColumnConfig)>, max: nat, n: nat) -> bool {
    forall|i: int|
        0 <= i < n ==> (#[trigger] items[i]).0.0.len() <= 1 && width(concat_all(items[i].0.0))
            <= max
}

/// The width of two joined buffers.
pub proof fn lemma_width_join_two(a: Seq<char>, gap: nat, b: Seq<char>)
    ensures
        width(join_two(a, gap, b)) <= width(a) + gap + width(b),
        a.len() > 0 && b.len() > 0 ==> width(join_two(a, gap, b)) == width(a) + gap + width(b),
        b.len() == 0 ==> join_two(a, gap, b) == a,
{
    lemma_width_concat(a, blanks(gap));
    lemma_width_concat(a + blanks(gap), b);
    lemma_width_blanks(gap);
}

/// The width of a buffer with its gap.
proof fn lemma_width_gapped(a: Seq<char>, gap: nat)
    ensures
        width(gapped(a, gap)) <= width(a) + gap,
{
    lemma_width_concat(a, blanks(gap));
    lemma_width_blanks(gap);
    assert(width(Seq::<char>::empty()) == 0) by {
        lemma_width_blanks(0);
        assert(blanks(0) =~= Seq::<char>::empty());
    }
}

/// The width of both buffers merged with a text.
pub proof fn lemma_width_merged(st: Packing, text: Seq<char>)
    ensures
        width(st.merged(text)) <= width(st.settled) + st.settled_gap + width(st.provisional)
            + st.provisional_gap + width(text),
{
    let a = gapped(st.settled, st.settled_gap);
    let b = gapped(st.provisional, st.provisional_gap);
    lemma_width_gapped(st.settled, st.settled_gap);
    lemma_width_gapped(st.provisional, st.provisional_gap);
    lemma_width_concat(a, b);
    lemma_width_concat(a + b, text);
}

/// What packing keeps true from step to step, where every token fits: the
/// lines out and what is pending stay within `max`, and the provisional
/// buffer holds text only behind a settled one.
pub open spec fn packed_within(st: Packing, max: nat) -> bool {
    &&& all_within(st.out, max)
    &&& width(st.joined()) <= max
    &&& st.provisional.len() > 0 ==> st.settled.len() > 0
}

/// One step of packing keeps the width bound.
proof fn lemma_step_within_width(st: Packing, item: (Rendered, ColumnConfig), max: nat)
    requires
        packed_within(st, max),
        item.0.0.len() <= 1,
        width(concat_all(item.0.0)) <= max,
    ensures
        packed_within(pack_step(st, item, max), max),
{
    let text = concat_all(item.0.0);
    let next = pack_step(st, item, max);
    lemma_width_join_two(st.settled, st.settled_gap, st.provisional);
    lemma_width_merged(st, text);
    lemma_width_concat(st.provisional, blanks(st.provisional_gap));
    lemma_width_concat(st.provisional + blanks(st.provisional_gap), text);
    lemma_width_concat(st.provisional, text);
    lemma_width_concat(st.settled, blanks(st.settled_gap));
    lemma_width_concat(st.settled + blanks(st.settled_gap), st.provisional + text);
    lemma_width_concat(st.settled + blanks(st.settled_gap), st.provisional);
    lemma_width_blanks(st.settled_gap);
    lemma_width_blanks(st.provisional_gap);
    lemma_width_blanks(0);
    assert(blanks(0) =~= Seq::<char>::empty());
    lemma_width_join_two(next.settled, next.settled_gap, next.provisional);
    assert(all_within(next.out, max)) by {
        assert forall|k: int| 0 <= k < next.out.len() implies width(#[trigger] next.out[k])
            <= max by {
            if k < st.out.len() {
                assert(next.out[k] == st.out[k]);
            }
        }
    }
    if st.settled.len() > 0 && st.provisional.len() > 0 {
        assert(next.joined() == join_two(next.settled, next.settled_gap, next.provisional));
    }
}

/// The width bound of column packing: where every token is at most one line
/// no wider than `max`, no line that the packing has put out is wider than
/// `max`, nor is what is pending.
pub proof fn lemma_pack_within_width(items: Seq<(Rendered, ColumnConfig)>, max: nat, n: nat)
    requires
        n <= items.len(),
        tokens_fit(items, max, n),
    ensures
        packed_within(pack(items, max, n), max),
    decreases n,
{
    if n == 0 {
        lemma_width_blanks(0);
        assert(blanks(0) =~= Seq::<char>::empty());
    } else {
        lemma_pack_within_width(items, max, (n - 1) as nat);
        assert(items[n - 1].0.0.len() <= 1);
        lemma_step_within_width(pack(items, max, (n - 1) as nat), items[n - 1], max);
    }
}

/// The width bound of a column: where every token renders to at most one
/// line no wider than the width that is left, no line of a column without
/// comments of its own is wider than that.
pub proof fn lemma_column_within_width(
    fmt: CommentSpec,
    ctx: ContextView,
    items: Seq<(Rendered, ColumnConfig)>,
)
    requires
        tokens_fit(items, ctx.len_max(), items.len()),
    ensures
        all_within(column_layout(fmt, ctx, Seq::empty(), items, None).0, ctx.len_max()),
{
    let max = ctx.len_max();
    lemma_pack_within_width(items, max, items.len());
    let st = pack(items, max, items.len());
    let lines = column_layout(fmt, ctx, Seq::empty(), items, None).0;
    assert(lines =~= st.out.push(st.joined()));
    assert forall|k: int| 0 <= k < lines.len() implies width(#[trigger] lines[k]) <= max by {
        if k < st.out.len() {
            assert(lines[k] == st.out[k]);
        }
    }
}

/// The width bound of a list: a list without comments of its own, of two or
/// more elements that each take a line, which renders to one line, is
/// narrower than the width that is left.
pub proof fn lemma_list_within_width(
    fmt: CommentSpec,
    ctx: ContextView,
    join: Seq<char>,
    children: Seq<NodeView>,
    probe: Seq<Rendered>,
    deep: Seq<Rendered>,
)
    requires
        children.len() >= 2,
        deep.len() == children.len(),
        forall|i: int| 0 <= i < deep.len() ==> (#[trigger] deep[i]).0.len() >= 1,
        list_layout(fmt, ctx, join, Seq::empty(), children, probe, deep, None).0.len() == 1,
    ensures
        width(list_layout(fmt, ctx, join, Seq::empty(), children, probe, deep, None).0[0])
            < ctx.len_max(),
{
    let forced = exists|i: int|
        0 <= i < children.len() && child_forces_break(children, probe, i);
    let one = join_with(child_texts(probe), join + seq![' ']);
    if !(!forced && width(one) < ctx.len_max()) {
        lemma_list_body_len(deep, ctx.indent(), join, deep.len());
        assert(deep[0].0.len() >= 1);
        assert(deep[1].0.len() >= 1);
        lemma_list_body_grows(deep, ctx.indent(), join, 2, deep.len());
        lemma_list_body_len(deep, ctx.indent(), join, 2);
        lemma_list_body_len(deep, ctx.indent(), join, 1);
        lemma_list_body_len(deep, ctx.indent(), join, 0);
    }
}

/// The number of lines of the first `n` elements in the broken form.
pub open spec fn body_len(deep: Seq<Rendered>, n: nat) -> nat
    decreases n,
{
    if n == 0 {
        0
    } else {
        body_len(deep, (n - 1) as nat) + deep[n - 1].0.len()
    }
}

/// The broken form of a list has the lines of its elements.
pub proof fn lemma_list_body_len(deep: Seq<Rendered>, tab: Seq<char>, join: Seq<char>, n: nat)
    ensures
        list_body(deep, tab, join, n).len() == body_len(deep, n),
    decreases n,
{
    if n > 0 {
        lemma_list_body_len(deep, tab, join, (n - 1) as nat);
    }
}

/// More elements take no fewer lines.
pub proof fn lemma_list_body_grows(
    deep: Seq<Rendered>,
    tab: Seq<char>,
    join: Seq<char>,
    n: nat,
    m: nat,
)
    requires
        n <= m,
    ensures
        body_len(deep, n) <= body_len(deep, m),
    decreases m - n,
{
    if n < m {
        lemma_list_body_grows(deep, tab, join, n, (m - 1) as nat);
    }
}

/// Whether `wide` leaves at least the width of `narrow`: the same settings,
/// no deeper, and a line no shorter.
pub open spec fn at_least_as_wide(wide: ContextView, narrow: ContextView) -> bool {
    &&& wide.tab_spaces == narrow.tab_spaces
    &&& wide.depth <= narrow.depth
    &&& wide.line_width >= narrow.line_width
    &&& wide.list_join_str == narrow.list_join_str
}

/// Whether every list in `r` has two elements or more, and no node more than
/// one comment before it.
pub open spec fn regular_rule(r: RuleView) -> bool
    decreases r, 1nat,
{
    match r {
        RuleView::AST(inner) => regular(*inner),
        RuleView::Raw(_) => true,
        RuleView::List(_, children) => children.len() >= 2 && forall|i: int|
            0 <= i < children.len() ==> regular(#[trigger] children[i]),
        RuleView::Paren(_, content, _) => regular(*content),
        RuleView::Column(items) => forall|i: int|
            0 <= i < items.len() ==> regular((#[trigger] items[i]).0),
    }
}

/// Whether every list in `n` has two elements or more, and no node more than
/// one comment before it.
pub open spec fn regular(n: NodeView) -> bool
    decreases n, 2nat,
{
    n.before_comments.len() <= 1 && regular_rule(n.rule)
}

/// More width is left where the line is no shorter and the depth no greater.
pub proof fn lemma_len_max_grows(wide: ContextView, narrow: ContextView)
    requires
        at_least_as_wide(wide, narrow),
    ensures
        wide.len_max() >= narrow.len_max(),
{
    assert(wide.tab_spaces * wide.depth <= narrow.tab_spaces * narrow.depth) by (nonlinear_arith)
        requires
            wide.tab_spaces == narrow.tab_spaces,
            wide.depth <= narrow.depth,
    ;
}

/// A regular node renders to one line at least.
pub proof fn lemma_regular_has_lines(fmt: CommentSpec, ctx: ContextView, node: NodeView)
    requires
        regular(node),
    ensures
        render(fmt, ctx, node).0.len() >= 1,
    decreases node,
{
    match node.rule {
        RuleView::AST(inner) => {
            lemma_regular_has_lines(fmt, ctx, *inner);
        },
        RuleView::Raw(_) => {},
        RuleView::Paren(_, _, _) => {},
        RuleView::List(join, children) => {
            let deep = render_children(fmt, ctx.deeper(), join, children);
            lemma_broken_list_has_lines(fmt, ctx, join, children);
        },
        RuleView::Column(_) => {},
    }
}

/// The elements of a regular list take two lines or more in the broken
/// form.
proof fn lemma_broken_list_has_lines(
    fmt: CommentSpec,
    ctx: ContextView,
    join: Seq<char>,
    children: Seq<NodeView>,
)
    requires
        children.len() >= 2,
        forall|i: int| 0 <= i < children.len() ==> regular(#[trigger] children[i]),
    ensures
        list_body(
            render_children(fmt, ctx.deeper(), join, children),
            ctx.indent(),
            join,
            children.len(),
        ).len() >= 2,
    decreases children, 0nat,
{
    let deep = render_children(fmt, ctx.deeper(), join, children);
    let n = children.len();
    assert(regular(children[0]));
    assert(regular(children[1]));
    lemma_regular_has_lines(fmt, element_ctx(ctx.deeper(), join, 0, n), children[0]);
    lemma_regular_has_lines(fmt, element_ctx(ctx.deeper(), join, 1, n), children[1]);
    lemma_list_body_len(deep, ctx.indent(), join, deep.len());
    lemma_list_body_grows(deep, ctx.indent(), join, 2, deep.len());
    lemma_list_body_len(deep, ctx.indent(), join, 2);
    lemma_list_body_len(deep, ctx.indent(), join, 1);
    lemma_list_body_len(deep, ctx.indent(), join, 0);
}

/// A step of packing takes no line back, and a token of several lines puts
/// a line out.
proof fn lemma_step_keeps_lines(st: Packing, item: (Rendered, ColumnConfig), max: nat)
    ensures
        pack_step(st, item, max).out.len() >= st.out.len(),
        item.0.0.len() > 1 ==> pack_step(st, item, max).out.len() >= 1,
{
}

/// Packing takes no line back.
proof fn lemma_pack_keeps_lines(items: Seq<(Rendered, ColumnConfig)>, max: nat, k: nat, n: nat)
    requires
        k <= n,
    ensures
        pack(items, max, k).out.len() <= pack(items, max, n).out.len(),
    decreases n - k,
{
    if k < n {
        lemma_pack_keeps_lines(items, max, k, (n - 1) as nat);
        lemma_step_keeps_lines(pack(items, max, (n - 1) as nat), items[n - 1], max);
    }
}

/// Where packing under `max1` has put no line out after `n` tokens, each of
/// the tokens is one line at most, and packing under a greater `max2` comes
/// to the same state.
pub proof fn lemma_pack_same(
    items: Seq<(Rendered, ColumnConfig)>,
    max1: nat,
    max2: nat,
    k: nat,
    n: nat,
)
    requires
        k <= n,
        max1 <= max2,
        pack(items, max1, n).out.len() == 0,
    ensures
        pack(items, max2, k) == pack(items, max1, k),
        forall|i: int| 0 <= i < k ==> (#[trigger] items[i]).0.0.len() <= 1,
    decreases k,
{
    if k > 0 {
        lemma_pack_same(items, max1, max2, (k - 1) as nat, n);
        lemma_pack_keeps_lines(items, max1, k, n);
        let st = pack(items, max1, (k - 1) as nat);
        lemma_step_keeps_lines(st, items[k - 1], max1);
        assert(pack(items, max1, k) == pack_step(st, items[k - 1], max1));
        assert(pack(items, max1, k).out.len() == 0);
    }
}

/// Closing the lines of a part for a comment adds no line and takes none.
pub proof fn lemma_closed_len(ctx: ContextView, lines: Seq<Seq<char>>, reported: bool)
    ensures
        closed_lines(ctx, lines, reported).len() == lines.len(),
{
}

/// A regular list that renders to one line at most is in its one-line form,
/// and renders to the same under a context that leaves at least as much
/// width.
proof fn lemma_one_line_list_is_kept(
    fmt: CommentSpec,
    narrow: ContextView,
    wide: ContextView,
    node: NodeView,
)
    requires
        at_least_as_wide(wide, narrow),
        regular(node),
        node.rule is List,
        render(fmt, narrow, node).0.len() <= 1,
    ensures
        render(fmt, wide, node) == render(fmt, narrow, node),
    decreases node, 0nat,
{
    lemma_len_max_grows(wide, narrow);
    let join = node.rule->List_0;
    let children = node.rule->List_1;
    let n = children.len();
    let probe1 = render_children(fmt, narrow, join, children);
    let probe2 = render_children(fmt, wide, join, children);
    let deep1 = render_children(fmt, narrow.deeper(), join, children);
    let forced = exists|i: int| 0 <= i < n && child_forces_break(children, probe1, i);
    let one = join_with(child_texts(probe1), join + seq![' ']);
    if !forced && width(one) < narrow.len_max() {
        assert forall|i: int| 0 <= i < n implies probe2[i] == probe1[i] by {
            assert(!child_forces_break(children, probe1, i));
            assert(regular(children[i]));
            lemma_one_line_is_kept(
                fmt,
                element_ctx(narrow, join, i, n),
                element_ctx(wide, join, i, n),
                children[i],
            );
        }
        assert(probe2 =~= probe1);
    } else {
        lemma_broken_list_has_lines(fmt, narrow, join, children);
        let body = list_body(deep1, narrow.indent(), join, deep1.len());
        let reported = deep1.len() > 0 && deep1[deep1.len() - 1].1;
        lemma_closed_len(narrow, body, reported);
        let head = before_lines(fmt, narrow, node.before_comments);
        assert(render(fmt, narrow, node).0.len() >= body.len()) by {
            if node.after_comment is Some {
                assert(render(fmt, narrow, node).0.len() == head.len() + body.len() + 1);
            } else {
                assert(render(fmt, narrow, node).0.len() == head.len() + body.len());
            }
        }
    }
}

/// A regular column that renders to one line at most renders to the same
/// under a context that leaves at least as much width.
proof fn lemma_one_line_column_is_kept(
    fmt: CommentSpec,
    narrow: ContextView,
    wide: ContextView,
    node: NodeView,
)
    requires
        at_least_as_wide(wide, narrow),
        regular(node),
        node.rule is Column,
        render(fmt, narrow, node).0.len() <= 1,
    ensures
        render(fmt, wide, node) == render(fmt, narrow, node),
    decreases node, 0nat,
{
    lemma_len_max_grows(wide, narrow);
    let items = node.rule->Column_0;
    let items1 = render_tokens(fmt, narrow, items);
    let items2 = render_tokens(fmt, wide, items);
    let n = items.len();
    let st = pack(items1, narrow.len_max(), n);
    let head = before_lines(fmt, narrow, node.before_comments);
    assert(render(fmt, narrow, node).0.len() >= head.len() + st.out.len() + 1);
    assert(st.out.len() == 0);
    lemma_pack_same(items1, narrow.len_max(), wide.len_max(), n, n);
    assert forall|i: int| 0 <= i < n implies items2[i] == items1[i] by {
        assert(items1[i].0.0.len() <= 1);
        assert(regular(items[i].0));
        lemma_one_line_is_kept(fmt, token_ctx(narrow, i, n), token_ctx(wide, i, n), items[i].0);
    }
    assert(items2 =~= items1);
}

/// A regular node that renders to one line at most renders to the same
/// under a context that leaves at least as much width: more width never
/// splits a line that fit.
pub proof fn lemma_one_line_is_kept(
    fmt: CommentSpec,
    narrow: ContextView,
    wide: ContextView,
    node: NodeView,
)
    requires
        at_least_as_wide(wide, narrow),
        regular(node),
        render(fmt, narrow, node).0.len() <= 1,
    ensures
        render(fmt, wide, node) == render(fmt, narrow, node),
    decreases node, 1nat,
{
    match node.rule {
        RuleView::AST(inner) => {
            let r = render(fmt, narrow, *inner);
            let head = before_lines(fmt, narrow, node.before_comments);
            lemma_closed_len(narrow, r.0, r.1);
            assert(r.0.len() <= 1) by {
                if node.after_comment is Some {
                    assert(render(fmt, narrow, node).0.len() == head.len() + r.0.len() + 1);
                } else {
                    assert(render(fmt, narrow, node).0.len() == head.len() + r.0.len());
                }
            }
            lemma_one_line_is_kept(fmt, narrow, wide, *inner);
        },
        RuleView::Raw(_) => {},
        RuleView::Paren(open, content, close) => {
            lemma_len_max_grows(wide, narrow);
            let probe = render(fmt, narrow.with_join(None), *content);
            if probe.0.len() <= 1 && !probe.1 {
                lemma_one_line_is_kept(fmt, narrow.with_join(None), wide.with_join(None), *content);
            }
        },
        RuleView::List(_, _) => {
            lemma_one_line_list_is_kept(fmt, narrow, wide, node);
        },
        RuleView::Column(_) => {
            lemma_one_line_column_is_kept(fmt, narrow, wide, node);
        },
    }
}

/// Whether `r` holds no comment and no bracketed element, every list in it
/// has two elements or more, and no text in it is wider than `max`.
pub open spec fn tight_rule(r: RuleView, max: nat) -> bool
    decreases r, 1nat,
{
    match r {
        RuleView::AST(inner) => tight(*inner, max),
        RuleView::Raw(s) => width(s) <= max,
        RuleView::List(_, children) => children.len() >= 2 && forall|i: int|
            0 <= i < children.len() ==> tight(#[trigger] children[i], max),
        RuleView::Paren(_, _, _) => false,
        RuleView::Column(items) => forall|i: int|
            0 <= i < items.len() ==> tight((#[trigger] items[i]).0, max),
    }
}

/// Whether `n` holds no comment and no bracketed element, every list in it
/// has two elements or more, and no text in it is wider than `max`.
pub open spec fn tight(n: NodeView, max: nat) -> bool
    decreases n, 2nat,
{
    n.before_comments.len() == 0 && n.after_comment is None && tight_rule(n.rule, max)
}

/// A tight node is regular.
pub proof fn lemma_tight_is_regular(node: NodeView, max: nat)
    requires
        tight(node, max),
    ensures
        regular(node),
    decreases node,
{
    match node.rule {
        RuleView::AST(inner) => {
            lemma_tight_is_regular(*inner, max);
        },
        RuleView::Raw(_) => {},
        RuleView::Paren(_, _, _) => {},
        RuleView::List(_, children) => {
            assert forall|i: int| 0 <= i < children.len() implies regular(
                #[trigger] children[i],
            ) by {
                assert(tight(children[i], max));
                lemma_tight_is_regular(children[i], max);
            }
        },
        RuleView::Column(items) => {
            assert forall|i: int| 0 <= i < items.len() implies regular(
                (#[trigger] items[i]).0,
            ) by {
                assert(tight(items[i].0, max));
                lemma_tight_is_regular(items[i].0, max);
            }
        },
    }
}

/// The width bound: a node without comments and bracketed elements, whose
/// lists have two elements or more and whose texts are each no wider than
/// the width that is left, is no wider than that where it renders to one
/// line.
pub proof fn lemma_single_line_within_width(fmt: CommentSpec, ctx: ContextView, node: NodeView)
    requires
        tight(node, ctx.len_max()),
        render(fmt, ctx, node).0.len() == 1,
    ensures
        width(render(fmt, ctx, node).0[0]) <= ctx.len_max(),
    decreases node,
{
    let max = ctx.len_max();
    match node.rule {
        RuleView::AST(inner) => {
            assert(render(fmt, ctx, node).0 =~= render(fmt, ctx, *inner).0);
            lemma_single_line_within_width(fmt, ctx, *inner);
        },
        RuleView::Raw(_) => {},
        RuleView::Paren(_, _, _) => {},
        RuleView::List(join, children) => {
            let probe = render_children(fmt, ctx, join, children);
            let forced = exists|i: int|
                0 <= i < children.len() && child_forces_break(children, probe, i);
            let one = join_with(child_texts(probe), join + seq![' ']);
            if !(!forced && width(one) < max) {
                assert forall|i: int| 0 <= i < children.len() implies regular(
                    #[trigger] children[i],
                ) by {
                    assert(tight(children[i], max));
                    lemma_tight_is_regular(children[i], max);
                }
                lemma_broken_list_has_lines(fmt, ctx, join, children);
            }
        },
        RuleView::Column(items) => {
            let rendered = render_tokens(fmt, ctx, items);
            let n = items.len();
            let st = pack(rendered, max, n);
            assert(st.out.len() == 0);
            lemma_pack_same(rendered, max, max, n, n);
            assert forall|i: int| 0 <= i < n implies (#[trigger] rendered[i]).0.0.len() <= 1
                && width(concat_all(rendered[i].0.0)) <= max by {
                assert(tight(items[i].0, max));
                lemma_tight_is_regular(items[i].0, max);
                lemma_regular_has_lines(fmt, token_ctx(ctx, i, n), items[i].0);
                let lines = rendered[i].0.0;
                assert(lines.len() == 1);
                lemma_single_line_within_width(fmt, token_ctx(ctx, i, n), items[i].0);
                assert(lines.drop_last() =~= Seq::<Seq<char>>::empty());
                assert(concat_all(lines.drop_last()) =~= Seq::<char>::empty());
                assert(concat_all(lines) =~= lines[0]);
            }
            lemma_pack_within_width(rendered, max, n);
        },
    }
}

/// Whether every column that the rendering of `node` under `ctx` meets
/// outside a part on one line takes one line at most. The parts on one line
/// are the content of a collapsed bracket and the elements of a list in its
/// one-line form.
pub open spec fn columns_fit(fmt: CommentSpec, ctx: ContextView, node: NodeView) -> bool
    decreases node,
{
    match node.rule {
        RuleView::AST(inner) => columns_fit(fmt, ctx, *inner),
        RuleView::Raw(_) => true,
        RuleView::Paren(_, content, _) => {
            let probe = render(fmt, ctx.with_join(None), *content);
            (probe.0.len() <= 1 && !probe.1) || columns_fit(
                fmt,
                ctx.deeper().with_join(None),
                *content,
            )
        },
        RuleView::List(join, children) => {
            let probe = render_children(fmt, ctx, join, children);
            let forced = exists|i: int|
                0 <= i < children.len() && child_forces_break(children, probe, i);
            (!forced && width(join_with(child_texts(probe), join + seq![' '])) < ctx.len_max())
                || forall|i: int|
                0 <= i < children.len() ==> columns_fit(
                    fmt,
                    element_ctx(ctx.deeper(), join, i, children.len()),
                    #[trigger] children[i],
                )
        },
        RuleView::Column(_) => render(fmt, ctx, node).0.len() <= 1,
    }
}

/// Elements that each take no more lines take no more lines together.
pub proof fn lemma_body_len_le(a: Seq<Rendered>, b: Seq<Rendered>, n: nat)
    requires
        n <= a.len(),
        a.len() == b.len(),
        forall|i: int| 0 <= i < a.len() ==> (#[trigger] a[i]).0.len() <= b[i].0.len(),
    ensures
        body_len(a, n) <= body_len(b, n),
    decreases n,
{
    if n > 0 {
        lemma_body_len_le(a, b, (n - 1) as nat);
        assert(a[n - 1].0.len() <= b[n - 1].0.len());
    }
}

/// More width makes no more lines: a regular node takes no more lines under
/// a context that leaves at least as much width, where every column that its
/// rendering meets outside a part on one line takes one line at most. A
/// column of several lines can take one more with more width: the line that
/// comes closer to the width is taken on overflow. The tokens `A`, `BBB`
/// with no break after it, `CCCC` and `D` take two lines at width 6 and
/// three at width 8. A list without elements takes no line where no width
/// is left and one line where some is.
pub proof fn lemma_lines_never_grow(
    fmt: CommentSpec,
    narrow: ContextView,
    wide: ContextView,
    node: NodeView,
)
    requires
        at_least_as_wide(wide, narrow),
        regular(node),
        columns_fit(fmt, narrow, node),
    ensures
        render(fmt, wide, node).0.len() <= render(fmt, narrow, node).0.len(),
    decreases node,
{
    lemma_len_max_grows(wide, narrow);
    assert(before_lines(fmt, wide, node.before_comments) == before_lines(
        fmt,
        narrow,
        node.before_comments,
    ));
    match node.rule {
        RuleView::AST(inner) => {
            lemma_lines_never_grow(fmt, narrow, wide, *inner);
        },
        RuleView::Raw(_) => {},
        RuleView::Paren(open, content, close) => {
            let probe = render(fmt, narrow.with_join(None), *content);
            if probe.0.len() <= 1 && !probe.1 {
                lemma_one_line_is_kept(fmt, narrow.with_join(None), wide.with_join(None), *content);
            } else {
                lemma_lines_never_grow(
                    fmt,
                    narrow.deeper().with_join(None),
                    wide.deeper().with_join(None),
                    *content,
                );
            }
        },
        RuleView::List(join, children) => {
            let n = children.len();
            let probe1 = render_children(fmt, narrow, join, children);
            let probe2 = render_children(fmt, wide, join, children);
            let deep1 = render_children(fmt, narrow.deeper(), join, children);
            let deep2 = render_children(fmt, wide.deeper(), join, children);
            let forced = exists|i: int| 0 <= i < n && child_forces_break(children, probe1, i);
            let one = join_with(child_texts(probe1), join + seq![' ']);
            if !forced && width(one) < narrow.len_max() {
                assert forall|i: int| 0 <= i < n implies probe2[i] == probe1[i] by {
                    assert(!child_forces_break(children, probe1, i));
                    assert(regular(children[i]));
                    lemma_one_line_is_kept(
                        fmt,
                        element_ctx(narrow, join, i, n),
                        element_ctx(wide, join, i, n),
                        children[i],
                    );
                }
                assert(probe2 =~= probe1);
            } else {
                lemma_broken_list_has_lines(fmt, narrow, join, children);
                assert forall|i: int| 0 <= i < n implies (#[trigger] deep2[i]).0.len()
                    <= deep1[i].0.len() by {
                    assert(regular(children[i]));
                    lemma_lines_never_grow(
                        fmt,
                        element_ctx(narrow.deeper(), join, i, n),
                        element_ctx(wide.deeper(), join, i, n),
                        children[i],
                    );
                }
                lemma_body_len_le(deep2, deep1, n);
                lemma_list_body_len(deep1, narrow.indent(), join, n);
                lemma_list_body_len(deep2, wide.indent(), join, n);
            }
        },
        RuleView::Column(_) => {
            lemma_one_line_is_kept(fmt, narrow, wide, node);
        },
    }
}

} // verus!
