//! Collapse monotonicity: what stands on one line keeps that line when more
//! width is given, a bracketed element around it stays collapsed, and what is
//! broken takes no more lines.

use vstd::prelude::*;
use crate::text::{concat_all, join_with, width};
use crate::tree::format::{
    before_lines, child_forces_break, child_texts, commented, element_ctx, list_body, pack,
    render, render_children, render_tokens, token_ctx,
};
use crate::tree::laws::{
    at_least_as_wide, body_len, lemma_body_len_le, lemma_closed_len, lemma_len_max_grows,
    lemma_list_body_grows, lemma_list_body_len, lemma_one_line_is_kept, lemma_pack_same, regular,
};
use crate::tree::{NodeView, RuleView};
use crate::{CommentSpec, ContextView};

verus! {

/// Whether `node` stands on one line in its one-line form under `ctx`: it
/// has no comment before it; a comment wrapper has no trailing comment and
/// its content stands on one line; a bracketed element is collapsed around
/// such content; a list, of whatever length, is in its one-line form and so
/// is each of its elements; a column packs all its tokens, each on one line,
/// onto one line.
pub open spec fn on_one_line(fmt: CommentSpec, ctx: ContextView, node: NodeView) -> bool
    decreases node,
{
    &&& node.before_comments.len() == 0
    &&& match node.rule {
        RuleView::Raw(_) => true,
        RuleView::AST(inner) => node.after_comment is None && on_one_line(fmt, ctx, *inner),
        RuleView::Paren(_, content, _) => {
            &&& on_one_line(fmt, ctx.with_join(None), *content)
            &&& !render(fmt, ctx.with_join(None), *content).1
        },
        RuleView::List(join, children) => {
            let probe = render_children(fmt, ctx, join, children);
            &&& !(exists|i: int| 0 <= i < children.len() && child_forces_break(children, probe, i))
            &&& width(join_with(child_texts(probe), join + seq![' '])) < ctx.len_max()
            &&& forall|i: int|
                0 <= i < children.len() ==> on_one_line(
                    fmt,
                    element_ctx(ctx, join, i, children.len()),
                    #[trigger] children[i],
                )
        },
        RuleView::Column(items) => {
            let st = pack(render_tokens(fmt, ctx, items), ctx.len_max(), items.len());
            &&& st.out.len() == 0
            &&& !(node.after_comment is Some && st.last_trailing)
            &&& forall|i: int|
                0 <= i < items.len() ==> on_one_line(
                    fmt,
                    token_ctx(ctx, i, items.len()),
                    (#[trigger] items[i]).0,
                )
        },
    }
}

/// What stands on one line takes one line.
pub proof fn lemma_on_one_line_is_one_line(fmt: CommentSpec, ctx: ContextView, node: NodeView)
    requires
        on_one_line(fmt, ctx, node),
    ensures
        render(fmt, ctx, node).0.len() == 1,
    decreases node,
{
    match node.rule {
        RuleView::AST(inner) => {
            lemma_on_one_line_is_one_line(fmt, ctx, *inner);
            let head = before_lines(fmt, ctx, node.before_comments);
            assert(head.len() == 0);
            assert((head + render(fmt, ctx, *inner).0).len() == 1);
        },
        RuleView::Paren(_, content, _) => {
            lemma_on_one_line_is_one_line(fmt, ctx.with_join(None), *content);
        },
        _ => {},
    }
}

/// What stands on one line keeps that line: a node on one line under a
/// context renders to the same under every context that leaves at least as
/// much width, and stands on one line there.
pub proof fn lemma_on_one_line_is_kept(
    fmt: CommentSpec,
    narrow: ContextView,
    wide: ContextView,
    node: NodeView,
)
    requires
        at_least_as_wide(wide, narrow),
        on_one_line(fmt, narrow, node),
    ensures
        render(fmt, wide, node) == render(fmt, narrow, node),
        on_one_line(fmt, wide, node),
    decreases node,
{
    lemma_len_max_grows(wide, narrow);
    match node.rule {
        RuleView::Raw(_) => {},
        RuleView::AST(inner) => {
            lemma_on_one_line_is_kept(fmt, narrow, wide, *inner);
        },
        RuleView::Paren(_, content, _) => {
            lemma_on_one_line_is_kept(fmt, narrow.with_join(None), wide.with_join(None), *content);
            lemma_on_one_line_is_one_line(fmt, narrow.with_join(None), *content);
        },
        RuleView::List(join, children) => {
            let n = children.len();
            let probe1 = render_children(fmt, narrow, join, children);
            let probe2 = render_children(fmt, wide, join, children);
            assert forall|i: int| 0 <= i < n implies probe2[i] == probe1[i] && on_one_line(
                fmt,
                element_ctx(wide, join, i, n),
                #[trigger] children[i],
            ) by {
                lemma_on_one_line_is_kept(
                    fmt,
                    element_ctx(narrow, join, i, n),
                    element_ctx(wide, join, i, n),
                    children[i],
                );
            }
            assert(probe2 =~= probe1);
        },
        RuleView::Column(items) => {
            let n = items.len();
            let items1 = render_tokens(fmt, narrow, items);
            let items2 = render_tokens(fmt, wide, items);
            assert forall|i: int| 0 <= i < n implies items2[i] == items1[i] && on_one_line(
                fmt,
                token_ctx(wide, i, n),
                (#[trigger] items[i]).0,
            ) by {
                lemma_on_one_line_is_kept(
                    fmt,
                    token_ctx(narrow, i, n),
                    token_ctx(wide, i, n),
                    items[i].0,
                );
            }
            assert(items2 =~= items1);
            lemma_pack_same(items1, narrow.len_max(), wide.len_max(), n, n);
        },
    }
}

/// Collapse monotonicity: a bracketed element whose content ends in no
/// comment and stands on one line, with lists of whatever length, or is
/// regular and takes one line at most, collapses to one line, and to the same
/// line under every context that leaves at least as much width.
pub proof fn lemma_collapse_is_monotone(
    fmt: CommentSpec,
    narrow: ContextView,
    wide: ContextView,
    node: NodeView,
)
    requires
        at_least_as_wide(wide, narrow),
        node.before_comments.len() <= 1,
        node.rule is Paren,
        !render(fmt, narrow.with_join(None), *node.rule->Paren_1).1,
        on_one_line(fmt, narrow.with_join(None), *node.rule->Paren_1) || (regular(
            *node.rule->Paren_1,
        ) && render(fmt, narrow.with_join(None), *node.rule->Paren_1).0.len() <= 1),
    ensures
        render(fmt, wide, node) == render(fmt, narrow, node),
        render(fmt, wide, node).0 == before_lines(fmt, wide, node.before_comments).push(
            commented(
                fmt,
                wide,
                node.rule->Paren_0 + concat_all(
                    render(fmt, wide.with_join(None), *node.rule->Paren_1).0,
                ) + node.rule->Paren_2,
                node.after_comment,
            ),
        ),
{
    let content = *node.rule->Paren_1;
    if on_one_line(fmt, narrow.with_join(None), content) {
        lemma_on_one_line_is_kept(fmt, narrow.with_join(None), wide.with_join(None), content);
        lemma_on_one_line_is_one_line(fmt, narrow.with_join(None), content);
    } else {
        lemma_one_line_is_kept(fmt, narrow.with_join(None), wide.with_join(None), content);
    }
    assert(before_lines(fmt, wide, node.before_comments) == before_lines(
        fmt,
        narrow,
        node.before_comments,
    ));
}

/// Whether the rendering of `node` under `ctx` is steady: no node has more
/// than one comment before it, whatever takes the one-line form stands on
/// one line with all that is in it, every column stands on one line, and no
/// list is broken that has no element.
pub open spec fn steady(fmt: CommentSpec, ctx: ContextView, node: NodeView) -> bool
    decreases node,
{
    &&& node.before_comments.len() <= 1
    &&& match node.rule {
        RuleView::Raw(_) => true,
        RuleView::AST(inner) => steady(fmt, ctx, *inner),
        RuleView::Paren(_, content, _) => {
            let probe = render(fmt, ctx.with_join(None), *content);
            if probe.0.len() <= 1 && !probe.1 {
                on_one_line(fmt, ctx.with_join(None), *content)
            } else {
                steady(fmt, ctx.deeper().with_join(None), *content)
            }
        },
        RuleView::List(join, children) => {
            let probe = render_children(fmt, ctx, join, children);
            let forced = exists|i: int|
                0 <= i < children.len() && child_forces_break(children, probe, i);
            if !forced && width(join_with(child_texts(probe), join + seq![' '])) < ctx.len_max() {
                forall|i: int|
                    0 <= i < children.len() ==> on_one_line(
                        fmt,
                        element_ctx(ctx, join, i, children.len()),
                        #[trigger] children[i],
                    )
            } else {
                &&& children.len() >= 1
                &&& forall|i: int|
                    0 <= i < children.len() ==> steady(
                        fmt,
                        element_ctx(ctx.deeper(), join, i, children.len()),
                        #[trigger] children[i],
                    )
            }
        },
        RuleView::Column(_) => node.before_comments.len() == 0 && on_one_line(fmt, ctx, node),
    }
}

/// A steady rendering has a line.
pub proof fn lemma_steady_has_lines(fmt: CommentSpec, ctx: ContextView, node: NodeView)
    requires
        steady(fmt, ctx, node),
    ensures
        render(fmt, ctx, node).0.len() >= 1,
    decreases node,
{
    match node.rule {
        RuleView::AST(inner) => {
            lemma_steady_has_lines(fmt, ctx, *inner);
        },
        RuleView::List(join, children) => {
            let n = children.len();
            let probe = render_children(fmt, ctx, join, children);
            let forced = exists|i: int| 0 <= i < n && child_forces_break(children, probe, i);
            let one = join_with(child_texts(probe), join + seq![' ']);
            if !(!forced && width(one) < ctx.len_max()) {
                let deep = render_children(fmt, ctx.deeper(), join, children);
                assert(steady(fmt, element_ctx(ctx.deeper(), join, 0, n), children[0]));
                lemma_steady_has_lines(fmt, element_ctx(ctx.deeper(), join, 0, n), children[0]);
                lemma_list_body_len(deep, ctx.indent(), join, deep.len());
                lemma_list_body_grows(deep, ctx.indent(), join, 1, deep.len());
                lemma_list_body_len(deep, ctx.indent(), join, 1);
                lemma_list_body_len(deep, ctx.indent(), join, 0);
            }
        },
        _ => {},
    }
}

/// More width makes no more lines of a steady list.
proof fn lemma_steady_list_never_grows(
    fmt: CommentSpec,
    narrow: ContextView,
    wide: ContextView,
    node: NodeView,
)
    requires
        at_least_as_wide(wide, narrow),
        steady(fmt, narrow, node),
        node.rule is List,
    ensures
        render(fmt, wide, node).0.len() <= render(fmt, narrow, node).0.len(),
    decreases node, 0nat,
{
    lemma_len_max_grows(wide, narrow);
    let join = node.rule->List_0;
    let children = node.rule->List_1;
    let n = children.len();
    let probe1 = render_children(fmt, narrow, join, children);
    let probe2 = render_children(fmt, wide, join, children);
    let deep1 = render_children(fmt, narrow.deeper(), join, children);
    let deep2 = render_children(fmt, wide.deeper(), join, children);
    let forced = exists|i: int| 0 <= i < n && child_forces_break(children, probe1, i);
    let one = join_with(child_texts(probe1), join + seq![' ']);
    assert(before_lines(fmt, wide, node.before_comments) == before_lines(
        fmt,
        narrow,
        node.before_comments,
    ));
    if !forced && width(one) < narrow.len_max() {
        assert forall|i: int| 0 <= i < n implies probe2[i] == probe1[i] by {
            lemma_on_one_line_is_kept(
                fmt,
                element_ctx(narrow, join, i, n),
                element_ctx(wide, join, i, n),
                children[i],
            );
        }
        assert(probe2 =~= probe1);
    } else {
        assert(steady(fmt, element_ctx(narrow.deeper(), join, 0, n), children[0]));
        lemma_steady_has_lines(fmt, element_ctx(narrow.deeper(), join, 0, n), children[0]);
        lemma_list_body_grows(deep1, narrow.indent(), join, 1, n);
        assert(body_len(deep1, 1) >= 1) by {
            assert(body_len(deep1, 0) == 0);
        }
        assert forall|i: int| 0 <= i < n implies (#[trigger] deep2[i]).0.len()
            <= deep1[i].0.len() by {
            lemma_steady_never_grows(
                fmt,
                element_ctx(narrow.deeper(), join, i, n),
                element_ctx(wide.deeper(), join, i, n),
                children[i],
            );
        }
        lemma_body_len_le(deep2, deep1, n);
        lemma_list_body_len(deep1, narrow.indent(), join, n);
        lemma_list_body_len(deep2, wide.indent(), join, n);
        let body1 = list_body(deep1, narrow.indent(), join, deep1.len());
        let body2 = list_body(deep2, wide.indent(), join, deep2.len());
        lemma_closed_len(narrow, body1, deep1.len() > 0 && deep1[deep1.len() - 1].1);
        lemma_closed_len(wide, body2, deep2.len() > 0 && deep2[deep2.len() - 1].1);
        let head = before_lines(fmt, narrow, node.before_comments);
        let forced2 = exists|i: int| 0 <= i < n && child_forces_break(children, probe2, i);
        let one2 = join_with(child_texts(probe2), join + seq![' ']);
        if node.after_comment is Some {
            assert(render(fmt, narrow, node).0.len() == head.len() + body1.len() + 1);
            if !forced2 && width(one2) < wide.len_max() {
                assert(render(fmt, wide, node).0.len() == head.len() + 1);
            } else {
                assert(render(fmt, wide, node).0.len() == head.len() + body2.len() + 1);
            }
        } else {
            assert(render(fmt, narrow, node).0.len() == head.len() + body1.len());
            if !forced2 && width(one2) < wide.len_max() {
                assert(render(fmt, wide, node).0.len() == head.len() + 1);
            } else {
                assert(render(fmt, wide, node).0.len() == head.len() + body2.len());
            }
        }
    }
}

/// More width makes no more lines: a steady rendering takes no more lines
/// under a context that leaves at least as much width. Lists may have any
/// number of elements.
pub proof fn lemma_steady_never_grows(
    fmt: CommentSpec,
    narrow: ContextView,
    wide: ContextView,
    node: NodeView,
)
    requires
        at_least_as_wide(wide, narrow),
        steady(fmt, narrow, node),
    ensures
        render(fmt, wide, node).0.len() <= render(fmt, narrow, node).0.len(),
    decreases node, 1nat,
{
    assert(before_lines(fmt, wide, node.before_comments) == before_lines(
        fmt,
        narrow,
        node.before_comments,
    ));
    match node.rule {
        RuleView::Raw(_) => {},
        RuleView::AST(inner) => {
            lemma_steady_never_grows(fmt, narrow, wide, *inner);
            let r1 = render(fmt, narrow, *inner);
            let r2 = render(fmt, wide, *inner);
            lemma_closed_len(narrow, r1.0, r1.1);
            lemma_closed_len(wide, r2.0, r2.1);
        },
        RuleView::Paren(_, content, _) => {
            let probe = render(fmt, narrow.with_join(None), *content);
            if probe.0.len() <= 1 && !probe.1 {
                lemma_on_one_line_is_kept(
                    fmt,
                    narrow.with_join(None),
                    wide.with_join(None),
                    *content,
                );
            } else {
                lemma_steady_never_grows(
                    fmt,
                    narrow.deeper().with_join(None),
                    wide.deeper().with_join(None),
                    *content,
                );
            }
        },
        RuleView::List(_, _) => {
            lemma_steady_list_never_grows(fmt, narrow, wide, node);
        },
        RuleView::Column(_) => {
            lemma_on_one_line_is_kept(fmt, narrow, wide, node);
        },
    }
}

} // verus!
