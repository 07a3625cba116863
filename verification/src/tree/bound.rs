//! The width bound: every line of every rendering is within its limit. The
//! limit of a line is the width that is left where the line stands, and what
//! may go beyond it is named: a text wider than that, the brackets around a
//! collapsed content, the joiner and a trailing comment behind a line, and
//! the indentation of a broken list. A line of comments is as wide as the
//! renderer makes it.

use vstd::prelude::*;
use crate::text::{blanks, concat_all, join_with, lemma_width_blanks, lemma_width_concat, width};
use crate::tree::format::{
    before_lines, child_forces_break, child_texts, closed_lines, commented, decorate,
    element_ctx, joiner_behind, joiner_text, list_body, pack, pack_step, render, render_children,
    render_tokens, token_ctx, Packing, Rendered,
};
use crate::tree::laws::{all_within, lemma_width_join_two, lemma_width_merged};
use crate::tree::{NodeView, RuleView};
use crate::{ColumnConfig, CommentSpec, ContextView};

verus! {

/// The greater of two numbers.
pub open spec fn larger(a: nat, b: nat) -> nat {
    if a >= b {
        a
    } else {
        b
    }
}

/// The greatest of the first `n` numbers; zero for none.
pub open spec fn most(l: Seq<nat>, n: nat) -> nat
    decreases n,
{
    if n == 0 {
        0
    } else {
        larger(most(l, (n - 1) as nat), l[n - 1])
    }
}

/// The widths of `lines`.
pub open spec fn widths(lines: Seq<Seq<char>>) -> Seq<nat> {
    Seq::new(lines.len(), |k: int| width(lines[k]))
}

/// What a trailing comment adds behind a line: the enclosing list's joiner,
/// a blank and the comment.
pub open spec fn tail_width(fmt: CommentSpec, ctx: ContextView, after: Option<Seq<char>>) -> nat {
    match after {
        Some(c) => width(joiner_text(ctx)) + 1 + width(fmt.oneline_text(c)),
        None => 0,
    }
}

/// The limits with the last of them raised by `by`.
pub open spec fn raised(l: Seq<nat>, by: nat) -> Seq<nat> {
    if l.len() == 0 {
        l
    } else {
        l.drop_last().push(l.last() + by)
    }
}

/// The limits of the lines of a part behind which a comment of the whole is
/// to stand: the joiner may go behind the last line.
pub open spec fn closed_limits(ctx: ContextView, l: Seq<nat>, reported: bool) -> Seq<nat> {
    if reported {
        l
    } else {
        raised(l, width(joiner_text(ctx)))
    }
}

/// The limits of the lines of one child in the broken form of a list: the
/// indentation before each, the joiner behind the last.
pub open spec fn decorate_limits(
    l: Seq<nat>,
    r: Rendered,
    tab: Seq<char>,
    join: Seq<char>,
    is_last: bool,
) -> Seq<nat> {
    Seq::new(
        l.len(),
        |k: int|
            if !is_last && k == l.len() - 1 && !r.1 {
                width(tab) + l[k] + width(join)
            } else {
                width(tab) + l[k]
            },
    )
}

/// The limits of the lines of the first `n` children in the broken form of a
/// list.
pub open spec fn body_limits(
    lims: Seq<Seq<nat>>,
    deep: Seq<Rendered>,
    tab: Seq<char>,
    join: Seq<char>,
    n: nat,
) -> Seq<nat>
    decreases n,
{
    if n == 0 {
        Seq::empty()
    } else {
        body_limits(lims, deep, tab, join, (n - 1) as nat) + decorate_limits(
            lims[n - 1],
            deep[n - 1],
            tab,
            join,
            n == deep.len(),
        )
    }
}

/// The limits of each child of a list with the joiner `join` under `ctx`.
pub open spec fn children_limits(
    fmt: CommentSpec,
    ctx: ContextView,
    join: Seq<char>,
    children: Seq<NodeView>,
) -> Seq<Seq<nat>>
    decreases children, 0nat,
{
    Seq::new(
        children.len(),
        |i: int|
            if 0 <= i < children.len() {
                limits(fmt, element_ctx(ctx, join, i, children.len()), children[i])
            } else {
                arbitrary()
            },
    )
}

/// The greatest limit of each token of a column under `ctx`.
pub open spec fn token_tops(
    fmt: CommentSpec,
    ctx: ContextView,
    items: Seq<(NodeView, ColumnConfig)>,
) -> Seq<nat>
    decreases items, 0nat,
{
    Seq::new(
        items.len(),
        |i: int|
            if 0 <= i < items.len() {
                let l = limits(fmt, token_ctx(ctx, i, items.len()), items[i].0);
                most(l, l.len())
            } else {
                arbitrary()
            },
    )
}

/// The limit of each line of `node` under `ctx`.
///
/// - A line of comments before a rule is as wide as the renderer makes it.
/// - A text has the width that is left, or its own width where it is wider;
///   a trailing comment and the joiner before it stand behind that.
/// - A collapsed bracket has the limit of its content and the width of both
///   brackets; a bracket that stands alone has its own width.
/// - A list on one line has the width that is left; in the broken form each
///   line has the limit of the element's line, one level deeper, and the
///   indentation, and the joiner where it stands behind the line.
/// - A line of a column has the width that is left, or the greatest limit of
///   a line of its tokens where that is more.
pub open spec fn limits(fmt: CommentSpec, ctx: ContextView, node: NodeView) -> Seq<nat>
    decreases node, 1nat,
{
    let head = widths(before_lines(fmt, ctx, node.before_comments));
    let tail = tail_width(fmt, ctx, node.after_comment);
    match node.rule {
        RuleView::AST(inner) => {
            let l = limits(fmt, ctx, *inner);
            match node.after_comment {
                Some(c) => (head + closed_limits(ctx, l, render(fmt, ctx, *inner).1)).push(
                    width(fmt.oneline_text(c)),
                ),
                None => head + l,
            }
        },
        RuleView::Raw(s) => head.push(larger(ctx.len_max(), width(s)) + tail),
        RuleView::Paren(open, content, close) => {
            let probe = render(fmt, ctx.with_join(None), *content);
            if probe.0.len() <= 1 && !probe.1 {
                let l = limits(fmt, ctx.with_join(None), *content);
                head.push(width(open) + most(l, l.len()) + width(close) + tail)
            } else {
                (head.push(width(open)) + limits(fmt, ctx.deeper().with_join(None), *content)).push(
                    width(close) + tail,
                )
            }
        },
        RuleView::List(join, children) => {
            let probe = render_children(fmt, ctx, join, children);
            let deep = render_children(fmt, ctx.deeper(), join, children);
            let forced = exists|i: int|
                0 <= i < children.len() && child_forces_break(children, probe, i);
            let one = join_with(child_texts(probe), join + seq![' ']);
            if !forced && width(one) < ctx.len_max() {
                match node.after_comment {
                    Some(c) => head.push(
                        ctx.len_max() + width(joiner_text(ctx)) + 1 + width(fmt.oneline_text(c)),
                    ),
                    None => head.push(ctx.len_max()),
                }
            } else {
                let reported = deep.len() > 0 && deep[deep.len() - 1].1;
                let body = body_limits(
                    children_limits(fmt, ctx.deeper(), join, children),
                    deep,
                    ctx.indent(),
                    join,
                    deep.len(),
                );
                match node.after_comment {
                    Some(c) => (head + closed_limits(ctx, body, reported)).push(
                        width(fmt.oneline_text(c)),
                    ),
                    None => head + body,
                }
            }
        },
        RuleView::Column(items) => {
            let st = pack(render_tokens(fmt, ctx, items), ctx.len_max(), items.len());
            let tops = token_tops(fmt, ctx, items);
            let limit = larger(ctx.len_max(), most(tops, tops.len()));
            let body = head + Seq::new(st.out.len(), |k: int| limit);
            match node.after_comment {
                Some(c) => if st.last_trailing {
                    body.push(limit).push(width(fmt.oneline_text(c)))
                } else {
                    body.push(limit + tail)
                },
                None => body.push(limit),
            }
        },
    }
}

/// Whether each of `lines` is within its limit.
pub open spec fn within_limits(lines: Seq<Seq<char>>, l: Seq<nat>) -> bool {
    &&& l.len() == lines.len()
    &&& forall|k: int| 0 <= k < lines.len() ==> width(#[trigger] lines[k]) <= l[k]
}

/// The greatest of the first `n` numbers is no less than each of them.
pub proof fn lemma_most_bounds(l: Seq<nat>, n: nat, i: int)
    requires
        0 <= i < n,
    ensures
        l[i] <= most(l, n),
    decreases n,
{
    if i < n - 1 {
        lemma_most_bounds(l, (n - 1) as nat, i);
    }
}

/// One blank is one wide, and nothing is nothing wide.
proof fn lemma_width_small()
    ensures
        width(seq![' ']) == 1,
        width(Seq::<char>::empty()) == 0,
{
    lemma_width_blanks(1);
    assert(blanks(1) =~= seq![' ']);
    lemma_width_blanks(0);
    assert(blanks(0) =~= Seq::<char>::empty());
}

/// A body with its trailing comment is as wide as the body and what the
/// comment adds.
proof fn lemma_width_commented(
    fmt: CommentSpec,
    ctx: ContextView,
    body: Seq<char>,
    after: Option<Seq<char>>,
)
    ensures
        width(commented(fmt, ctx, body, after)) == width(body) + tail_width(fmt, ctx, after),
{
    lemma_width_small();
    match after {
        Some(c) => {
            lemma_width_concat(body, joiner_text(ctx));
            lemma_width_concat(body + joiner_text(ctx), seq![' ']);
            lemma_width_concat(body + joiner_text(ctx) + seq![' '], fmt.oneline_text(c));
        },
        None => {},
    }
}

/// Lines are within their own widths.
proof fn lemma_within_widths(lines: Seq<Seq<char>>)
    ensures
        within_limits(lines, widths(lines)),
{
}

/// Lines within their limits, one run after the other.
proof fn lemma_within_add(a: Seq<Seq<char>>, la: Seq<nat>, b: Seq<Seq<char>>, lb: Seq<nat>)
    requires
        within_limits(a, la),
        within_limits(b, lb),
    ensures
        within_limits(a + b, la + lb),
{
    assert forall|k: int| 0 <= k < (a + b).len() implies width(#[trigger] (a + b)[k]) <= (la
        + lb)[k] by {
        if k < a.len() {
            assert((a + b)[k] == a[k]);
        } else {
            assert((a + b)[k] == b[k - a.len()]);
        }
    }
}

/// Lines within their limits and one more line within its limit.
proof fn lemma_within_push(a: Seq<Seq<char>>, la: Seq<nat>, x: Seq<char>, lx: nat)
    requires
        within_limits(a, la),
        width(x) <= lx,
    ensures
        within_limits(a.push(x), la.push(lx)),
{
    assert forall|k: int| 0 <= k < a.push(x).len() implies width(#[trigger] a.push(x)[k])
        <= la.push(lx)[k] by {
        if k < a.len() {
            assert(a.push(x)[k] == a[k]);
        }
    }
}

/// Lines within their limits stay within them when the joiner goes behind
/// the last line and its limit is raised by the joiner.
proof fn lemma_within_closed(ctx: ContextView, lines: Seq<Seq<char>>, l: Seq<nat>, reported: bool)
    requires
        within_limits(lines, l),
    ensures
        within_limits(closed_lines(ctx, lines, reported), closed_limits(ctx, l, reported)),
{
    if !reported && lines.len() > 0 {
        lemma_width_concat(lines.last(), joiner_text(ctx));
        let a = joiner_behind(ctx, lines);
        let la = raised(l, width(joiner_text(ctx)));
        assert forall|k: int| 0 <= k < a.len() implies width(#[trigger] a[k]) <= la[k] by {
            if k < lines.len() - 1 {
                assert(a[k] == lines[k]);
                assert(la[k] == l[k]);
            }
        }
    }
}

/// A part of one line at most, within its limits, is no wider than the
/// greatest of them.
proof fn lemma_width_of_one(lines: Seq<Seq<char>>, l: Seq<nat>)
    requires
        within_limits(lines, l),
        lines.len() <= 1,
    ensures
        width(concat_all(lines)) <= most(l, l.len()),
{
    lemma_width_small();
    if lines.len() == 1 {
        assert(lines.drop_last() =~= Seq::<Seq<char>>::empty());
        assert(concat_all(lines.drop_last()) =~= Seq::<char>::empty());
        assert(concat_all(lines) =~= lines[0]);
        lemma_most_bounds(l, l.len(), 0);
    } else {
        assert(concat_all(lines) =~= Seq::<char>::empty());
    }
}

/// The lines of the first `n` children in the broken form of a list are
/// within their limits, where the lines of each child are.
proof fn lemma_body_within(
    lims: Seq<Seq<nat>>,
    deep: Seq<Rendered>,
    tab: Seq<char>,
    join: Seq<char>,
    n: nat,
)
    requires
        n <= deep.len(),
        lims.len() == deep.len(),
        forall|i: int| 0 <= i < deep.len() ==> within_limits((#[trigger] deep[i]).0, lims[i]),
    ensures
        within_limits(list_body(deep, tab, join, n), body_limits(lims, deep, tab, join, n)),
    decreases n,
{
    if n > 0 {
        lemma_body_within(lims, deep, tab, join, (n - 1) as nat);
        let r = deep[n - 1];
        let l = lims[n - 1];
        assert(within_limits(r.0, l));
        let is_last = n == deep.len();
        let lines = decorate(r, tab, join, is_last);
        let ll = decorate_limits(l, r, tab, join, is_last);
        assert forall|k: int| 0 <= k < lines.len() implies width(#[trigger] lines[k]) <= ll[k] by {
            lemma_width_concat(tab, r.0[k]);
            lemma_width_concat(tab + r.0[k], join);
        }
        lemma_within_add(
            list_body(deep, tab, join, (n - 1) as nat),
            body_limits(lims, deep, tab, join, (n - 1) as nat),
            lines,
            ll,
        );
    }
}

/// What packing keeps true from step to step under the limit `limit`: the
/// lines out and what is pending stay within it, and the provisional buffer
/// holds text only behind a settled one.
pub open spec fn packed_below(st: Packing, limit: nat) -> bool {
    &&& all_within(st.out, limit)
    &&& width(st.joined()) <= limit
    &&& st.provisional.len() > 0 ==> st.settled.len() > 0
}

/// One step of packing keeps the lines within the limit, where the limit is
/// no less than the width that is left and than the width of each line of
/// the token.
proof fn lemma_step_below(st: Packing, item: (Rendered, ColumnConfig), max: nat, limit: nat)
    requires
        max <= limit,
        packed_below(st, limit),
        all_within(item.0.0, limit),
    ensures
        packed_below(pack_step(st, item, max), limit),
{
    let lines = item.0.0;
    let text = concat_all(lines);
    let next = pack_step(st, item, max);
    lemma_width_small();
    lemma_width_join_two(st.settled, st.settled_gap, st.provisional);
    lemma_width_join_two(next.settled, next.settled_gap, next.provisional);
    if lines.len() > 1 {
        assert(width(lines.last()) <= limit) by {
            assert(lines.last() == lines[lines.len() - 1]);
        }
        assert forall|k: int| 0 <= k < next.out.len() implies width(#[trigger] next.out[k])
            <= limit by {
            let out = if st.settled.len() > 0 {
                st.out.push(st.joined())
            } else {
                st.out
            };
            if k < out.len() {
                if k < st.out.len() {
                    assert(next.out[k] == st.out[k]);
                } else {
                    assert(next.out[k] == st.joined());
                }
            } else {
                assert(next.out[k] == lines[k - out.len()]);
            }
        }
    } else {
        if lines.len() == 1 {
            assert(lines.drop_last() =~= Seq::<Seq<char>>::empty());
            assert(concat_all(lines.drop_last()) =~= Seq::<char>::empty());
            assert(text =~= lines[0]);
        } else {
            assert(text =~= Seq::<char>::empty());
        }
        assert(width(text) <= limit);
        lemma_width_merged(st, text);
        lemma_width_concat(st.provisional, blanks(st.provisional_gap));
        lemma_width_concat(st.provisional + blanks(st.provisional_gap), text);
        lemma_width_concat(st.settled, blanks(st.settled_gap));
        lemma_width_concat(st.settled + blanks(st.settled_gap), st.provisional);
        lemma_width_concat(st.settled + blanks(st.settled_gap), st.tail_joined(text));
        lemma_width_blanks(st.settled_gap);
        lemma_width_blanks(st.provisional_gap);
        assert(width(st.tail_joined(text)) <= width(st.provisional) + st.provisional_gap + width(
            text,
        ));
        assert forall|k: int| 0 <= k < next.out.len() implies width(#[trigger] next.out[k])
            <= limit by {
            if k < st.out.len() {
                assert(next.out[k] == st.out[k]);
            }
        }
    }
}

/// The lines that packing has put out after `n` tokens, and what is pending,
/// are within the limit, where the limit is no less than the width that is
/// left and than the width of each line of the tokens.
proof fn lemma_pack_below(items: Seq<(Rendered, ColumnConfig)>, max: nat, limit: nat, n: nat)
    requires
        n <= items.len(),
        max <= limit,
        forall|i: int| 0 <= i < n ==> all_within((#[trigger] items[i]).0.0, limit),
    ensures
        packed_below(pack(items, max, n), limit),
    decreases n,
{
    lemma_width_small();
    if n > 0 {
        lemma_pack_below(items, max, limit, (n - 1) as nat);
        assert(all_within(items[n - 1].0.0, limit));
        lemma_step_below(pack(items, max, (n - 1) as nat), items[n - 1], max, limit);
    }
}

/// The width bound: every line of every rendering is within its limit.
pub proof fn lemma_lines_within_limits(fmt: CommentSpec, ctx: ContextView, node: NodeView)
    ensures
        within_limits(render(fmt, ctx, node).0, limits(fmt, ctx, node)),
    decreases node,
{
    let head = before_lines(fmt, ctx, node.before_comments);
    let lh = widths(head);
    let tail = tail_width(fmt, ctx, node.after_comment);
    lemma_within_widths(head);
    lemma_width_small();
    match node.rule {
        RuleView::AST(inner) => {
            lemma_lines_within_limits(fmt, ctx, *inner);
            let r = render(fmt, ctx, *inner);
            let l = limits(fmt, ctx, *inner);
            match node.after_comment {
                Some(c) => {
                    lemma_within_closed(ctx, r.0, l, r.1);
                    lemma_within_add(
                        head,
                        lh,
                        closed_lines(ctx, r.0, r.1),
                        closed_limits(ctx, l, r.1),
                    );
                    lemma_within_push(
                        head + closed_lines(ctx, r.0, r.1),
                        lh + closed_limits(ctx, l, r.1),
                        fmt.oneline_text(c),
                        width(fmt.oneline_text(c)),
                    );
                },
                None => {
                    lemma_within_add(head, lh, r.0, l);
                },
            }
        },
        RuleView::Raw(s) => {
            lemma_width_commented(fmt, ctx, s, node.after_comment);
            lemma_within_push(
                head,
                lh,
                commented(fmt, ctx, s, node.after_comment),
                larger(ctx.len_max(), width(s)) + tail,
            );
        },
        RuleView::Paren(open, content, close) => {
            let probe = render(fmt, ctx.with_join(None), *content);
            if probe.0.len() <= 1 && !probe.1 {
                lemma_lines_within_limits(fmt, ctx.with_join(None), *content);
                let l = limits(fmt, ctx.with_join(None), *content);
                lemma_width_of_one(probe.0, l);
                let body = open + concat_all(probe.0) + close;
                lemma_width_concat(open, concat_all(probe.0));
                lemma_width_concat(open + concat_all(probe.0), close);
                lemma_width_commented(fmt, ctx, body, node.after_comment);
                lemma_within_push(
                    head,
                    lh,
                    commented(fmt, ctx, body, node.after_comment),
                    width(open) + most(l, l.len()) + width(close) + tail,
                );
            } else {
                let deep_ctx = ctx.deeper().with_join(None);
                lemma_lines_within_limits(fmt, deep_ctx, *content);
                let inner = render(fmt, deep_ctx, *content);
                lemma_within_push(head, lh, open, width(open));
                lemma_within_add(
                    head.push(open),
                    lh.push(width(open)),
                    inner.0,
                    limits(fmt, deep_ctx, *content),
                );
                lemma_width_commented(fmt, ctx, close, node.after_comment);
                lemma_within_push(
                    head.push(open) + inner.0,
                    lh.push(width(open)) + limits(fmt, deep_ctx, *content),
                    commented(fmt, ctx, close, node.after_comment),
                    width(close) + tail,
                );
            }
        },
        RuleView::List(join, children) => {
            let n = children.len();
            let probe = render_children(fmt, ctx, join, children);
            let deep = render_children(fmt, ctx.deeper(), join, children);
            let forced = exists|i: int| 0 <= i < n && child_forces_break(children, probe, i);
            let one = join_with(child_texts(probe), join + seq![' ']);
            if !forced && width(one) < ctx.len_max() {
                match node.after_comment {
                    Some(c) => {
                        lemma_width_commented(fmt, ctx, one, node.after_comment);
                        lemma_width_concat(one, seq![' ']);
                        lemma_width_concat(one + seq![' '], fmt.oneline_text(c));
                        let reported = n > 0 && probe[n - 1].1;
                        let line = if reported {
                            one + seq![' '] + fmt.oneline_text(c)
                        } else {
                            commented(fmt, ctx, one, node.after_comment)
                        };
                        lemma_within_push(
                            head,
                            lh,
                            line,
                            ctx.len_max() + width(joiner_text(ctx)) + 1 + width(
                                fmt.oneline_text(c),
                            ),
                        );
                    },
                    None => {
                        lemma_within_push(head, lh, one, ctx.len_max());
                    },
                }
            } else {
                let lims = children_limits(fmt, ctx.deeper(), join, children);
                assert forall|i: int| 0 <= i < deep.len() implies within_limits(
                    (#[trigger] deep[i]).0,
                    lims[i],
                ) by {
                    lemma_lines_within_limits(
                        fmt,
                        element_ctx(ctx.deeper(), join, i, n),
                        children[i],
                    );
                }
                lemma_body_within(lims, deep, ctx.indent(), join, deep.len());
                let body = list_body(deep, ctx.indent(), join, deep.len());
                let lb = body_limits(lims, deep, ctx.indent(), join, deep.len());
                let reported = deep.len() > 0 && deep[deep.len() - 1].1;
                match node.after_comment {
                    Some(c) => {
                        lemma_within_closed(ctx, body, lb, reported);
                        lemma_within_add(
                            head,
                            lh,
                            closed_lines(ctx, body, reported),
                            closed_limits(ctx, lb, reported),
                        );
                        lemma_within_push(
                            head + closed_lines(ctx, body, reported),
                            lh + closed_limits(ctx, lb, reported),
                            fmt.oneline_text(c),
                            width(fmt.oneline_text(c)),
                        );
                    },
                    None => {
                        lemma_within_add(head, lh, body, lb);
                    },
                }
            }
        },
        RuleView::Column(items) => {
            let n = items.len();
            let rendered = render_tokens(fmt, ctx, items);
            let tops = token_tops(fmt, ctx, items);
            let limit = larger(ctx.len_max(), most(tops, tops.len()));
            assert forall|i: int| 0 <= i < n implies all_within(
                (#[trigger] rendered[i]).0.0,
                limit,
            ) by {
                lemma_lines_within_limits(fmt, token_ctx(ctx, i, n), items[i].0);
                let l = limits(fmt, token_ctx(ctx, i, n), items[i].0);
                lemma_most_bounds(tops, tops.len(), i);
                assert forall|k: int| 0 <= k < rendered[i].0.0.len() implies width(
                    #[trigger] rendered[i].0.0[k],
                ) <= limit by {
                    lemma_most_bounds(l, l.len(), k);
                }
            }
            lemma_pack_below(rendered, ctx.len_max(), limit, n);
            let st = pack(rendered, ctx.len_max(), n);
            let flat = Seq::new(st.out.len(), |k: int| limit);
            assert(within_limits(st.out, flat));
            lemma_within_add(head, lh, st.out, flat);
            let last = st.joined();
            match node.after_comment {
                Some(c) => {
                    if st.last_trailing {
                        lemma_within_push(head + st.out, lh + flat, last, limit);
                        lemma_within_push(
                            (head + st.out).push(last),
                            (lh + flat).push(limit),
                            fmt.oneline_text(c),
                            width(fmt.oneline_text(c)),
                        );
                    } else {
                        lemma_width_commented(fmt, ctx, last, node.after_comment);
                        lemma_within_push(
                            head + st.out,
                            lh + flat,
                            commented(fmt, ctx, last, node.after_comment),
                            limit + tail,
                        );
                    }
                },
                None => {
                    lemma_within_push(head + st.out, lh + flat, last, limit);
                },
            }
        },
    }
}

/// Where the indentation of the next level still fits into the line, a line
/// of that level with its indentation before it has the width that is left
/// at this level: the limit of a line is that of the depth at which it
/// stands.
pub proof fn lemma_indent_fits(ctx: ContextView)
    requires
        ctx.depth < usize::MAX,
        ctx.tab_spaces * (ctx.depth + 1) <= ctx.line_width,
    ensures
        width(ctx.indent()) + ctx.deeper().len_max() == ctx.len_max(),
{
    lemma_width_blanks(ctx.tab_spaces);
    assert(ctx.tab_spaces * (ctx.depth + 1) == ctx.tab_spaces * ctx.depth + ctx.tab_spaces)
        by (nonlinear_arith);
}

} // verus!
