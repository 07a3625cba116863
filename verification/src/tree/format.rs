//! The static formatter: a complete tree to lines of text.

use vstd::prelude::*;
use crate::text::{
    append_lines, blanks, clone_lines, concat_all, concat_lines, glued, join_lines, join_with,
    lines_view, opt_text, push_line, spaces, text_width, width,
};
use crate::tree::{column_view, nodes_view, NodeView, Rule, RuleView, RuleWithComment};
use crate::{ColumnConfig, CommentSpec, Context, ContextView, Layout};

verus! {

/// The rendering of the comments that stand before a rule: nothing for none,
/// the one-line form for one, the block form for more.
pub open spec fn before_lines(
    fmt: CommentSpec,
    ctx: ContextView,
    comments: Seq<Seq<char>>,
) -> Seq<Seq<char>> {
    if comments.len() == 0 {
        Seq::empty()
    } else if comments.len() == 1 {
        seq![fmt.oneline_text(comments[0])]
    } else {
        fmt.block_lines(ctx, comments)
    }
}

/// The joiner of the enclosing list, which goes before a trailing comment.
pub open spec fn joiner_text(ctx: ContextView) -> Seq<char> {
    match ctx.list_join_str {
        Some(j) => j,
        None => Seq::empty(),
    }
}

/// `body` with the trailing comment, if there is one, on the same line: the
/// enclosing list's joiner, a blank, and the comment in its one-line form.
pub open spec fn commented(
    fmt: CommentSpec,
    ctx: ContextView,
    body: Seq<char>,
    after: Option<Seq<char>>,
) -> Seq<char> {
    match after {
        Some(c) => body + joiner_text(ctx) + seq![' '] + fmt.oneline_text(c),
        None => body,
    }
}

/// `lines` with the enclosing list's joiner behind the last of them.
pub open spec fn joiner_behind(ctx: ContextView, lines: Seq<Seq<char>>) -> Seq<Seq<char>> {
    if lines.len() == 0 {
        lines
    } else {
        lines.drop_last().push(lines.last() + joiner_text(ctx))
    }
}

/// The lines of a part behind which a comment of the whole is to stand
/// on a line of its own: where the part reports no comment, the enclosing
/// list's joiner goes behind its last line, so that it stands before the
/// comment and not after it.
pub open spec fn closed_lines(ctx: ContextView, lines: Seq<Seq<char>>, reported: bool) -> Seq<
    Seq<char>,
> {
    if reported {
        lines
    } else {
        joiner_behind(ctx, lines)
    }
}

/// The lines of a rendered node, and whether it reports a comment at its
/// end: a trailing comment of its own or, where it has none, what its last
/// part reports. Where a node reports a comment, the joiner of the enclosing
/// list stands before that comment.
pub type Rendered = (Seq<Seq<char>>, bool);

/// Whether child `i` of a list rules out the one-line form: it has comments
/// before it, it is not the last and ends in a comment, or it takes more than
/// one line.
pub open spec fn child_forces_break(children: Seq<NodeView>, probe: Seq<Rendered>, i: int) -> bool {
    ||| children[i].before_comments.len() > 0
    ||| (i < children.len() - 1 && probe[i].1)
    ||| probe[i].0.len() > 1
}

/// The single line of each rendered child.
pub open spec fn child_texts(probe: Seq<Rendered>) -> Seq<Seq<char>> {
    Seq::new(probe.len(), |i: int| concat_all(probe[i].0))
}

/// The lines of one child in the broken form of a list: each line indented by
/// one step; the joiner after the last line, unless the child is the last of
/// the list or its last line ends in a comment.
pub open spec fn decorate(r: Rendered, tab: Seq<char>, join: Seq<char>, is_last: bool) -> Seq<
    Seq<char>,
> {
    Seq::new(
        r.0.len(),
        |k: int|
            if !is_last && k == r.0.len() - 1 && !r.1 {
                tab + r.0[k] + join
            } else {
                tab + r.0[k]
            },
    )
}

/// The lines of the first `n` children in the broken form of a list.
pub open spec fn list_body(deep: Seq<Rendered>, tab: Seq<char>, join: Seq<char>, n: nat) -> Seq<
    Seq<char>,
>
    decreases n,
{
    if n == 0 {
        Seq::empty()
    } else {
        list_body(deep, tab, join, (n - 1) as nat) + decorate(
            deep[n - 1],
            tab,
            join,
            n == deep.len(),
        )
    }
}

/// A list from its rendered children: `probe` at the list's own depth, `deep`
/// one level deeper. The one-line form is taken when no child rules it out
/// and it is narrower than the width that is left. A trailing comment of the
/// list stands behind the one line, or on a line of its own after the broken
/// form; the enclosing list's joiner stands before it, unless the last
/// element reports a comment and has the joiner already.
pub open spec fn list_layout(
    fmt: CommentSpec,
    ctx: ContextView,
    join: Seq<char>,
    before: Seq<Seq<char>>,
    children: Seq<NodeView>,
    probe: Seq<Rendered>,
    deep: Seq<Rendered>,
    after: Option<Seq<char>>,
) -> Rendered {
    let forced = exists|i: int| 0 <= i < children.len() && child_forces_break(children, probe, i);
    let one = join_with(child_texts(probe), join + seq![' ']);
    let head = before_lines(fmt, ctx, before);
    if !forced && width(one) < ctx.len_max() {
        let reported = children.len() > 0 && probe[children.len() - 1].1;
        match after {
            Some(c) => (
                head.push(
                    if reported {
                        one + seq![' '] + fmt.oneline_text(c)
                    } else {
                        commented(fmt, ctx, one, after)
                    },
                ),
                true,
            ),
            None => (head.push(one), reported),
        }
    } else {
        let reported = deep.len() > 0 && deep[deep.len() - 1].1;
        let body = list_body(deep, ctx.indent(), join, deep.len());
        match after {
            Some(c) => (
                (head + closed_lines(ctx, body, reported)).push(fmt.oneline_text(c)),
                true,
            ),
            None => (head + body, reported),
        }
    }
}

/// `text` with `gap` blanks behind it; nothing for an empty `text`.
pub open spec fn gapped(text: Seq<char>, gap: nat) -> Seq<char> {
    if text.len() == 0 {
        Seq::empty()
    } else {
        text + blanks(gap)
    }
}

/// Two buffers as one line, `gap` blanks between them where neither is empty.
pub open spec fn join_two(a: Seq<char>, gap: nat, b: Seq<char>) -> Seq<char> {
    if b.len() == 0 {
        a
    } else if a.len() == 0 {
        b
    } else {
        a + blanks(gap) + b
    }
}

/// The state of column packing: the lines that are out, the settled buffer,
/// the provisional buffer, the blanks owed after each, and whether the token
/// taken last ended in a comment.
pub struct Packing {
    pub out: Seq<Seq<char>>,
    pub settled: Seq<char>,
    pub settled_gap: nat,
    pub provisional: Seq<char>,
    pub provisional_gap: nat,
    pub last_trailing: bool,
}

impl Packing {
    /// Nothing out and nothing pending.
    pub open spec fn start() -> Packing {
        Packing {
            out: Seq::empty(),
            settled: Seq::empty(),
            settled_gap: 0,
            provisional: Seq::empty(),
            provisional_gap: 0,
            last_trailing: false,
        }
    }

    /// Both buffers as one line.
    pub open spec fn joined(self) -> Seq<char> {
        join_two(self.settled, self.settled_gap, self.provisional)
    }

    /// Both buffers and `text` as one line.
    pub open spec fn merged(self, text: Seq<char>) -> Seq<char> {
        gapped(self.settled, self.settled_gap) + gapped(self.provisional, self.provisional_gap)
            + text
    }

    /// The provisional buffer and `text` as one line: the blanks owed after
    /// the buffer stand between them; `text` alone where the buffer is empty.
    pub open spec fn tail_joined(self, text: Seq<char>) -> Seq<char> {
        if self.provisional.len() == 0 {
            text
        } else {
            self.provisional + blanks(self.provisional_gap) + text
        }
    }

    /// Whether both buffers, their gaps and `text` fit into `max`.
    pub open spec fn fits(self, text: Seq<char>, max: nat) -> bool {
        width(self.settled) + self.settled_gap + width(self.provisional) + self.provisional_gap
            + width(text) <= max
    }

    /// The lines out, both buffers empty again.
    pub open spec fn flushed(out: Seq<Seq<char>>, trailing: bool) -> Packing {
        Packing { out, last_trailing: trailing, ..Packing::start() }
    }

    /// The lines out, `text` as the settled buffer.
    pub open spec fn seeded(
        out: Seq<Seq<char>>,
        text: Seq<char>,
        gap: nat,
        trailing: bool,
    ) -> Packing {
        Packing {
            out,
            settled: text,
            settled_gap: gap,
            last_trailing: trailing,
            ..Packing::start()
        }
    }
}

/// Where a token fits neither after both buffers nor is the provisional
/// buffer empty: whether to close the line after the provisional buffer
/// (`true`) or before it. `a` is the width of both buffers as one line, `b`
/// that of the provisional buffer with the token. A line within `max` is
/// preferred to one beyond it; of two within, the wider; of two beyond, the
/// narrower; the earlier line on a tie.
pub open spec fn prefer_settled_join(a: nat, b: nat, max: nat) -> bool {
    if a <= max && b <= max {
        a >= b
    } else if a <= max {
        true
    } else if b <= max {
        false
    } else {
        a <= b
    }
}

/// One step of column packing: the state after the token `item` is taken.
pub open spec fn pack_step(st: Packing, item: (Rendered, ColumnConfig), max: nat) -> Packing {
    let lines = item.0.0;
    let trailing = item.0.1;
    let cfg = item.1;
    if lines.len() > 1 {
        let out = if st.settled.len() > 0 {
            st.out.push(st.joined())
        } else {
            st.out
        };
        if trailing {
            Packing::flushed(out + lines, trailing)
        } else {
            Packing::seeded(out + lines.drop_last(), lines.last(), cfg.gap(), trailing)
        }
    } else {
        let text = concat_all(lines);
        if st.fits(text, max) {
            match cfg.is_break {
                Some(true) => Packing::flushed(st.out.push(st.merged(text)), trailing),
                Some(false) => if st.settled.len() == 0 {
                    Packing { settled: text, settled_gap: cfg.gap(), last_trailing: trailing, ..st }
                } else {
                    Packing {
                        provisional: st.tail_joined(text),
                        provisional_gap: cfg.gap(),
                        last_trailing: trailing,
                        ..st
                    }
                },
                None => Packing::seeded(st.out, st.merged(text), cfg.gap(), trailing),
            }
        } else if st.provisional.len() == 0 {
            Packing::seeded(st.out.push(st.settled), text, cfg.gap(), trailing)
        } else if prefer_settled_join(
            width(st.settled) + st.settled_gap + width(st.provisional),
            width(st.provisional) + st.provisional_gap + width(text),
            max,
        ) {
            Packing::seeded(st.out.push(st.joined()), text, cfg.gap(), trailing)
        } else {
            let out = if st.settled.len() > 0 {
                st.out.push(st.settled)
            } else {
                st.out
            };
            Packing::flushed(out.push(st.tail_joined(text)), trailing)
        }
    }
}

/// The state after the first `n` tokens of a column.
pub open spec fn pack(items: Seq<(Rendered, ColumnConfig)>, max: nat, n: nat) -> Packing
    decreases n,
{
    if n == 0 {
        Packing::start()
    } else {
        pack_step(pack(items, max, (n - 1) as nat), items[n - 1], max)
    }
}

/// A column from its rendered tokens. What is pending at the end goes out as
/// the last line. A trailing comment joins that line, the enclosing list's
/// joiner before it, or stands alone after it where the last token ended in
/// a comment of its own. Without a comment of its own the column reports
/// that of its last token, where that token stands on the last line.
pub open spec fn column_layout(
    fmt: CommentSpec,
    ctx: ContextView,
    before: Seq<Seq<char>>,
    items: Seq<(Rendered, ColumnConfig)>,
    after: Option<Seq<char>>,
) -> Rendered {
    let st = pack(items, ctx.len_max(), items.len());
    let body = before_lines(fmt, ctx, before) + st.out;
    let last = st.joined();
    match after {
        Some(c) => if st.last_trailing {
            (body.push(last).push(fmt.oneline_text(c)), true)
        } else {
            (body.push(commented(fmt, ctx, last, after)), true)
        },
        None => (body.push(last), st.last_trailing && last.len() > 0),
    }
}

/// The context under which element `i` of the `n` elements of a list is
/// rendered: the list's joiner is set for every element but the last. The
/// last gets none of the list; it ends the list, so the context of the list
/// holds for it: where the list is itself an element of a list that is not
/// the last, the joiner of that list.
pub open spec fn element_ctx(ctx: ContextView, join: Seq<char>, i: int, n: nat) -> ContextView {
    if i + 1 < n {
        ctx.with_join(Some(join))
    } else {
        ctx
    }
}

/// The context under which token `i` of the `n` tokens of a column is
/// rendered: no joiner but for the last, which ends the column, so that the
/// context of the column holds for it.
pub open spec fn token_ctx(ctx: ContextView, i: int, n: nat) -> ContextView {
    if i + 1 < n {
        ctx.with_join(None)
    } else {
        ctx
    }
}

/// Each child of a list with the joiner `join` rendered under `ctx`.
pub open spec fn render_children(
    fmt: CommentSpec,
    ctx: ContextView,
    join: Seq<char>,
    children: Seq<NodeView>,
) -> Seq<Rendered>
    decreases children, 0nat,
{
    Seq::new(
        children.len(),
        |i: int|
            if 0 <= i < children.len() {
                render(fmt, element_ctx(ctx, join, i, children.len()), children[i])
            } else {
                arbitrary()
            },
    )
}

/// Each token of a column under `ctx` rendered, with its directive.
pub open spec fn render_tokens(
    fmt: CommentSpec,
    ctx: ContextView,
    items: Seq<(NodeView, ColumnConfig)>,
) -> Seq<(Rendered, ColumnConfig)>
    decreases items, 0nat,
{
    Seq::new(
        items.len(),
        |i: int|
            if 0 <= i < items.len() {
                (render(fmt, token_ctx(ctx, i, items.len()), items[i].0), items[i].1)
            } else {
                arbitrary()
            },
    )
}

/// The lines of `node` under `ctx`, and whether it reports a comment at its
/// end.
///
/// A comment wrapper puts its comments around the lines of its content; its
/// trailing comment stands on a line of its own, the enclosing list's joiner
/// behind the line before it.
/// Text stands on one line, its trailing comment behind it. A bracketed
/// element collapses to one line where its content takes one line at most
/// and reports no comment; else the brackets stand alone around the content,
/// which is rendered one level deeper.
pub open spec fn render(fmt: CommentSpec, ctx: ContextView, node: NodeView) -> Rendered
    decreases node, 1nat,
{
    let head = before_lines(fmt, ctx, node.before_comments);
    match node.rule {
        RuleView::AST(inner) => {
            let r = render(fmt, ctx, *inner);
            match node.after_comment {
                Some(c) => ((head + closed_lines(ctx, r.0, r.1)).push(fmt.oneline_text(c)), true),
                None => (head + r.0, r.1),
            }
        },
        RuleView::Raw(s) => (
            head.push(commented(fmt, ctx, s, node.after_comment)),
            node.after_comment is Some,
        ),
        RuleView::Paren(open, content, close) => {
            let probe = render(fmt, ctx.with_join(None), *content);
            if probe.0.len() <= 1 && !probe.1 {
                (
                    head.push(
                        commented(fmt, ctx, open + concat_all(probe.0) + close, node.after_comment),
                    ),
                    node.after_comment is Some,
                )
            } else {
                let inner = render(fmt, ctx.deeper().with_join(None), *content);
                (
                    (head.push(open) + inner.0).push(
                        commented(fmt, ctx, close, node.after_comment),
                    ),
                    node.after_comment is Some,
                )
            }
        },
        RuleView::List(join, children) => list_layout(
            fmt,
            ctx,
            join,
            node.before_comments,
            children,
            render_children(fmt, ctx, join, children),
            render_children(fmt, ctx.deeper(), join, children),
            node.after_comment,
        ),
        RuleView::Column(items) => column_layout(
            fmt,
            ctx,
            node.before_comments,
            render_tokens(fmt, ctx, items),
            node.after_comment,
        ),
    }
}

/// Renders the comments that stand before a rule; `None` where there are none.
pub fn before_comments_format<F: Fn(String) -> String, G: Fn(Layout, Vec<String>) -> Vec<String>>(
    ctx: &Context<F, G>,
    comments: &Vec<String>,
) -> (r: Option<Vec<String>>)
    requires
        ctx.wf(),
    ensures
        match r {
            Some(v) => comments@.len() > 0 && lines_view(v@) == before_lines(
                ctx.comments(),
                ctx@,
                lines_view(comments@),
            ),
            None => comments@.len() == 0,
        },
{
    if comments.len() == 0 {
        None
    } else if comments.len() == 1 {
        let c = ctx.oneline(comments[0].clone());
        let mut v: Vec<String> = Vec::new();
        assert(lines_view(v@) =~= Seq::empty());
        push_line(&mut v, c);
        assert(lines_view(v@) =~= seq![c@]);
        Some(v)
    } else {
        Some(ctx.block(clone_lines(comments)))
    }
}

/// The lines that open a rendering: the comments before the rule.
fn leading<F: Fn(String) -> String, G: Fn(Layout, Vec<String>) -> Vec<String>>(
    ctx: &Context<F, G>,
    comments: &Vec<String>,
) -> (v: Vec<String>)
    requires
        ctx.wf(),
    ensures
        lines_view(v@) == before_lines(ctx.comments(), ctx@, lines_view(comments@)),
{
    match before_comments_format(ctx, comments) {
        Some(v) => v,
        None => {
            let v: Vec<String> = Vec::new();
            assert(lines_view(v@) =~= Seq::empty());
            v
        },
    }
}

/// `body` with the trailing comment, if any, behind it on the same line.
fn with_trailing<F: Fn(String) -> String, G: Fn(Layout, Vec<String>) -> Vec<String>>(
    ctx: &Context<F, G>,
    body: String,
    after: &Option<String>,
) -> (r: String)
    requires
        ctx.wf(),
    ensures
        r@ == commented(ctx.comments(), ctx@, body@, opt_text(*after)),
{
    match after {
        Some(c) => {
            let comment = ctx.oneline(c.clone());
            let joined = match &ctx.list_join_str {
                Some(j) => glued(body.as_str(), j.as_str()),
                None => {
                    assert(body@ + Seq::<char>::empty() =~= body@);
                    body
                },
            };
            proof {
                reveal_strlit(" ");
                assert(" "@ =~= seq![' ']);
            }
            let spaced = glued(joined.as_str(), " ");
            glued(spaced.as_str(), comment.as_str())
        },
        None => body,
    }
}

/// The lines of a part, made ready for a comment of the whole on a line of
/// its own: the enclosing list's joiner goes behind the last of them, unless
/// the part reports a comment.
fn close_lines<F: Fn(String) -> String, G: Fn(Layout, Vec<String>) -> Vec<String>>(
    ctx: &Context<F, G>,
    lines: Vec<String>,
    reported: bool,
) -> (r: Vec<String>)
    ensures
        lines_view(r@) == closed_lines(ctx@, lines_view(lines@), reported),
{
    if reported {
        return lines;
    }
    let ghost all = lines_view(lines@);
    let mut lines = lines;
    match &ctx.list_join_str {
        Some(j) => {
            match lines.pop() {
                Some(last) => {
                    assert(lines_view(lines@) =~= all.drop_last());
                    assert(last@ == all.last());
                    let line = glued(last.as_str(), j.as_str());
                    push_line(&mut lines, line);
                },
                None => {},
            }
        },
        None => {
            proof {
                if all.len() > 0 {
                    assert(all.last() + Seq::<char>::empty() =~= all.last());
                    assert(all.drop_last().push(all.last()) =~= all);
                }
            }
        },
    }
    lines
}

/// Renders `rule_with_comment` under `ctx`: its lines, and whether it
/// reports a comment at its end.
pub fn code_format<F: Fn(String) -> String, G: Fn(Layout, Vec<String>) -> Vec<String>>(
    ctx: &Context<F, G>,
    rule_with_comment: &RuleWithComment,
) -> (r: (Vec<String>, bool))
    requires
        ctx.wf(),
    ensures
        (lines_view(r.0@), r.1) == render(ctx.comments(), ctx@, rule_with_comment@),
    decreases rule_with_comment,
{
    match &rule_with_comment.rule {
        Rule::AST(ast) => {
            let mut v = leading(ctx, &rule_with_comment.before_comments);
            let (inner, trailing) = code_format(ctx, ast);
            match &rule_with_comment.after_comment {
                Some(c) => {
                    let comment = ctx.oneline(c.clone());
                    append_lines(&mut v, close_lines(ctx, inner, trailing));
                    push_line(&mut v, comment);
                    (v, true)
                },
                None => {
                    append_lines(&mut v, inner);
                    (v, trailing)
                },
            }
        },
        Rule::Raw(s) => {
            let mut v = leading(ctx, &rule_with_comment.before_comments);
            let line = with_trailing(ctx, s.clone(), &rule_with_comment.after_comment);
            push_line(&mut v, line);
            (v, rule_with_comment.after_comment.is_some())
        },
        Rule::Paren(open, content, close) => {
            let probe_ctx = ctx.set_list_join_str(None);
            let (probe, probe_trailing) = code_format(&probe_ctx, content);
            let mut v = leading(ctx, &rule_with_comment.before_comments);
            if probe.len() <= 1 && !probe_trailing {
                let inner = concat_lines(&probe);
                let opened = glued(open.as_str(), inner.as_str());
                let body = glued(opened.as_str(), close.as_str());
                let line = with_trailing(ctx, body, &rule_with_comment.after_comment);
                push_line(&mut v, line);
            } else {
                let deep_ctx = ctx.increment_depth().set_list_join_str(None);
                let (inner, _) = code_format(&deep_ctx, content);
                push_line(&mut v, open.clone());
                append_lines(&mut v, inner);
                let line = with_trailing(ctx, close.clone(), &rule_with_comment.after_comment);
                push_line(&mut v, line);
            }
            (v, rule_with_comment.after_comment.is_some())
        },
        Rule::List(join, lst) => break_token_list(
            ctx,
            join,
            &rule_with_comment.before_comments,
            lst,
            &rule_with_comment.after_comment,
        ),
        Rule::Column(lst) => break_token_column(
            ctx,
            &rule_with_comment.before_comments,
            lst,
            &rule_with_comment.after_comment,
        ),
    }
}

/// Renders a list: on one line where its children allow it and it is
/// narrower than the width that is left, else one child after the other,
/// each one level deeper.
pub fn break_token_list<F: Fn(String) -> String, G: Fn(Layout, Vec<String>) -> Vec<String>>(
    ctx: &Context<F, G>,
    join: &String,
    before_comments: &Vec<String>,
    lst: &Vec<RuleWithComment>,
    after_comment_opt: &Option<String>,
) -> (r: (Vec<String>, bool))
    requires
        ctx.wf(),
    ensures
        (lines_view(r.0@), r.1) == list_layout(
            ctx.comments(),
            ctx@,
            join@,
            lines_view(before_comments@),
            nodes_view(lst@),
            render_children(ctx.comments(), ctx@, join@, nodes_view(lst@)),
            render_children(ctx.comments(), ctx@.deeper(), join@, nodes_view(lst@)),
            opt_text(*after_comment_opt),
        ),
    decreases lst,
{
    let ghost fmt = ctx.comments();
    let ghost children = nodes_view(lst@);
    let ghost probe = render_children(fmt, ctx@, join@, children);
    let ghost deep = render_children(fmt, ctx@.deeper(), join@, children);
    let n = lst.len();
    let probe_ctx = ctx.set_list_join_str(Some(join.clone()));
    let mut forced = false;
    let mut last_trailing = false;
    let mut texts: Vec<String> = Vec::new();
    let mut i: usize = 0;
    while i < n
        invariant
            i <= n,
            n == lst.len(),
            fmt == ctx.comments(),
            children == nodes_view(lst@),
            probe == render_children(fmt, ctx@, join@, children),
            probe_ctx@ == ctx@.with_join(Some(join@)),
            probe_ctx.comments() == ctx.comments(),
            probe_ctx.wf(),
            ctx.wf(),
            texts@.len() == i,
            forall|k: int| 0 <= k < i ==> texts@[k]@ == concat_all(probe[k].0),
            forced == (exists|k: int| 0 <= k < i && child_forces_break(children, probe, k)),
            last_trailing == (i > 0 && probe[i - 1].1),
        decreases n - i,
    {
        let (lines, trailing) = if i + 1 < n {
            code_format(&probe_ctx, &lst[i])
        } else {
            code_format(ctx, &lst[i])
        };
        assert(children[i as int] == lst@[i as int]@);
        assert((lines_view(lines@), trailing) == probe[i as int]);
        let breaks = lst[i].before_comments.len() > 0 || (i < n - 1 && trailing) || lines.len()
            > 1;
        assert(breaks == child_forces_break(children, probe, i as int));
        if breaks {
            forced = true;
        }
        let text = concat_lines(&lines);
        texts.push(text);
        last_trailing = trailing;
        i = i + 1;
    }
    assert(lines_view(texts@) =~= child_texts(probe));
    let mut v = leading(ctx, before_comments);
    if !forced {
        let sep = glued(join.as_str(), " ");
        proof {
            reveal_strlit(" ");
            assert(" "@ =~= seq![' ']);
        }
        let one = join_lines(&texts, sep.as_str());
        if text_width(one.as_str()) < ctx.len_max() {
            match after_comment_opt {
                Some(c) => {
                    let line = if last_trailing {
                        let comment = ctx.oneline(c.clone());
                        let spaced = glued(one.as_str(), " ");
                        glued(spaced.as_str(), comment.as_str())
                    } else {
                        with_trailing(ctx, one, after_comment_opt)
                    };
                    push_line(&mut v, line);
                    return (v, true);
                },
                None => {
                    push_line(&mut v, one);
                    return (v, last_trailing);
                },
            }
        }
    }
    let deep_ctx = ctx.increment_depth().set_list_join_str(Some(join.clone()));
    let deep_last_ctx = ctx.increment_depth();
    let tab = ctx.indent();
    let mut body: Vec<String> = Vec::new();
    let mut reported = false;
    assert(lines_view(body@) =~= Seq::empty());
    let mut i: usize = 0;
    while i < n
        invariant
            i <= n,
            n == lst.len(),
            fmt == ctx.comments(),
            children == nodes_view(lst@),
            deep == render_children(fmt, ctx@.deeper(), join@, children),
            deep_ctx@ == ctx@.deeper().with_join(Some(join@)),
            deep_ctx.comments() == ctx.comments(),
            deep_ctx.wf(),
            deep_last_ctx@ == ctx@.deeper(),
            deep_last_ctx.comments() == ctx.comments(),
            deep_last_ctx.wf(),
            tab@ == ctx@.indent(),
            lines_view(body@) == list_body(deep, tab@, join@, i as nat),
            reported == (i > 0 && deep[i - 1].1),
        decreases n - i,
    {
        let (lines, trailing) = if i + 1 < n {
            code_format(&deep_ctx, &lst[i])
        } else {
            code_format(&deep_last_ctx, &lst[i])
        };
        assert(children[i as int] == lst@[i as int]@);
        assert((lines_view(lines@), trailing) == deep[i as int]);
        let is_last = i + 1 == n;
        let ghost item = decorate(deep[i as int], tab@, join@, is_last);
        let ghost base = lines_view(body@);
        let m = lines.len();
        let mut k: usize = 0;
        while k < m
            invariant
                k <= m,
                m == lines.len(),
                (lines_view(lines@), trailing) == deep[i as int],
                item == decorate(deep[i as int], tab@, join@, is_last),
                lines_view(body@) == base + item.take(k as int),
            decreases m - k,
        {
            let indented = glued(tab.as_str(), lines[k].as_str());
            let line = if !is_last && k + 1 == m && !trailing {
                glued(indented.as_str(), join.as_str())
            } else {
                indented
            };
            assert(lines_view(lines@)[k as int] == lines@[k as int]@);
            assert(line@ == item[k as int]);
            push_line(&mut body, line);
            assert(item.take(k + 1) =~= item.take(k as int).push(item[k as int]));
            assert(base + item.take(k + 1) =~= (base + item.take(k as int)).push(item[k as int]));
            k = k + 1;
        }
        assert(item.take(m as int) =~= item);
        assert(base + item.take(m as int) =~= base + item);
        reported = trailing;
        i = i + 1;
    }
    assert(deep.len() == n);
    match after_comment_opt {
        Some(c) => {
            let comment = ctx.oneline(c.clone());
            append_lines(&mut v, close_lines(ctx, body, reported));
            push_line(&mut v, comment);
            (v, true)
        },
        None => {
            append_lines(&mut v, body);
            (v, reported)
        },
    }
}

/// Whether five lengths together stay within `max`.
fn within(a: usize, b: usize, c: usize, d: usize, e: usize, max: usize) -> (r: bool)
    ensures
        r == (a + b + c + d + e <= max),
{
    let total: u128 = a as u128 + b as u128 + c as u128 + d as u128 + e as u128;
    total <= max as u128
}

/// Two buffers of a column as one line.
fn join_buffers(settled: &String, gap: usize, provisional: &String) -> (r: String)
    ensures
        r@ == join_two(settled@, gap as nat, provisional@),
{
    if provisional.as_str().is_empty() {
        settled.clone()
    } else if settled.as_str().is_empty() {
        provisional.clone()
    } else {
        let gap_text = spaces(gap);
        let head = glued(settled.as_str(), gap_text.as_str());
        glued(head.as_str(), provisional.as_str())
    }
}

/// `text` with `gap` blanks behind it; nothing for an empty `text`.
fn with_gap(text: &String, gap: usize) -> (r: String)
    ensures
        r@ == gapped(text@, gap as nat),
{
    if text.as_str().is_empty() {
        String::new()
    } else {
        let gap_text = spaces(gap);
        glued(text.as_str(), gap_text.as_str())
    }
}

/// The provisional buffer of a column and `text` as one line.
fn join_tail(provisional: &String, gap: usize, text: String) -> (r: String)
    ensures
        r@ == if provisional@.len() == 0 {
            text@
        } else {
            provisional@ + blanks(gap as nat) + text@
        },
{
    if provisional.as_str().is_empty() {
        text
    } else {
        let gap_text = spaces(gap);
        let head = glued(provisional.as_str(), gap_text.as_str());
        glued(head.as_str(), text.as_str())
    }
}

/// Both buffers of a column and `text` as one line.
fn merge_buffers(
    settled: &String,
    gap1: usize,
    provisional: &String,
    gap2: usize,
    text: &String,
) -> (r: String)
    ensures
        r@ == gapped(settled@, gap1 as nat) + gapped(provisional@, gap2 as nat) + text@,
{
    let a = with_gap(settled, gap1);
    let b = with_gap(provisional, gap2);
    let ab = glued(a.as_str(), b.as_str());
    glued(ab.as_str(), text.as_str())
}

/// Whether the line is closed after the provisional buffer rather than
/// before it.
fn settled_join_preferred(
    w1: usize,
    gap1: usize,
    w2: usize,
    gap2: usize,
    wt: usize,
    max: usize,
) -> (r: bool)
    ensures
        r == prefer_settled_join((w1 + gap1 + w2) as nat, (w2 + gap2 + wt) as nat, max as nat),
{
    let a: u128 = w1 as u128 + gap1 as u128 + w2 as u128;
    let b: u128 = w2 as u128 + gap2 as u128 + wt as u128;
    let m: u128 = max as u128;
    if a <= m && b <= m {
        a >= b
    } else if a <= m {
        true
    } else if b <= m {
        false
    } else {
        a <= b
    }
}

/// Packs the tokens of a column onto lines, greedily and from the left.
pub fn break_token_column<F: Fn(String) -> String, G: Fn(Layout, Vec<String>) -> Vec<String>>(
    ctx: &Context<F, G>,
    before_comments: &Vec<String>,
    lst: &Vec<(RuleWithComment, ColumnConfig)>,
    after_comment_opt: &Option<String>,
) -> (r: (Vec<String>, bool))
    requires
        ctx.wf(),
    ensures
        (lines_view(r.0@), r.1) == column_layout(
            ctx.comments(),
            ctx@,
            lines_view(before_comments@),
            render_tokens(ctx.comments(), ctx@, column_view(lst@)),
            opt_text(*after_comment_opt),
        ),
    decreases lst,
{
    let ghost fmt = ctx.comments();
    let ghost items = render_tokens(fmt, ctx@, column_view(lst@));
    let max = ctx.len_max();
    let inner_ctx = ctx.set_list_join_str(None);
    let mut v = leading(ctx, before_comments);
    let ghost head = lines_view(v@);
    let mut buf1 = String::new();
    let mut gap1: usize = 0;
    let mut buf2 = String::new();
    let mut gap2: usize = 0;
    let mut last_trailing = false;
    let n = lst.len();
    let mut i: usize = 0;
    assert(head + Packing::start().out =~= head);
    while i < n
        invariant
            i <= n,
            n == lst.len(),
            fmt == ctx.comments(),
            max == ctx@.len_max(),
            items == render_tokens(fmt, ctx@, column_view(lst@)),
            ctx.wf(),
            inner_ctx@ == ctx@.with_join(None),
            inner_ctx.comments() == ctx.comments(),
            inner_ctx.wf(),
            lines_view(v@) == head + pack(items, max as nat, i as nat).out,
            buf1@ == pack(items, max as nat, i as nat).settled,
            gap1 == pack(items, max as nat, i as nat).settled_gap,
            buf2@ == pack(items, max as nat, i as nat).provisional,
            gap2 == pack(items, max as nat, i as nat).provisional_gap,
            last_trailing == pack(items, max as nat, i as nat).last_trailing,
        decreases n - i,
    {
        let ghost st = pack(items, max as nat, i as nat);
        let (lines, trailing) = if i + 1 < n {
            code_format(&inner_ctx, &lst[i].0)
        } else {
            code_format(ctx, &lst[i].0)
        };
        let cfg = lst[i].1;
        assert(column_view(lst@)[i as int] == (lst@[i as int].0@, lst@[i as int].1));
        assert(items[i as int] == ((lines_view(lines@), trailing), cfg));
        let ghost next = pack_step(st, items[i as int], max as nat);
        assert(pack(items, max as nat, (i + 1) as nat) == next);
        let gap = cfg.space_after();
        if lines.len() > 1 {
            if !buf1.as_str().is_empty() {
                let line = join_buffers(&buf1, gap1, &buf2);
                push_line(&mut v, line);
            }
            let ghost out = lines_view(v@);
            if trailing {
                append_lines(&mut v, lines);
                buf1 = String::new();
                gap1 = 0;
            } else {
                let mut lines = lines;
                let ghost all = lines_view(lines@);
                let last = lines.pop();
                assert(lines_view(lines@) =~= all.drop_last());
                append_lines(&mut v, lines);
                match last {
                    Some(l) => {
                        assert(l@ == all.last());
                        buf1 = l;
                    },
                    None => {
                        buf1 = String::new();
                    },
                }
                gap1 = gap;
            }
            buf2 = String::new();
            gap2 = 0;
            assert(lines_view(v@) =~= head + next.out);
        } else {
            let text = concat_lines(&lines);
            let w1 = text_width(buf1.as_str());
            let w2 = text_width(buf2.as_str());
            let wt = text_width(text.as_str());
            if within(w1, gap1, w2, gap2, wt, max) {
                match cfg.is_break {
                    Some(true) => {
                        let line = merge_buffers(&buf1, gap1, &buf2, gap2, &text);
                        push_line(&mut v, line);
                        buf1 = String::new();
                        gap1 = 0;
                        buf2 = String::new();
                        gap2 = 0;
                    },
                    Some(false) => {
                        if buf1.as_str().is_empty() {
                            buf1 = text;
                            gap1 = gap;
                        } else {
                            buf2 = join_tail(&buf2, gap2, text);
                            gap2 = gap;
                        }
                    },
                    None => {
                        buf1 = merge_buffers(&buf1, gap1, &buf2, gap2, &text);
                        gap1 = gap;
                        buf2 = String::new();
                        gap2 = 0;
                    },
                }
            } else if buf2.as_str().is_empty() {
                push_line(&mut v, buf1);
                buf1 = text;
                gap1 = gap;
                buf2 = String::new();
                gap2 = 0;
            } else if settled_join_preferred(w1, gap1, w2, gap2, wt, max) {
                let line = join_buffers(&buf1, gap1, &buf2);
                push_line(&mut v, line);
                buf1 = text;
                gap1 = gap;
                buf2 = String::new();
                gap2 = 0;
            } else {
                if !buf1.as_str().is_empty() {
                    push_line(&mut v, buf1);
                }
                let line = join_tail(&buf2, gap2, text);
                push_line(&mut v, line);
                buf1 = String::new();
                gap1 = 0;
                buf2 = String::new();
                gap2 = 0;
            }
            assert(lines_view(v@) =~= head + next.out);
        }
        last_trailing = trailing;
        i = i + 1;
    }
    assert(items.len() == n);
    let ghost st = pack(items, max as nat, n as nat);
    let last = join_buffers(&buf1, gap1, &buf2);
    match after_comment_opt {
        Some(c) => {
            let comment = ctx.oneline(c.clone());
            if last_trailing {
                push_line(&mut v, last);
                push_line(&mut v, comment);
            } else {
                let line = with_trailing(ctx, last, after_comment_opt);
                push_line(&mut v, line);
            }
            (v, true)
        },
        None => {
            let reported = last_trailing && !last.as_str().is_empty();
            push_line(&mut v, last);
            (v, reported)
        },
    }
}

} // verus!
