//! The incremental formatter: the lines of what a graph already settles.
//!
//! The body that is being processed, by default that under `root`, is taken
//! unit by unit from the front. A unit is
//! rendered once nothing in it can change any more: it holds no placeholder,
//! and every link in it leads to a body of which the same is true. The first
//! unit that is not settled stops the walk; it stays where it is with all
//! that follows it, for the next call.

use vstd::prelude::*;
use vstd::hash_map::StringHashMap;
use vstd::string::StringExecFns;
use crate::dynamic::graph::{lemma_store_view_len, reference, Data};
use crate::dynamic::inflate::{inflate, parse_listedrule};
use crate::dynamic::resolve::{flat, flat_listedrule};
use crate::dynamic::tokens::{clone_tokens, store_body};
use crate::dynamic::{
    store_view, tokens_view, InternalRule, ListedRule, ListedRuleView, NodeView, OpenRule, Rule,
    RuleView, RuleWithComment, Store,
};
use crate::text::{append_lines, clone_lines, clone_opt, lines_view};
use crate::tree::format::render;
use crate::{ColumnConfig, CommentSpec, Context, ContextView, Layout};

verus! {

/// Whether every element of `parts` is there.
pub open spec fn all_some<T>(parts: Seq<Option<T>>) -> bool {
    forall|i: int| 0 <= i < parts.len() ==> (#[trigger] parts[i]) is Some
}

/// The elements of `parts`.
pub open spec fn unwrap_all<T>(parts: Seq<Option<T>>) -> Seq<T> {
    Seq::new(parts.len(), |i: int| parts[i].unwrap())
}

/// Each element of a list as a static tree.
pub open spec fn static_nodes(children: Seq<NodeView>) -> Seq<Option<crate::tree::NodeView>>
    decreases children, 0nat,
{
    Seq::new(
        children.len(),
        |i: int|
            if 0 <= i < children.len() {
                static_node(children[i])
            } else {
                arbitrary()
            },
    )
}

/// Each token of a column as a static tree with its directive.
pub open spec fn static_tokens(items: Seq<(NodeView, ColumnConfig)>) -> Seq<
    Option<(crate::tree::NodeView, ColumnConfig)>,
>
    decreases items, 0nat,
{
    Seq::new(
        items.len(),
        |i: int|
            if 0 <= i < items.len() {
                match static_node(items[i].0) {
                    Some(n) => Some((n, items[i].1)),
                    None => None,
                }
            } else {
                arbitrary()
            },
    )
}

/// `r` as a rule of the static formatter: the same tree without its tags.
/// `None` where it holds a placeholder.
pub open spec fn static_rule(r: RuleView) -> Option<crate::tree::RuleView>
    decreases r, 1nat,
{
    match r {
        RuleView::Unconfirmed(_) => None,
        RuleView::AST(n) => match static_node(*n) {
            Some(inner) => Some(crate::tree::RuleView::AST(Box::new(inner))),
            None => None,
        },
        RuleView::Raw(s) => Some(crate::tree::RuleView::Raw(s)),
        RuleView::List(_, join, children) => {
            let parts = static_nodes(children);
            if all_some(parts) {
                Some(crate::tree::RuleView::List(join, unwrap_all(parts)))
            } else {
                None
            }
        },
        RuleView::Paren(_, open, content, close) => match static_node(*content) {
            Some(inner) => Some(crate::tree::RuleView::Paren(open, Box::new(inner), close)),
            None => None,
        },
        RuleView::Column(_, items) => {
            let parts = static_tokens(items);
            if all_some(parts) {
                Some(crate::tree::RuleView::Column(unwrap_all(parts)))
            } else {
                None
            }
        },
    }
}

/// `n` as a node of the static formatter; `None` where it holds a
/// placeholder.
pub open spec fn static_node(n: NodeView) -> Option<crate::tree::NodeView>
    decreases n, 2nat,
{
    match static_rule(n.rule) {
        Some(rule) => Some(
            crate::tree::NodeView {
                before_comments: n.before_comments,
                rule,
                after_comment: n.after_comment,
            },
        ),
        None => None,
    }
}

/// The position behind the unit that is open at `pos` with `depth` brackets
/// around `pos`: behind the token itself where it is no bracket and nothing
/// is open, else behind the bracket that closes the outermost open one.
/// `None` where the tokens end before that, or a bracket closes nothing.
pub open spec fn unit_end_from(tokens: Seq<ListedRuleView>, pos: nat, depth: nat) -> Option<nat>
    decreases tokens.len() - pos,
{
    if pos >= tokens.len() {
        None
    } else {
        match tokens[pos as int] {
            ListedRuleView::Open(_) => unit_end_from(tokens, pos + 1, depth + 1),
            ListedRuleView::Close(_) => if depth == 0 {
                None
            } else if depth == 1 {
                Some(pos + 1)
            } else {
                unit_end_from(tokens, pos + 1, (depth - 1) as nat)
            },
            _ => if depth == 0 {
                Some(pos + 1)
            } else {
                unit_end_from(tokens, pos + 1, depth)
            },
        }
    }
}

/// Whether nothing in the first `n` of `tokens` can change any more: none of
/// them is a placeholder, and every link leads, within `fuel` steps, to a
/// body of the store of which the same holds.
pub open spec fn settled(tokens: Seq<ListedRuleView>, store: Store, fuel: nat, n: nat) -> bool
    decreases fuel, n,
{
    if n == 0 {
        true
    } else {
        &&& settled(tokens, store, fuel, (n - 1) as nat)
        &&& match tokens[n - 1] {
            ListedRuleView::Link(tag) => store.contains_key(tag) && fuel > 0 && settled(
                store[tag],
                store,
                (fuel - 1) as nat,
                store[tag].len(),
            ),
            t => reference(t) is None,
        }
    }
}

/// The unit that starts at `start`, where it is settled and well-formed: its
/// static tree, and the position behind it.
pub open spec fn ready_unit(tokens: Seq<ListedRuleView>, store: Store, start: nat) -> Option<
    (crate::tree::NodeView, nat),
> {
    match unit_end_from(tokens, start, 0) {
        Some(end) => if start < end <= tokens.len() {
            let unit = tokens.subrange(start as int, end as int);
            let resolved = flat(unit, store, store.len());
            if settled(unit, store, store.len(), unit.len()) {
                match inflate(resolved, 0) {
                    Some(p) => if p.2 == resolved.len() {
                        match static_node(p.0) {
                            Some(n) => Some((n, end)),
                            None => None,
                        }
                    } else {
                        None
                    },
                    None => None,
                }
            } else {
                None
            }
        } else {
            None
        },
        None => None,
    }
}

/// The lines of the settled units from `start` on, and the position of the
/// first unit that is not settled.
pub open spec fn advance_from(
    fmt: CommentSpec,
    ctx: ContextView,
    tokens: Seq<ListedRuleView>,
    store: Store,
    start: nat,
) -> (Seq<Seq<char>>, nat)
    decreases tokens.len() - start,
{
    match ready_unit(tokens, store, start) {
        Some((n, end)) => {
            let rest = advance_from(fmt, ctx, tokens, store, end);
            (render(fmt, ctx, n).0 + rest.0, rest.1)
        },
        None => (Seq::empty(), start),
    }
}

/// One step of the incremental formatter on the body under `entry`: the
/// lines of the settled units at its front, and the graph with those units
/// taken off that body. A graph without `entry` yields nothing and stays as
/// it is.
pub open spec fn advance(fmt: CommentSpec, ctx: ContextView, store: Store, entry: Seq<char>) -> (
    Seq<Seq<char>>,
    Store,
) {
    if store.contains_key(entry) {
        let tokens = store[entry];
        let r = advance_from(fmt, ctx, tokens, store, 0);
        (r.0, store.insert(entry, tokens.subrange(r.1 as int, tokens.len() as int)))
    } else {
        (Seq::empty(), store)
    }
}

/// `r` as a rule of the static formatter; `None` where it holds a
/// placeholder.
pub fn to_static_rule(r: &Rule) -> (t: Option<crate::tree::Rule>)
    ensures
        match t {
            Some(rule) => static_rule(r@) == Some(rule@),
            None => static_rule(r@) is None,
        },
    decreases r, 1nat,
{
    match r {
        Rule::Unconfirmed(_) => None,
        Rule::AST(n) => match to_static_node(n) {
            Some(inner) => Some(crate::tree::Rule::AST(Box::new(inner))),
            None => None,
        },
        Rule::Raw(s) => Some(crate::tree::Rule::Raw(s.clone())),
        Rule::List(_, join, children) => {
            let ghost parts = static_nodes(crate::dynamic::nodes_view(children@));
            let mut v: Vec<crate::tree::RuleWithComment> = Vec::new();
            let mut i: usize = 0;
            while i < children.len()
                invariant
                    i <= children@.len(),
                    parts == static_nodes(crate::dynamic::nodes_view(children@)),
                    *r == Rule::List(r->List_0, *join, *children),
                    v@.len() == i,
                    forall|k: int| 0 <= k < i ==> parts[k] == Some(#[trigger] v@[k]@),
                decreases children@.len() - i,
            {
                assert(decreases_to!(*r => r->List_2));
                assert(decreases_to!(*children => children[i as int]));
                match to_static_node(&children[i]) {
                    Some(node) => {
                        v.push(node);
                    },
                    None => {
                        assert(parts[i as int] is None);
                        return None;
                    },
                }
                i = i + 1;
            }
            assert(all_some(parts)) by {
                assert forall|k: int| 0 <= k < parts.len() implies (#[trigger] parts[k])
                    is Some by {
                    assert(parts[k] == Some(v@[k]@));
                }
            }
            assert(parts.len() == children@.len());
            assert forall|k: int| 0 <= k < v@.len() implies crate::tree::nodes_view(v@)[k]
                == unwrap_all(parts)[k] by {
                assert(parts[k] == Some(v@[k]@));
            }
            assert(crate::tree::nodes_view(v@) =~= unwrap_all(parts));
            Some(crate::tree::Rule::List(join.clone(), v))
        },
        Rule::Paren(_, open, content, close) => match to_static_node(content) {
            Some(inner) => Some(
                crate::tree::Rule::Paren(open.clone(), Box::new(inner), close.clone()),
            ),
            None => None,
        },
        Rule::Column(_, items) => {
            let ghost parts = static_tokens(crate::dynamic::column_view(items@));
            let mut v: Vec<(crate::tree::RuleWithComment, ColumnConfig)> = Vec::new();
            let mut i: usize = 0;
            while i < items.len()
                invariant
                    i <= items@.len(),
                    parts == static_tokens(crate::dynamic::column_view(items@)),
                    *r == Rule::Column(r->Column_0, *items),
                    v@.len() == i,
                    forall|k: int|
                        0 <= k < i ==> parts[k] == Some(((#[trigger] v@[k]).0@, v@[k].1)),
                decreases items@.len() - i,
            {
                assert(decreases_to!(*r => r->Column_1));
                assert(decreases_to!(*items => items[i as int]));
                match to_static_node(&items[i].0) {
                    Some(node) => {
                        v.push((node, items[i].1));
                    },
                    None => {
                        assert(parts[i as int] is None);
                        return None;
                    },
                }
                i = i + 1;
            }
            assert(all_some(parts)) by {
                assert forall|k: int| 0 <= k < parts.len() implies (#[trigger] parts[k])
                    is Some by {
                    assert(parts[k] == Some((v@[k].0@, v@[k].1)));
                }
            }
            assert(parts.len() == items@.len());
            assert forall|k: int| 0 <= k < v@.len() implies crate::tree::column_view(v@)[k]
                == unwrap_all(parts)[k] by {
                assert(parts[k] == Some((v@[k].0@, v@[k].1)));
            }
            assert(crate::tree::column_view(v@) =~= unwrap_all(parts));
            Some(crate::tree::Rule::Column(v))
        },
    }
}

/// `n` as a node of the static formatter; `None` where it holds a
/// placeholder.
pub fn to_static_node(n: &RuleWithComment) -> (t: Option<crate::tree::RuleWithComment>)
    ensures
        match t {
            Some(node) => static_node(n@) == Some(node@),
            None => static_node(n@) is None,
        },
    decreases n, 2nat,
{
    match to_static_rule(&n.rule) {
        Some(rule) => Some(
            crate::tree::RuleWithComment {
                before_comments: clone_lines(&n.before_comments),
                rule,
                after_comment: clone_opt(&n.after_comment),
            },
        ),
        None => None,
    }
}

/// The position behind the unit that starts at `start`.
fn unit_end(tokens: &[ListedRule], start: usize) -> (r: Option<usize>)
    ensures
        match r {
            Some(end) => unit_end_from(tokens_view(tokens@), start as nat, 0) == Some(end as nat)
                && start < end <= tokens@.len(),
            None => unit_end_from(tokens_view(tokens@), start as nat, 0) is None,
        },
{
    let ghost all = tokens_view(tokens@);
    let mut pos = start;
    let mut depth: usize = 0;
    while pos < tokens.len()
        invariant
            start <= pos,
            depth <= pos - start,
            all == tokens_view(tokens@),
            unit_end_from(all, start as nat, 0) == unit_end_from(all, pos as nat, depth as nat),
        decreases tokens@.len() - pos,
    {
        assert(all[pos as int] == tokens@[pos as int]@);
        match &tokens[pos] {
            ListedRule::Open(_) => {
                depth = depth + 1;
            },
            ListedRule::Close(_) => {
                if depth == 0 {
                    return None;
                } else if depth == 1 {
                    return Some(pos + 1);
                } else {
                    depth = depth - 1;
                }
            },
            _ => {
                if depth == 0 {
                    return Some(pos + 1);
                }
            },
        }
        pos = pos + 1;
    }
    None
}

/// Whether nothing in `tokens` can change any more.
fn is_settled(tokens: &[ListedRule], tag_data: &StringHashMap<InternalRule>, fuel: usize) -> (r:
    bool)
    ensures
        r == settled(tokens_view(tokens@), store_view(tag_data@), fuel as nat, tokens@.len()),
    decreases fuel,
{
    let ghost all = tokens_view(tokens@);
    let ghost store = store_view(tag_data@);
    let mut i: usize = 0;
    while i < tokens.len()
        invariant
            i <= tokens@.len(),
            all == tokens_view(tokens@),
            store == store_view(tag_data@),
            settled(all, store, fuel as nat, i as nat),
        decreases tokens@.len() - i,
    {
        assert(all[i as int] == tokens@[i as int]@);
        let ok = match &tokens[i] {
            ListedRule::Link(tag) => {
                if fuel == 0 {
                    false
                } else {
                    match tag_data.get(tag.as_str()) {
                        Some(body) => is_settled(body.rules.as_slice(), tag_data, fuel - 1),
                        None => false,
                    }
                }
            },
            ListedRule::Unconfirmed(_) => false,
            ListedRule::Open(OpenRule::Paren(Some(_), _, _)) => false,
            ListedRule::Open(OpenRule::List(Some(_), _)) => false,
            ListedRule::Open(OpenRule::Column(Some(_))) => false,
            _ => true,
        };
        if !ok {
            proof {
                lemma_unsettled_stays(
                    all,
                    store,
                    fuel as nat,
                    (i + 1) as nat,
                    tokens@.len() as nat,
                );
            }
            return false;
        }
        i = i + 1;
    }
    true
}

/// Tokens that are not settled up to `n` are not settled up to any later
/// position.
pub proof fn lemma_unsettled_stays(
    tokens: Seq<ListedRuleView>,
    store: Store,
    fuel: nat,
    n: nat,
    m: nat,
)
    requires
        n <= m,
        !settled(tokens, store, fuel, n),
    ensures
        !settled(tokens, store, fuel, m),
    decreases m - n,
{
    if n < m {
        lemma_unsettled_stays(tokens, store, fuel, n, (m - 1) as nat);
    }
}

/// The static tree of the unit that starts at `start` and the position
/// behind it, where the unit is settled and well-formed.
fn take_unit(tokens: &[ListedRule], tag_data: &StringHashMap<InternalRule>, start: usize) -> (r:
    Option<(crate::tree::RuleWithComment, usize)>)
    ensures
        match r {
            Some(p) => ready_unit(tokens_view(tokens@), store_view(tag_data@), start as nat)
                == Some((p.0@, p.1 as nat)) && start < p.1 <= tokens@.len(),
            None => ready_unit(tokens_view(tokens@), store_view(tag_data@), start as nat) is None,
        },
{
    proof {
        lemma_store_view_len(tag_data@);
    }
    let end = match unit_end(tokens, start) {
        Some(end) => end,
        None => {
            return None;
        },
    };
    let unit = clone_tokens(tokens, start, end);
    if !is_settled(unit.as_slice(), tag_data, tag_data.len()) {
        return None;
    }
    let resolved = flat_listedrule(unit.as_slice(), tag_data);
    match parse_listedrule(resolved.as_slice(), 0) {
        Some((node, _, count)) => {
            if count != resolved.len() {
                return None;
            }
            match to_static_node(&node) {
                Some(tree) => Some((tree, end)),
                None => None,
            }
        },
        None => None,
    }
}

/// Renders what the graph settles: the lines of the settled units at the
/// front of the body that is being processed, which are then taken off that
/// body. What is not settled yet stays there for a later call; lines once
/// handed out are not made again. The body is that of `process_tag`, or of
/// `root` where none is chosen.
pub fn code_format<F: Fn(String) -> String, G: Fn(Layout, Vec<String>) -> Vec<String>>(
    ctx: &Context<F, G>,
    data: &mut Data,
) -> (v: Vec<String>)
    requires
        ctx.wf(),
    ensures
        (lines_view(v@), final(data)@) == advance(
            ctx.comments(),
            ctx@,
            old(data)@,
            old(data).entry_tag(),
        ),
        final(data).process_tag == old(data).process_tag,
{
    let mut v: Vec<String> = Vec::new();
    assert(lines_view(v@) =~= Seq::empty());
    let entry = match &data.process_tag {
        Some(tag) => tag.clone(),
        None => String::from_str("root"),
    };
    let rules = match data.tag_data.get(entry.as_str()) {
        Some(body) => clone_tokens(body.rules.as_slice(), 0, body.rules.len()),
        None => {
            return v;
        },
    };
    let ghost fmt = ctx.comments();
    let ghost store = data@;
    let ghost tokens = tokens_view(rules@);
    assert(tokens =~= store[entry@]);
    let mut count: usize = 0;
    let mut blocked = false;
    while count < rules.len() && !blocked
        invariant
            count <= rules@.len(),
            blocked ==> ready_unit(tokens, store, count as nat) is None,
            ctx.wf(),
            fmt == ctx.comments(),
            store == data@,
            tokens == tokens_view(rules@),
            advance_from(fmt, ctx@, tokens, store, 0) == (
                lines_view(v@) + advance_from(fmt, ctx@, tokens, store, count as nat).0,
                advance_from(fmt, ctx@, tokens, store, count as nat).1,
            ),
        decreases rules@.len() - count, (if blocked { 0int } else { 1int }),
    {
        match take_unit(rules.as_slice(), &data.tag_data, count) {
            Some((tree, end)) => {
                let ghost before = lines_view(v@);
                let ghost rest = advance_from(fmt, ctx@, tokens, store, end as nat);
                let (lines, _) = crate::tree::format::code_format(ctx, &tree);
                append_lines(&mut v, lines);
                assert(before + (render(fmt, ctx@, tree@).0 + rest.0) =~= lines_view(v@) + rest.0);
                count = end;
            },
            None => {
                blocked = true;
            },
        }
    }
    assert(ready_unit(tokens, store, count as nat) is None);
    assert(lines_view(v@) + Seq::<Seq<char>>::empty() =~= lines_view(v@));
    let rest = clone_tokens(rules.as_slice(), count, rules.len());
    store_body(&mut data.tag_data, &entry, rest);
    v
}

} // verus!
