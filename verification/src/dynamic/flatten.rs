//! Flattening: from a tree to its pre-order token sequence and the bodies of
//! its tagged parts.

use vstd::prelude::*;
use vstd::hash_map::StringHashMap;
use crate::dynamic::tokens::{
    append_tokens, empty_store, merge_hash_map, push_token, store_body,
};
use crate::dynamic::{
    column_view, nodes_view, store_view, tokens_view, CloseRule, CloseRuleView, InternalRule,
    ListedRule, ListedRuleView, NodeView, OpenRule, OpenRuleView, Rule, RuleView, Store, Tag,
};
use crate::text::{clone_lines, clone_opt, opt_text};
use crate::ColumnConfig;

verus! {

/// A flattened rule: its tokens, and the bodies it lifted out by tag.
pub type Flat = (Seq<ListedRuleView>, Store);

/// `inner` between the brackets of a list element.
pub open spec fn in_contents(n: NodeView, inner: Seq<ListedRuleView>) -> Seq<ListedRuleView> {
    seq![ListedRuleView::Open(OpenRuleView::Contents(n.before_comments))] + inner
        + seq![ListedRuleView::Close(CloseRuleView::Contents(n.after_comment))]
}

/// `inner` between the brackets of a column token.
pub open spec fn in_column_contents(
    n: NodeView,
    config: ColumnConfig,
    inner: Seq<ListedRuleView>,
) -> Seq<ListedRuleView> {
    seq![ListedRuleView::Open(OpenRuleView::ColumnContents(config, n.before_comments))] + inner
        + seq![ListedRuleView::Close(CloseRuleView::ColumnContents(n.after_comment))]
}

/// The tokens of the first `n` elements of a list, each between its brackets.
pub open spec fn list_tokens(children: Seq<NodeView>, parts: Seq<Flat>, n: nat) -> Seq<
    ListedRuleView,
>
    decreases n,
{
    if n == 0 {
        Seq::empty()
    } else {
        list_tokens(children, parts, (n - 1) as nat) + in_contents(children[n - 1], parts[n - 1].0)
    }
}

/// The tokens of the first `n` tokens of a column, each between its brackets.
pub open spec fn column_tokens(
    items: Seq<(NodeView, ColumnConfig)>,
    parts: Seq<Flat>,
    n: nat,
) -> Seq<ListedRuleView>
    decreases n,
{
    if n == 0 {
        Seq::empty()
    } else {
        column_tokens(items, parts, (n - 1) as nat) + in_column_contents(
            items[n - 1].0,
            items[n - 1].1,
            parts[n - 1].0,
        )
    }
}

/// The bodies that the first `n` parts lifted out; a later part wins over an
/// earlier one.
pub open spec fn merged_store(parts: Seq<Flat>, n: nat) -> Store
    decreases n,
{
    if n == 0 {
        Map::empty()
    } else {
        merged_store(parts, (n - 1) as nat).union_prefer_right(parts[n - 1].1)
    }
}

/// A bracket pair around `body`. Without a tag the body stands between the
/// brackets; with one it goes into the store under the tag and the brackets
/// stand alone.
pub open spec fn bracketed(
    tag: Option<Seq<char>>,
    open: ListedRuleView,
    body: Seq<ListedRuleView>,
    close: ListedRuleView,
    store: Store,
) -> Flat {
    match tag {
        Some(t) => (seq![open, close], store.insert(t, body)),
        None => (seq![open] + body + seq![close], store),
    }
}

/// Each element's rule flattened.
pub open spec fn flatten_nodes(children: Seq<NodeView>) -> Seq<Flat>
    decreases children, 0nat,
{
    Seq::new(
        children.len(),
        |i: int|
            if 0 <= i < children.len() {
                flatten(children[i].rule)
            } else {
                arbitrary()
            },
    )
}

/// Each column token's rule flattened.
pub open spec fn flatten_column(items: Seq<(NodeView, ColumnConfig)>) -> Seq<Flat>
    decreases items, 0nat,
{
    Seq::new(
        items.len(),
        |i: int|
            if 0 <= i < items.len() {
                flatten(items[i].0.rule)
            } else {
                arbitrary()
            },
    )
}

/// The pre-order token sequence of `r`, and the bodies of its tagged parts.
pub open spec fn flatten(r: RuleView) -> Flat
    decreases r, 1nat,
{
    match r {
        RuleView::Unconfirmed(tag) => (seq![ListedRuleView::Unconfirmed(tag)], Map::empty()),
        RuleView::AST(n) => {
            let inner = flatten(n.rule);
            if n.before_comments.len() == 0 && n.after_comment is None {
                inner
            } else {
                (in_contents(*n, inner.0), inner.1)
            }
        },
        RuleView::Raw(s) => (seq![ListedRuleView::Raw(s)], Map::empty()),
        RuleView::List(tag, join, children) => {
            let parts = flatten_nodes(children);
            bracketed(
                tag,
                ListedRuleView::Open(OpenRuleView::List(tag, join)),
                list_tokens(children, parts, children.len()),
                ListedRuleView::Close(CloseRuleView::List),
                merged_store(parts, children.len()),
            )
        },
        RuleView::Paren(tag, open, content, close) => {
            let inner = flatten(content.rule);
            bracketed(
                tag,
                ListedRuleView::Open(OpenRuleView::Paren(tag, open, content.before_comments)),
                inner.0,
                ListedRuleView::Close(CloseRuleView::Paren(close, content.after_comment)),
                inner.1,
            )
        },
        RuleView::Column(tag, items) => {
            let parts = flatten_column(items);
            bracketed(
                tag,
                ListedRuleView::Open(OpenRuleView::Column(tag)),
                column_tokens(items, parts, items.len()),
                ListedRuleView::Close(CloseRuleView::Column),
                merged_store(parts, items.len()),
            )
        },
    }
}

/// Closes a bracket pair: `lst` holds the opening bracket; the body goes
/// behind it or, with a tag, into the store.
fn close_bracket(
    lst: &mut Vec<ListedRule>,
    store: &mut StringHashMap<InternalRule>,
    tag_opt: &Option<Tag>,
    body: Vec<ListedRule>,
    close: ListedRule,
)
    requires
        old(lst)@.len() == 1,
    ensures
        (tokens_view(final(lst)@), store_view(final(store)@)) == bracketed(
            opt_text(*tag_opt),
            old(lst)@[0]@,
            tokens_view(body@),
            close@,
            store_view(old(store)@),
        ),
{
    assert(tokens_view(lst@) =~= seq![lst@[0]@]);
    match tag_opt {
        Some(tag) => {
            store_body(store, tag, body);
        },
        None => {
            append_tokens(lst, body);
        },
    }
    push_token(lst, close);
    assert(tokens_view(lst@) =~= bracketed(
        opt_text(*tag_opt),
        old(lst)@[0]@,
        tokens_view(body@),
        close@,
        store_view(old(store)@),
    ).0);
}

/// Flattens `rule`: its pre-order token sequence, and the bodies of its
/// tagged parts by tag.
pub fn rule_to_listedrule(rule: &Rule) -> (r: (Vec<ListedRule>, StringHashMap<InternalRule>))
    ensures
        (tokens_view(r.0@), store_view(r.1@)) == flatten(rule@),
    decreases rule,
{
    let mut lst: Vec<ListedRule> = Vec::new();
    let mut base_hashmap = empty_store();
    assert(tokens_view(lst@) =~= Seq::empty());
    match rule {
        Rule::Unconfirmed(tag) => {
            push_token(&mut lst, ListedRule::Unconfirmed(tag.clone()));
            assert(tokens_view(lst@) =~= seq![ListedRuleView::Unconfirmed(tag@)]);
        },
        Rule::AST(rule_with_comment) => {
            let (rule_lst, new_tag_data) = rule_to_listedrule(&rule_with_comment.rule);
            if rule_with_comment.before_comments.len() == 0
                && rule_with_comment.after_comment.is_none() {
                return (rule_lst, new_tag_data);
            }
            push_token(
                &mut lst,
                ListedRule::Open(
                    OpenRule::Contents(clone_lines(&rule_with_comment.before_comments)),
                ),
            );
            append_tokens(&mut lst, rule_lst);
            push_token(
                &mut lst,
                ListedRule::Close(CloseRule::Contents(clone_opt(&rule_with_comment.after_comment))),
            );
            assert(tokens_view(lst@) =~= in_contents(
                rule_with_comment@,
                flatten(rule_with_comment.rule@).0,
            ));
            return (lst, new_tag_data);
        },
        Rule::Raw(s) => {
            push_token(&mut lst, ListedRule::Raw(s.clone()));
            assert(tokens_view(lst@) =~= seq![ListedRuleView::Raw(s@)]);
        },
        Rule::List(tag_opt, join, contents) => {
            let ghost children = nodes_view(contents@);
            let ghost parts = flatten_nodes(children);
            lst.push(ListedRule::Open(OpenRule::List(clone_opt(tag_opt), join.clone())));
            let mut tmp: Vec<ListedRule> = Vec::new();
            assert(tokens_view(tmp@) =~= Seq::empty());
            let mut i: usize = 0;
            while i < contents.len()
                invariant
                    i <= contents.len(),
                    *rule == Rule::List(*tag_opt, *join, *contents),
                    children == nodes_view(contents@),
                    parts == flatten_nodes(children),
                    tokens_view(tmp@) == list_tokens(children, parts, i as nat),
                    store_view(base_hashmap@) == merged_store(parts, i as nat),
                decreases contents.len() - i,
            {
                let content = &contents[i];
                assert(children[i as int] == content@);
                assert(decreases_to!(*contents => contents[i as int]));
                assert(decreases_to!(*rule => rule->List_2));
                let ghost before = tokens_view(tmp@);
                push_token(
                    &mut tmp,
                    ListedRule::Open(OpenRule::Contents(clone_lines(&content.before_comments))),
                );
                let (rule_lst, new_tag_data) = rule_to_listedrule(&content.rule);
                append_tokens(&mut tmp, rule_lst);
                push_token(
                    &mut tmp,
                    ListedRule::Close(CloseRule::Contents(clone_opt(&content.after_comment))),
                );
                merge_hash_map(&mut base_hashmap, new_tag_data);
                assert(tokens_view(tmp@) =~= before + in_contents(
                    children[i as int],
                    parts[i as int].0,
                ));
                i = i + 1;
            }
            close_bracket(
                &mut lst,
                &mut base_hashmap,
                tag_opt,
                tmp,
                ListedRule::Close(CloseRule::List),
            );
        },
        Rule::Paren(tag_opt, open_str, content, close_str) => {
            lst.push(
                ListedRule::Open(
                    OpenRule::Paren(
                        clone_opt(tag_opt),
                        open_str.clone(),
                        clone_lines(&content.before_comments),
                    ),
                ),
            );
            let (rule_lst, add_data) = rule_to_listedrule(&content.rule);
            assert(store_view(base_hashmap@).union_prefer_right(store_view(add_data@))
                =~= store_view(add_data@));
            merge_hash_map(&mut base_hashmap, add_data);
            close_bracket(
                &mut lst,
                &mut base_hashmap,
                tag_opt,
                rule_lst,
                ListedRule::Close(
                    CloseRule::Paren(close_str.clone(), clone_opt(&content.after_comment)),
                ),
            );
        },
        Rule::Column(tag_opt, contents) => {
            let ghost items = column_view(contents@);
            let ghost parts = flatten_column(items);
            lst.push(ListedRule::Open(OpenRule::Column(clone_opt(tag_opt))));
            let mut tmp: Vec<ListedRule> = Vec::new();
            assert(tokens_view(tmp@) =~= Seq::empty());
            let mut i: usize = 0;
            while i < contents.len()
                invariant
                    i <= contents.len(),
                    *rule == Rule::Column(*tag_opt, *contents),
                    items == column_view(contents@),
                    parts == flatten_column(items),
                    tokens_view(tmp@) == column_tokens(items, parts, i as nat),
                    store_view(base_hashmap@) == merged_store(parts, i as nat),
                decreases contents.len() - i,
            {
                let rule_with_comment = &contents[i].0;
                let config = contents[i].1;
                assert(items[i as int] == (rule_with_comment@, config));
                assert(decreases_to!(*contents => contents[i as int]));
                assert(decreases_to!(*rule => rule->Column_1));
                let ghost before = tokens_view(tmp@);
                push_token(
                    &mut tmp,
                    ListedRule::Open(
                        OpenRule::ColumnContents(
                            config,
                            clone_lines(&rule_with_comment.before_comments),
                        ),
                    ),
                );
                let (rule_lst, add_data) = rule_to_listedrule(&rule_with_comment.rule);
                append_tokens(&mut tmp, rule_lst);
                push_token(
                    &mut tmp,
                    ListedRule::Close(
                        CloseRule::ColumnContents(clone_opt(&rule_with_comment.after_comment)),
                    ),
                );
                merge_hash_map(&mut base_hashmap, add_data);
                assert(tokens_view(tmp@) =~= before + in_column_contents(
                    items[i as int].0,
                    items[i as int].1,
                    parts[i as int].0,
                ));
                i = i + 1;
            }
            close_bracket(
                &mut lst,
                &mut base_hashmap,
                tag_opt,
                tmp,
                ListedRule::Close(CloseRule::Column),
            );
        },
    }
    (lst, base_hashmap)
}

} // verus!
