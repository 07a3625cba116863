//! Resolving: every link and every tagged opening bracket gives way to the
//! body that the store holds under its tag.

use vstd::prelude::*;
use vstd::hash_map::StringHashMap;
use crate::dynamic::tokens::{append_tokens, clone_token, push_token};
use crate::dynamic::{
    store_view, tokens_view, InternalRule, ListedRule, ListedRuleView, OpenRule, OpenRuleView,
    Store,
};
use crate::text::clone_lines;

verus! {

/// The body that a reference to `tag` stands for: the de-referenced body of
/// the tag, or nothing where the store has no such tag or `fuel` is spent.
pub open spec fn flat_body(tag: Seq<char>, store: Store, fuel: nat) -> Seq<ListedRuleView>
    decreases fuel, 0nat,
{
    if store.contains_key(tag) && fuel > 0 {
        flat(store[tag], store, (fuel - 1) as nat)
    } else {
        Seq::empty()
    }
}

/// What one token becomes when references are resolved: a link becomes the
/// body of its tag, a tagged opening bracket the untagged bracket and then
/// the body; every other token stays.
pub open spec fn flat_token(t: ListedRuleView, store: Store, fuel: nat) -> Seq<ListedRuleView>
    decreases fuel, 1nat,
{
    match t {
        ListedRuleView::Link(tag) => flat_body(tag, store, fuel),
        ListedRuleView::Open(OpenRuleView::List(Some(tag), join)) => seq![
            ListedRuleView::Open(OpenRuleView::List(None, join)),
        ] + flat_body(tag, store, fuel),
        ListedRuleView::Open(OpenRuleView::Paren(Some(tag), open, before)) => seq![
            ListedRuleView::Open(OpenRuleView::Paren(None, open, before)),
        ] + flat_body(tag, store, fuel),
        ListedRuleView::Open(OpenRuleView::Column(Some(tag))) => seq![
            ListedRuleView::Open(OpenRuleView::Column(None)),
        ] + flat_body(tag, store, fuel),
        _ => seq![t],
    }
}

/// `tokens` with every reference resolved through `store`, to a nesting of
/// at most `fuel` references.
pub open spec fn flat(tokens: Seq<ListedRuleView>, store: Store, fuel: nat) -> Seq<ListedRuleView>
    decreases fuel, tokens.len() + 2,
{
    if tokens.len() == 0 {
        Seq::empty()
    } else {
        flat(tokens.drop_last(), store, fuel) + flat_token(tokens.last(), store, fuel)
    }
}

/// The de-referenced body of `tag`, as far as `fuel` reaches.
fn flat_tag(tag: &String, tag_data: &StringHashMap<InternalRule>, fuel: usize) -> (r: Vec<
    ListedRule,
>)
    ensures
        tokens_view(r@) == flat_body(tag@, store_view(tag_data@), fuel as nat),
    decreases fuel, 0nat,
{
    if fuel == 0 {
        let r: Vec<ListedRule> = Vec::new();
        assert(tokens_view(r@) =~= Seq::empty());
        return r;
    }
    match tag_data.get(tag.as_str()) {
        Some(internal_rule) => flat_with_fuel(internal_rule.rules.as_slice(), tag_data, fuel - 1),
        None => {
            let r: Vec<ListedRule> = Vec::new();
            assert(tokens_view(r@) =~= Seq::empty());
            r
        },
    }
}

/// `listed_rules` with every reference resolved, to a nesting of at most
/// `fuel` references.
fn flat_with_fuel(
    listed_rules: &[ListedRule],
    tag_data: &StringHashMap<InternalRule>,
    fuel: usize,
) -> (v: Vec<ListedRule>)
    ensures
        tokens_view(v@) == flat(tokens_view(listed_rules@), store_view(tag_data@), fuel as nat),
    decreases fuel, listed_rules@.len() + 2,
{
    let ghost tokens = tokens_view(listed_rules@);
    let ghost store = store_view(tag_data@);
    let mut v: Vec<ListedRule> = Vec::new();
    assert(tokens_view(v@) =~= Seq::empty());
    assert(tokens.take(0) =~= Seq::empty());
    let mut i: usize = 0;
    while i < listed_rules.len()
        invariant
            i <= listed_rules@.len(),
            tokens == tokens_view(listed_rules@),
            store == store_view(tag_data@),
            tokens_view(v@) == flat(tokens.take(i as int), store, fuel as nat),
        decreases listed_rules@.len() - i,
    {
        let listed_rule = &listed_rules[i];
        let ghost before = tokens_view(v@);
        assert(tokens.take(i + 1).drop_last() =~= tokens.take(i as int));
        assert(tokens.take(i + 1).last() == listed_rule@);
        match listed_rule {
            ListedRule::Link(tag) => {
                let children = flat_tag(tag, tag_data, fuel);
                append_tokens(&mut v, children);
            },
            ListedRule::Open(OpenRule::List(Some(tag), join)) => {
                push_token(&mut v, ListedRule::Open(OpenRule::List(None, join.clone())));
                let children = flat_tag(tag, tag_data, fuel);
                append_tokens(&mut v, children);
                assert(tokens_view(v@) =~= before + flat_token(listed_rule@, store, fuel as nat));
            },
            ListedRule::Open(OpenRule::Paren(Some(tag), open_str, comments)) => {
                push_token(
                    &mut v,
                    ListedRule::Open(
                        OpenRule::Paren(None, open_str.clone(), clone_lines(comments)),
                    ),
                );
                let children = flat_tag(tag, tag_data, fuel);
                append_tokens(&mut v, children);
                assert(tokens_view(v@) =~= before + flat_token(listed_rule@, store, fuel as nat));
            },
            ListedRule::Open(OpenRule::Column(Some(tag))) => {
                push_token(&mut v, ListedRule::Open(OpenRule::Column(None)));
                let children = flat_tag(tag, tag_data, fuel);
                append_tokens(&mut v, children);
                assert(tokens_view(v@) =~= before + flat_token(listed_rule@, store, fuel as nat));
            },
            _ => {
                push_token(&mut v, clone_token(listed_rule));
                assert(tokens_view(v@) =~= before + flat_token(listed_rule@, store, fuel as nat));
            },
        }
        i = i + 1;
    }
    assert(tokens.take(i as int) =~= tokens);
    v
}

/// Resolves every link and every tagged opening bracket of `listed_rules`
/// through `tag_data`, so that one self-contained sequence is left. The
/// nesting of references is followed as deep as `tag_data` has tags.
pub fn flat_listedrule(listed_rules: &[ListedRule], tag_data: &StringHashMap<InternalRule>) -> (v:
    Vec<ListedRule>)
    ensures
        tokens_view(v@) == flat(
            tokens_view(listed_rules@),
            store_view(tag_data@),
            tag_data@.len(),
        ),
{
    flat_with_fuel(listed_rules, tag_data, tag_data.len())
}

} // verus!
