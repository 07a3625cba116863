//! Copies of tokens, and the small steps by which token sequences and
//! stores are built.

use vstd::prelude::*;
use vstd::hash_map::StringHashMap;
use crate::dynamic::{
    store_view, tokens_view, CloseRule, InternalRule, ListedRule, ListedRuleView, OpenRule,
};
use crate::text::{clone_lines, clone_opt};

verus! {

/// The view of a sequence with one more token.
pub proof fn lemma_tokens_view_push(v: Seq<ListedRule>, t: ListedRule)
    ensures
        tokens_view(v.push(t)) == tokens_view(v).push(t@),
{
    assert(tokens_view(v.push(t)) =~= tokens_view(v).push(t@));
}

/// The view of two sequences, one after the other.
pub proof fn lemma_tokens_view_add(a: Seq<ListedRule>, b: Seq<ListedRule>)
    ensures
        tokens_view(a + b) == tokens_view(a) + tokens_view(b),
{
    assert(tokens_view(a + b) =~= tokens_view(a) + tokens_view(b));
}

/// The view of a map with one more body.
pub proof fn lemma_store_view_insert(m: Map<Seq<char>, InternalRule>, k: Seq<char>, v: InternalRule)
    ensures
        store_view(m.insert(k, v)) == store_view(m).insert(k, v@),
{
    assert(store_view(m.insert(k, v)) =~= store_view(m).insert(k, v@));
}

/// The view of two merged maps.
pub proof fn lemma_store_view_union(
    a: Map<Seq<char>, InternalRule>,
    b: Map<Seq<char>, InternalRule>,
)
    ensures
        store_view(a.union_prefer_right(b)) == store_view(a).union_prefer_right(store_view(b)),
{
    assert(store_view(a.union_prefer_right(b)) =~= store_view(a).union_prefer_right(
        store_view(b),
    ));
}

/// Appends `t` as a new last token.
pub(crate) fn push_token(v: &mut Vec<ListedRule>, t: ListedRule)
    ensures
        tokens_view(final(v)@) == tokens_view(old(v)@).push(t@),
{
    proof {
        lemma_tokens_view_push(v@, t);
    }
    v.push(t);
}

/// Appends all of `other` after the tokens of `v`.
pub(crate) fn append_tokens(v: &mut Vec<ListedRule>, other: Vec<ListedRule>)
    ensures
        tokens_view(final(v)@) == tokens_view(old(v)@) + tokens_view(other@),
{
    let mut other = other;
    proof {
        lemma_tokens_view_add(v@, other@);
    }
    v.append(&mut other);
}

/// An empty store.
pub fn empty_store() -> (m: StringHashMap<InternalRule>)
    ensures
        store_view(m@) == Map::<Seq<char>, Seq<ListedRuleView>>::empty(),
{
    let m = StringHashMap::new();
    assert(store_view(m@) =~= Map::<Seq<char>, Seq<ListedRuleView>>::empty());
    m
}

/// Puts every body of `add` into `base`; a body of `add` wins over one that
/// `base` holds under the same tag.
pub(crate) fn merge_hash_map(
    base: &mut StringHashMap<InternalRule>,
    add: StringHashMap<InternalRule>,
)
    ensures
        store_view(final(base)@) == store_view(old(base)@).union_prefer_right(store_view(add@)),
{
    proof {
        lemma_store_view_union(base@, add@);
    }
    base.union_prefer_right(add);
}

/// Puts `rules` into `store` under `tag`, in place of what was there.
pub(crate) fn store_body(
    store: &mut StringHashMap<InternalRule>,
    tag: &String,
    rules: Vec<ListedRule>,
)
    ensures
        store_view(final(store)@) == store_view(old(store)@).insert(tag@, tokens_view(rules@)),
{
    let body = InternalRule { rules };
    proof {
        lemma_store_view_insert(store@, tag@, body);
    }
    store.insert(tag.clone(), body);
}

/// A copy of an opening bracket.
pub fn clone_open(o: &OpenRule) -> (r: OpenRule)
    ensures
        r@ == o@,
{
    match o {
        OpenRule::Paren(tag, open, before) => OpenRule::Paren(
            clone_opt(tag),
            open.clone(),
            clone_lines(before),
        ),
        OpenRule::List(tag, join) => OpenRule::List(clone_opt(tag), join.clone()),
        OpenRule::Column(tag) => OpenRule::Column(clone_opt(tag)),
        OpenRule::ColumnContents(config, before) => OpenRule::ColumnContents(
            *config,
            clone_lines(before),
        ),
        OpenRule::Contents(before) => OpenRule::Contents(clone_lines(before)),
    }
}

/// A copy of a closing bracket.
pub fn clone_close(c: &CloseRule) -> (r: CloseRule)
    ensures
        r@ == c@,
{
    match c {
        CloseRule::Paren(close, after) => CloseRule::Paren(close.clone(), clone_opt(after)),
        CloseRule::List => CloseRule::List,
        CloseRule::Column => CloseRule::Column,
        CloseRule::ColumnContents(after) => CloseRule::ColumnContents(clone_opt(after)),
        CloseRule::Contents(after) => CloseRule::Contents(clone_opt(after)),
    }
}

/// A copy of a token.
pub fn clone_token(t: &ListedRule) -> (r: ListedRule)
    ensures
        r@ == t@,
{
    match t {
        ListedRule::Unconfirmed(tag) => ListedRule::Unconfirmed(tag.clone()),
        ListedRule::Link(tag) => ListedRule::Link(tag.clone()),
        ListedRule::Raw(s) => ListedRule::Raw(s.clone()),
        ListedRule::Open(o) => ListedRule::Open(clone_open(o)),
        ListedRule::Close(c) => ListedRule::Close(clone_close(c)),
    }
}

/// A copy of the tokens from position `from` up to position `to`.
pub fn clone_tokens(v: &[ListedRule], from: usize, to: usize) -> (r: Vec<ListedRule>)
    requires
        from <= to <= v@.len(),
    ensures
        tokens_view(r@) == tokens_view(v@).subrange(from as int, to as int),
{
    let mut r: Vec<ListedRule> = Vec::new();
    let mut i: usize = from;
    while i < to
        invariant
            from <= i <= to <= v@.len(),
            r@.len() == i - from,
            forall|k: int| 0 <= k < i - from ==> r@[k]@ == v@[from + k]@,
        decreases to - i,
    {
        r.push(clone_token(&v[i]));
        i = i + 1;
    }
    assert(tokens_view(r@) =~= tokens_view(v@).subrange(from as int, to as int));
    r
}

impl Clone for OpenRule {
    fn clone(&self) -> (c: Self)
        ensures
            c@ == self@,
    {
        clone_open(self)
    }
}

impl Clone for CloseRule {
    fn clone(&self) -> (c: Self)
        ensures
            c@ == self@,
    {
        clone_close(self)
    }
}

impl Clone for ListedRule {
    fn clone(&self) -> (c: Self)
        ensures
            c@ == self@,
    {
        clone_token(self)
    }
}

impl Clone for InternalRule {
    fn clone(&self) -> (c: Self)
        ensures
            c@ == self@,
    {
        let rules = clone_tokens(self.rules.as_slice(), 0, self.rules.len());
        assert(tokens_view(self.rules@).subrange(0, self.rules@.len() as int) =~= tokens_view(
            self.rules@,
        ));
        InternalRule { rules }
    }
}

} // verus!
