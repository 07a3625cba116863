//! The graph itself: bodies by tag, with the document's entry under `root`.

use vstd::prelude::*;
use vstd::hash_map::StringHashMap;
use vstd::string::StringExecFns;
use crate::dynamic::flatten::{flatten, rule_to_listedrule};
use crate::dynamic::format::advance;
use crate::dynamic::inflate::{inflate, parse_listedrule};
use crate::dynamic::resolve::{flat, flat_listedrule};
use crate::dynamic::tokens::{
    clone_token, clone_tokens, merge_hash_map, push_token, store_body,
};
use crate::dynamic::{
    store_view, tokens_view, InternalRule, ListedRule, ListedRuleView, NodeView, OpenRule,
    OpenRuleView, Rule, RuleWithComment, Store, Tag,
};
use crate::text::{clone_lines, lines_view};
use crate::{Context, Layout};

verus! {

/// The tag under which a graph holds the document's entry.
pub open spec fn root_tag() -> Seq<char> {
    "root"@
}

/// A document as bodies by tag. The body under `root` is where every walk
/// starts; the other bodies are reached from it through references.
pub struct Data {
    /// The bodies by tag.
    pub tag_data: StringHashMap<InternalRule>,
    /// The tag whose body the incremental formatter works on; `root` where
    /// none is chosen.
    pub process_tag: Option<Tag>,
}

impl View for Data {
    type V = Store;

    open spec fn view(&self) -> Store {
        store_view(self.tag_data@)
    }
}

impl Data {
    /// The tag whose body the incremental formatter works on.
    pub open spec fn entry_tag(self) -> Seq<char> {
        match self.process_tag {
            Some(tag) => tag@,
            None => root_tag(),
        }
    }
}

/// The store after the flattened rule `part` is put under `tag`: the bodies
/// that the rule lifted out win over those of the same tag in `store`, and
/// the tokens of the rule stand under `tag`.
pub open spec fn with_body(
    store: Store,
    tag: Seq<char>,
    part: (Seq<ListedRuleView>, Store),
) -> Store {
    store.union_prefer_right(part.1).insert(tag, part.0)
}

/// Whether a placeholder is left among `tokens`.
pub open spec fn pending(tokens: Seq<ListedRuleView>) -> bool {
    exists|i: int| 0 <= i < tokens.len() && (#[trigger] tokens[i]) is Unconfirmed
}

/// The tree under `tag`: its body with every reference resolved and then
/// inflated. `None`, for no result yet, where the store has no such tag or a
/// placeholder is left in the resolved body; `None` as well where that body
/// is not exactly one well-formed unit, or the unit is a column token.
pub open spec fn resolve(store: Store, tag: Seq<char>) -> Option<NodeView> {
    if !store.contains_key(tag) {
        None
    } else {
        let tokens = flat(store[tag], store, store.len());
        if pending(tokens) {
            None
        } else {
            match inflate(tokens, 0) {
                Some(p) => if p.2 == tokens.len() && p.1 is None {
                    Some(p.0)
                } else {
                    None
                },
                None => None,
            }
        }
    }
}

/// The tag that a token refers to.
pub open spec fn reference(t: ListedRuleView) -> Option<Seq<char>> {
    match t {
        ListedRuleView::Unconfirmed(tag) => Some(tag),
        ListedRuleView::Link(tag) => Some(tag),
        ListedRuleView::Open(OpenRuleView::Paren(Some(tag), _, _)) => Some(tag),
        ListedRuleView::Open(OpenRuleView::List(Some(tag), _)) => Some(tag),
        ListedRuleView::Open(OpenRuleView::Column(Some(tag))) => Some(tag),
        _ => None,
    }
}

/// Whether `t` holds the place of `target`: it refers to it and is no link
/// yet.
pub open spec fn awaits(t: ListedRuleView, target: Seq<char>) -> bool {
    reference(t) == Some(target) && !(t is Link)
}

/// What a placeholder becomes when its tag is confirmed: a link; for a
/// tagged opening bracket the untagged bracket and then the link.
pub open spec fn confirmed_form(t: ListedRuleView, target: Seq<char>) -> Seq<ListedRuleView> {
    match t {
        ListedRuleView::Open(OpenRuleView::Paren(_, open, before)) => seq![
            ListedRuleView::Open(OpenRuleView::Paren(None, open, before)),
            ListedRuleView::Link(target),
        ],
        ListedRuleView::Open(OpenRuleView::List(_, join)) => seq![
            ListedRuleView::Open(OpenRuleView::List(None, join)),
            ListedRuleView::Link(target),
        ],
        ListedRuleView::Open(OpenRuleView::Column(_)) => seq![
            ListedRuleView::Open(OpenRuleView::Column(None)),
            ListedRuleView::Link(target),
        ],
        _ => seq![ListedRuleView::Link(target)],
    }
}

/// How far a walk for a placeholder has come: the tokens written so far, the
/// store, and whether the placeholder was found and rewritten.
pub struct Scan {
    pub out: Seq<ListedRuleView>,
    pub store: Store,
    pub done: bool,
}

/// The walk over the first `n` of `tokens` for the first placeholder of
/// `target`, depth first and from the left. A reference whose tag the store
/// holds is followed, as long as `fuel` lasts: where the placeholder is found
/// in the body of that tag, the rewritten body takes the body's place in the
/// store. After the rewrite the remaining tokens are copied.
pub open spec fn confirm_scan(
    tokens: Seq<ListedRuleView>,
    store: Store,
    target: Seq<char>,
    fuel: nat,
    n: nat,
) -> Scan
    decreases fuel, n,
{
    if n == 0 {
        Scan { out: Seq::empty(), store, done: false }
    } else {
        let prev = confirm_scan(tokens, store, target, fuel, (n - 1) as nat);
        let t = tokens[n - 1];
        let copied = Scan { out: prev.out.push(t), ..prev };
        if prev.done {
            copied
        } else if awaits(t, target) {
            Scan { out: prev.out + confirmed_form(t, target), store: prev.store, done: true }
        } else {
            match reference(t) {
                Some(tag) => if prev.store.contains_key(tag) && fuel > 0 {
                    let inner = confirm_scan(
                        prev.store[tag],
                        prev.store,
                        target,
                        (fuel - 1) as nat,
                        prev.store[tag].len(),
                    );
                    if inner.done {
                        Scan {
                            out: prev.out.push(t),
                            store: inner.store.insert(tag, inner.out),
                            done: true,
                        }
                    } else {
                        copied
                    }
                } else {
                    copied
                },
                None => copied,
            }
        }
    }
}

/// The graph after `target` is confirmed, and whether a placeholder was
/// rewritten. The walk starts at the body of `root` and follows references as
/// deep as the store has tags.
pub open spec fn confirm(store: Store, target: Seq<char>) -> (Store, bool) {
    if store.contains_key(root_tag()) {
        let s = confirm_scan(
            store[root_tag()],
            store,
            target,
            store.len(),
            store[root_tag()].len(),
        );
        if s.done {
            (s.store.insert(root_tag(), s.out), true)
        } else {
            (store, false)
        }
    } else {
        (store, false)
    }
}

/// A walk that finds no placeholder leaves the store as it was.
pub proof fn lemma_scan_keeps_store(
    tokens: Seq<ListedRuleView>,
    store: Store,
    target: Seq<char>,
    fuel: nat,
    n: nat,
)
    ensures
        !confirm_scan(tokens, store, target, fuel, n).done ==> confirm_scan(
            tokens,
            store,
            target,
            fuel,
            n,
        ).store == store,
    decreases fuel, n,
{
    if n > 0 {
        lemma_scan_keeps_store(tokens, store, target, fuel, (n - 1) as nat);
    }
}

/// A store has as many tags as the map it is the view of.
pub proof fn lemma_store_view_len(m: Map<Seq<char>, InternalRule>)
    ensures
        store_view(m).len() == m.len(),
{
    assert(store_view(m).dom() =~= m.dom());
}

/// What the walk does with one token that is no placeholder of the target:
/// the tag to follow, if the token refers to one.
fn reference_of(t: &ListedRule) -> (r: Option<&String>)
    ensures
        match r {
            Some(tag) => reference(t@) == Some(tag@),
            None => reference(t@) is None,
        },
{
    match t {
        ListedRule::Unconfirmed(tag) => Some(tag),
        ListedRule::Link(tag) => Some(tag),
        ListedRule::Open(OpenRule::Paren(Some(tag), _, _)) => Some(tag),
        ListedRule::Open(OpenRule::List(Some(tag), _)) => Some(tag),
        ListedRule::Open(OpenRule::Column(Some(tag))) => Some(tag),
        _ => None,
    }
}

/// The confirmed form of a placeholder of `target`, appended to `out`.
fn push_confirmed(out: &mut Vec<ListedRule>, t: &ListedRule, target: &String)
    ensures
        tokens_view(final(out)@) == tokens_view(old(out)@) + confirmed_form(t@, target@),
{
    let ghost before = tokens_view(out@);
    match t {
        ListedRule::Open(OpenRule::Paren(_, open_str, comments)) => {
            push_token(
                out,
                ListedRule::Open(OpenRule::Paren(None, open_str.clone(), clone_lines(comments))),
            );
        },
        ListedRule::Open(OpenRule::List(_, join)) => {
            push_token(out, ListedRule::Open(OpenRule::List(None, join.clone())));
        },
        ListedRule::Open(OpenRule::Column(_)) => {
            push_token(out, ListedRule::Open(OpenRule::Column(None)));
        },
        _ => {},
    }
    push_token(out, ListedRule::Link(target.clone()));
    assert(tokens_view(out@) =~= before + confirmed_form(t@, target@));
}

/// Whether a placeholder is left among `tokens`.
fn holds_placeholder(tokens: &[ListedRule]) -> (r: bool)
    ensures
        r == pending(tokens_view(tokens@)),
{
    let mut i: usize = 0;
    while i < tokens.len()
        invariant
            i <= tokens@.len(),
            forall|k: int| 0 <= k < i ==> !((#[trigger] tokens_view(tokens@)[k]) is Unconfirmed),
        decreases tokens@.len() - i,
    {
        assert(tokens_view(tokens@)[i as int] == tokens@[i as int]@);
        match &tokens[i] {
            ListedRule::Unconfirmed(_) => {
                return true;
            },
            _ => {},
        }
        i = i + 1;
    }
    false
}

impl Data {
    /// A graph for the document `rule`: its flattened form under `root`, and
    /// the bodies of its tagged parts under their tags.
    pub fn new(rule: &Rule) -> (d: Data)
        ensures
            d@ == flatten(rule@).1.insert(root_tag(), flatten(rule@).0),
            d.process_tag is None,
    {
        let (rules, tag_data) = rule_to_listedrule(rule);
        let mut tag_data = tag_data;
        let root = String::from_str("root");
        store_body(&mut tag_data, &root, rules);
        Data { tag_data, process_tag: None }
    }

    /// Puts the flattened `rule` under `tag`, and the bodies of its tagged
    /// parts under their tags.
    fn put(&mut self, tag: &str, rule: &Rule)
        ensures
            final(self)@ == with_body(old(self)@, tag@, flatten(rule@)),
            final(self).process_tag == old(self).process_tag,
    {
        let (rules, new_data) = rule_to_listedrule(rule);
        merge_hash_map(&mut self.tag_data, new_data);
        let tag = String::from_str(tag);
        store_body(&mut self.tag_data, &tag, rules);
    }

    /// Puts `rule` under the new tag `tag`. A tag is written once: neither
    /// the graph nor a tagged part of `rule` may hold `tag` already.
    pub fn insert(&mut self, tag: &str, rule: &Rule)
        requires
            !old(self)@.contains_key(tag@),
            !flatten(rule@).1.contains_key(tag@),
        ensures
            final(self)@ == with_body(old(self)@, tag@, flatten(rule@)),
            final(self).process_tag == old(self).process_tag,
    {
        self.put(tag, rule)
    }

    /// Puts `rule` under `tag`, in place of what the graph held there.
    pub fn replace(&mut self, tag: &str, rule: &Rule)
        ensures
            final(self)@ == with_body(old(self)@, tag@, flatten(rule@)),
            final(self).process_tag == old(self).process_tag,
    {
        self.put(tag, rule)
    }

    /// The tree under `tag`, where its body resolves to exactly one
    /// well-formed unit without a placeholder; `None` where it does not, or
    /// not yet.
    pub fn get(&mut self, tag: &str) -> (r: Option<RuleWithComment>)
        ensures
            final(self)@ == old(self)@,
            final(self).process_tag == old(self).process_tag,
            match r {
                Some(n) => resolve(old(self)@, tag@) == Some(n@),
                None => resolve(old(self)@, tag@) is None,
            },
    {
        proof {
            lemma_store_view_len(self.tag_data@);
        }
        match self.tag_data.get(tag) {
            Some(internal_rule) => {
                let l = flat_listedrule(internal_rule.rules.as_slice(), &self.tag_data);
                if holds_placeholder(l.as_slice()) {
                    return None;
                }
                match parse_listedrule(l.as_slice(), 0) {
                    Some((rule, column_config_opt, count)) => {
                        if count == l.len() && column_config_opt.is_none() {
                            Some(rule)
                        } else {
                            None
                        }
                    },
                    None => None,
                }
            },
            None => None,
        }
    }

    /// Confirms `tag`: the first placeholder of the tag that a walk from
    /// `root` reaches becomes a link. Says whether there was one. Where
    /// there is one, the graph must hold a body under `tag`.
    pub fn confirmed(&mut self, tag: &str) -> (found: bool)
        requires
            confirm(old(self)@, tag@).1 ==> old(self)@.contains_key(tag@),
        ensures
            (final(self)@, found) == confirm(old(self)@, tag@),
            final(self).process_tag == old(self).process_tag,
    {
        proof {
            lemma_store_view_len(self.tag_data@);
        }
        let target = String::from_str(tag);
        let fuel = self.tag_data.len();
        let root = match self.tag_data.get("root") {
            Some(internal_rule) => InternalRule {
                rules: clone_tokens(
                    internal_rule.rules.as_slice(),
                    0,
                    internal_rule.rules.len(),
                ),
            },
            None => {
                return false;
            },
        };
        assert(root@ =~= old(self)@[root_tag()]);
        proof {
            lemma_scan_keeps_store(root@, self@, target@, fuel as nat, root@.len());
        }
        match self.confirmed_with_tag(&root, &target, fuel) {
            Some(new_internal_rule) => {
                let key = String::from_str("root");
                store_body(&mut self.tag_data, &key, new_internal_rule.rules);
                true
            },
            None => false,
        }
    }

    /// Renders what the graph settles and takes it off the body that is
    /// being processed.
    pub fn format<F: Fn(String) -> String, G: Fn(Layout, Vec<String>) -> Vec<String>>(
        &mut self,
        ctx: Context<F, G>,
    ) -> (v: Vec<String>)
        requires
            ctx.wf(),
        ensures
            (lines_view(v@), final(self)@) == advance(
                ctx.comments(),
                ctx@,
                old(self)@,
                old(self).entry_tag(),
            ),
            final(self).process_tag == old(self).process_tag,
    {
        crate::dynamic::format::code_format(&ctx, self)
    }

    /// Walks `internal_rule` for the first placeholder of `target_tag_name`,
    /// following references as deep as `fuel` allows. Where it finds one, the
    /// rewritten tokens come back and the graph holds the rewritten bodies.
    fn confirmed_with_tag(
        &mut self,
        internal_rule: &InternalRule,
        target_tag_name: &String,
        fuel: usize,
    ) -> (r: Option<InternalRule>)
        ensures
            ({
                let s = confirm_scan(
                    internal_rule@,
                    old(self)@,
                    target_tag_name@,
                    fuel as nat,
                    internal_rule@.len(),
                );
                &&& final(self)@ == s.store
                &&& match r {
                    Some(new) => s.done && new@ == s.out,
                    None => !s.done,
                }
            }),
            final(self).process_tag == old(self).process_tag,
        decreases fuel,
    {
        let ghost tokens = internal_rule@;
        let ghost store = self@;
        let ghost target = target_tag_name@;
        let mut new_rules: Vec<ListedRule> = Vec::new();
        let mut is_confirmed = false;
        assert(tokens_view(new_rules@) =~= Seq::empty());
        let n = internal_rule.rules.len();
        let mut i: usize = 0;
        while i < n
            invariant
                i <= n,
                n == internal_rule.rules@.len(),
                tokens == internal_rule@,
                target == target_tag_name@,
                tokens_view(new_rules@) == confirm_scan(
                    tokens,
                    store,
                    target,
                    fuel as nat,
                    i as nat,
                ).out,
                self@ == confirm_scan(tokens, store, target, fuel as nat, i as nat).store,
                self.process_tag == old(self).process_tag,
                is_confirmed == confirm_scan(tokens, store, target, fuel as nat, i as nat).done,
            decreases n - i,
        {
            let listed_rule = &internal_rule.rules[i];
            assert(tokens[i as int] == listed_rule@);
            let ghost prev = confirm_scan(tokens, store, target, fuel as nat, i as nat);
            if is_confirmed {
                push_token(&mut new_rules, clone_token(listed_rule));
            } else {
                match reference_of(listed_rule) {
                    Some(tag) => {
                        let is_link = match listed_rule {
                            ListedRule::Link(_) => true,
                            _ => false,
                        };
                        if !is_link && *tag == *target_tag_name {
                            push_confirmed(&mut new_rules, listed_rule, target_tag_name);
                            is_confirmed = true;
                        } else {
                            assert(!awaits(listed_rule@, target));
                            let body = if fuel > 0 {
                                match self.tag_data.get(tag.as_str()) {
                                    Some(referred) => Some(
                                        InternalRule {
                                            rules: clone_tokens(
                                                referred.rules.as_slice(),
                                                0,
                                                referred.rules.len(),
                                            ),
                                        },
                                    ),
                                    None => None,
                                }
                            } else {
                                None
                            };
                            push_token(&mut new_rules, clone_token(listed_rule));
                            match body {
                                Some(referred) => {
                                    assert(referred@ =~= prev.store[tag@]);
                                    proof {
                                        lemma_scan_keeps_store(
                                            referred@,
                                            prev.store,
                                            target,
                                            (fuel - 1) as nat,
                                            referred@.len(),
                                        );
                                    }
                                    match self.confirmed_with_tag(
                                        &referred,
                                        target_tag_name,
                                        fuel - 1,
                                    ) {
                                        Some(new_internal_rule) => {
                                            store_body(
                                                &mut self.tag_data,
                                                tag,
                                                new_internal_rule.rules,
                                            );
                                            is_confirmed = true;
                                        },
                                        None => {},
                                    }
                                },
                                None => {},
                            }
                        }
                    },
                    None => {
                        push_token(&mut new_rules, clone_token(listed_rule));
                    },
                }
            }
            i = i + 1;
        }
        if is_confirmed {
            Some(InternalRule { rules: new_rules })
        } else {
            None
        }
    }
}

} // verus!
