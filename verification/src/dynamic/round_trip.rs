//! The round trip: a tree that is flattened, resolved and inflated comes
//! back, but for its tags and for where its comments hang.

use vstd::prelude::*;
use crate::dynamic::flatten::{
    bracketed, column_tokens, flatten, flatten_column, flatten_nodes, in_column_contents,
    in_contents, list_tokens, merged_store, Flat,
};
use crate::dynamic::graph::{resolve, root_tag};
use crate::dynamic::inflate::{
    all_column_tokens, inflate, inflate_units, plain, unit_nodes, unit_tokens, Parsed,
};
use crate::dynamic::resolve::{flat, flat_body, flat_token};
use crate::dynamic::{CloseRuleView, ListedRuleView, NodeView, OpenRuleView, RuleView, Store};
use crate::ColumnConfig;

verus! {

/// Whether a node carries a comment.
pub open spec fn has_comments(n: NodeView) -> bool {
    n.before_comments.len() > 0 || n.after_comment is Some
}

/// The node with its rule as it comes back.
pub open spec fn kept(n: NodeView) -> NodeView
    decreases n, 2nat,
{
    NodeView { rule: normal_rule(n.rule), ..n }
}

/// The rule that stands for a node with its comments: the node in a
/// comment wrapper, or its rule alone where it has no comments.
pub open spec fn wrapped(n: NodeView) -> RuleView
    decreases n, 3nat,
{
    if has_comments(n) {
        RuleView::AST(Box::new(kept(n)))
    } else {
        normal_rule(n.rule)
    }
}

/// The elements of a list as they come back.
pub open spec fn normal_nodes(children: Seq<NodeView>) -> Seq<NodeView>
    decreases children, 0nat,
{
    Seq::new(
        children.len(),
        |i: int|
            if 0 <= i < children.len() {
                plain(wrapped(children[i]))
            } else {
                arbitrary()
            },
    )
}

/// The tokens of a column as they come back.
pub open spec fn normal_tokens(items: Seq<(NodeView, ColumnConfig)>) -> Seq<
    (NodeView, ColumnConfig),
>
    decreases items, 0nat,
{
    Seq::new(
        items.len(),
        |i: int|
            if 0 <= i < items.len() {
                (kept(items[i].0), items[i].1)
            } else {
                arbitrary()
            },
    )
}

/// The rule that comes back when `r` is flattened, resolved and inflated:
/// `r` without its tags, without comment wrappers that carry no comment, and
/// with every list element that carries comments in a comment wrapper.
pub open spec fn normal_rule(r: RuleView) -> RuleView
    decreases r, 1nat,
{
    match r {
        RuleView::Unconfirmed(tag) => RuleView::Unconfirmed(tag),
        RuleView::AST(n) => wrapped(*n),
        RuleView::Raw(s) => RuleView::Raw(s),
        RuleView::List(_, join, children) => RuleView::List(None, join, normal_nodes(children)),
        RuleView::Paren(_, open, content, close) => RuleView::Paren(
            None,
            open,
            Box::new(kept(*content)),
            close,
        ),
        RuleView::Column(_, items) => RuleView::Column(None, normal_tokens(items)),
    }
}

/// The resolved tokens of each element of a list.
pub open spec fn direct_nodes(children: Seq<NodeView>) -> Seq<Flat>
    decreases children, 0nat,
{
    Seq::new(
        children.len(),
        |i: int|
            if 0 <= i < children.len() {
                (direct(children[i].rule), Map::empty())
            } else {
                arbitrary()
            },
    )
}

/// The resolved tokens of each token of a column.
pub open spec fn direct_column(items: Seq<(NodeView, ColumnConfig)>) -> Seq<Flat>
    decreases items, 0nat,
{
    Seq::new(
        items.len(),
        |i: int|
            if 0 <= i < items.len() {
                (direct(items[i].0.rule), Map::empty())
            } else {
                arbitrary()
            },
    )
}

/// The tokens of `r` with every body in its place and no tag left.
pub open spec fn direct(r: RuleView) -> Seq<ListedRuleView>
    decreases r, 1nat,
{
    match r {
        RuleView::Unconfirmed(tag) => seq![ListedRuleView::Unconfirmed(tag)],
        RuleView::AST(n) => if has_comments(*n) {
            in_contents(*n, direct(n.rule))
        } else {
            direct(n.rule)
        },
        RuleView::Raw(s) => seq![ListedRuleView::Raw(s)],
        RuleView::List(_, join, children) => seq![
            ListedRuleView::Open(OpenRuleView::List(None, join)),
        ] + list_tokens(children, direct_nodes(children), children.len()) + seq![
            ListedRuleView::Close(CloseRuleView::List),
        ],
        RuleView::Paren(_, open, content, close) => seq![
            ListedRuleView::Open(OpenRuleView::Paren(None, open, content.before_comments)),
        ] + direct(content.rule) + seq![
            ListedRuleView::Close(CloseRuleView::Paren(close, content.after_comment)),
        ],
        RuleView::Column(_, items) => seq![ListedRuleView::Open(OpenRuleView::Column(None))]
            + column_tokens(items, direct_column(items), items.len()) + seq![
            ListedRuleView::Close(CloseRuleView::Column),
        ],
    }
}

/// The greatest of the first `n` numbers.
pub open spec fn max_of(s: Seq<nat>, n: nat) -> nat
    decreases n,
{
    if n == 0 {
        0
    } else if s[n - 1] > max_of(s, (n - 1) as nat) {
        s[n - 1]
    } else {
        max_of(s, (n - 1) as nat)
    }
}

/// One for a tag, nothing for none.
pub open spec fn own(tag: Option<Seq<char>>) -> nat {
    if tag is Some {
        1
    } else {
        0
    }
}

/// The tag depth of each element of a list.
pub open spec fn node_depths(children: Seq<NodeView>) -> Seq<nat>
    decreases children, 0nat,
{
    Seq::new(
        children.len(),
        |i: int|
            if 0 <= i < children.len() {
                tag_depth(children[i].rule)
            } else {
                arbitrary()
            },
    )
}

/// The tag depth of each token of a column.
pub open spec fn column_depths(items: Seq<(NodeView, ColumnConfig)>) -> Seq<nat>
    decreases items, 0nat,
{
    Seq::new(
        items.len(),
        |i: int|
            if 0 <= i < items.len() {
                tag_depth(items[i].0.rule)
            } else {
                arbitrary()
            },
    )
}

/// How many tagged parts of `r` stand one inside the other, at most.
pub open spec fn tag_depth(r: RuleView) -> nat
    decreases r, 1nat,
{
    match r {
        RuleView::Unconfirmed(_) => 0,
        RuleView::AST(n) => tag_depth(n.rule),
        RuleView::Raw(_) => 0,
        RuleView::List(tag, _, children) => own(tag) + max_of(
            node_depths(children),
            children.len(),
        ),
        RuleView::Paren(tag, _, content, _) => own(tag) + tag_depth(content.rule),
        RuleView::Column(tag, items) => own(tag) + max_of(column_depths(items), items.len()),
    }
}

/// Whether no tag stands in two of the parts.
pub open spec fn apart(parts: Seq<Flat>) -> bool {
    forall|i: int, j: int, k: Seq<char>|
        0 <= i < j < parts.len() ==> !(#[trigger] parts[i].1.contains_key(k)
            && #[trigger] parts[j].1.contains_key(k))
}

/// Whether `tag` is none of the tags of the parts.
pub open spec fn fresh(tag: Option<Seq<char>>, parts: Seq<Flat>) -> bool {
    forall|i: int|
        0 <= i < parts.len() ==> !(tag is Some && (#[trigger] parts[i]).1.contains_key(
            tag.unwrap(),
        ))
}

/// Whether each element of a list has distinct tags.
pub open spec fn distinct_nodes(children: Seq<NodeView>) -> bool
    decreases children, 0nat,
{
    forall|i: int| 0 <= i < children.len() ==> distinct_tags((#[trigger] children[i]).rule)
}

/// Whether each token of a column has distinct tags.
pub open spec fn distinct_column(items: Seq<(NodeView, ColumnConfig)>) -> bool
    decreases items, 0nat,
{
    forall|i: int| 0 <= i < items.len() ==> distinct_tags((#[trigger] items[i]).0.rule)
}

/// Whether no two tagged parts of `r` have the same tag.
pub open spec fn distinct_tags(r: RuleView) -> bool
    decreases r, 1nat,
{
    match r {
        RuleView::Unconfirmed(_) => true,
        RuleView::AST(n) => distinct_tags(n.rule),
        RuleView::Raw(_) => true,
        RuleView::List(tag, _, children) => {
            &&& distinct_nodes(children)
            &&& apart(flatten_nodes(children))
            &&& fresh(tag, flatten_nodes(children))
        },
        RuleView::Paren(tag, _, content, _) => {
            &&& distinct_tags(content.rule)
            &&& !(tag is Some && flatten(content.rule).1.contains_key(tag.unwrap()))
        },
        RuleView::Column(tag, items) => {
            &&& distinct_column(items)
            &&& apart(flatten_column(items))
            &&& fresh(tag, flatten_column(items))
        },
    }
}

/// Whether `store` holds every body of `part` under the same tag.
pub open spec fn held_in(part: Store, store: Store) -> bool {
    forall|k: Seq<char>| #[trigger]
        part.dom().contains(k) ==> store.dom().contains(k) && store[k] == part[k]
}

/// Resolving a sequence resolves its parts.
pub proof fn lemma_flat_add(a: Seq<ListedRuleView>, b: Seq<ListedRuleView>, store: Store, fuel: nat)
    ensures
        flat(a + b, store, fuel) == flat(a, store, fuel) + flat(b, store, fuel),
    decreases b.len(),
{
    if b.len() == 0 {
        assert(a + b =~= a);
        assert(flat(a, store, fuel) + flat(b, store, fuel) =~= flat(a, store, fuel));
    } else {
        assert((a + b).drop_last() =~= a + b.drop_last());
        assert((a + b).last() == b.last());
        lemma_flat_add(a, b.drop_last(), store, fuel);
        assert(flat(a + b, store, fuel) =~= flat(a, store, fuel) + flat(b, store, fuel));
    }
}

/// Resolving one token.
pub proof fn lemma_flat_one(t: ListedRuleView, store: Store, fuel: nat)
    ensures
        flat(seq![t], store, fuel) == flat_token(t, store, fuel),
{
    assert(seq![t].drop_last() =~= Seq::<ListedRuleView>::empty());
    assert(flat(Seq::<ListedRuleView>::empty(), store, fuel) =~= Seq::<ListedRuleView>::empty());
    assert(seq![t].last() == t);
    assert(flat(seq![t], store, fuel) =~= flat_token(t, store, fuel));
}

/// Each of the first `n` parts, where no tag stands in two of them, keeps
/// its bodies in the merged store.
pub proof fn lemma_merged_holds_part(parts: Seq<Flat>, n: nat, i: int)
    requires
        apart(parts),
        0 <= i < n <= parts.len(),
    ensures
        held_in(parts[i].1, merged_store(parts, n)),
    decreases n,
{
    if i < n - 1 {
        lemma_merged_holds_part(parts, (n - 1) as nat, i);
        assert forall|k: Seq<char>| #[trigger] parts[i].1.dom().contains(k) implies !parts[n
            - 1].1.dom().contains(k) by {
            assert(!(parts[i].1.contains_key(k) && parts[n - 1].1.contains_key(k)));
        }
    }
}

/// The greatest of the first `n` numbers is no less than each of them.
pub proof fn lemma_max_of_bounds(s: Seq<nat>, n: nat, i: int)
    requires
        0 <= i < n,
    ensures
        s[i] <= max_of(s, n),
    decreases n,
{
    if i < n - 1 {
        lemma_max_of_bounds(s, (n - 1) as nat, i);
    }
}

/// The store that a bracket pair leaves: the merged store of its parts, with
/// the body under the tag where there is one.
pub open spec fn bracket_store(
    tag: Option<Seq<char>>,
    parts: Seq<Flat>,
    body: Seq<ListedRuleView>,
) -> Store {
    match tag {
        Some(t) => merged_store(parts, parts.len()).insert(t, body),
        None => merged_store(parts, parts.len()),
    }
}

/// Each part of a bracket pair keeps its bodies in every store that holds
/// what the pair leaves.
proof fn lemma_parts_in_store(
    tag: Option<Seq<char>>,
    parts: Seq<Flat>,
    body: Seq<ListedRuleView>,
    store: Store,
    i: int,
)
    requires
        apart(parts),
        fresh(tag, parts),
        0 <= i < parts.len(),
        held_in(bracket_store(tag, parts, body), store),
    ensures
        held_in(parts[i].1, store),
{
    lemma_merged_holds_part(parts, parts.len(), i);
    assert forall|k: Seq<char>| #[trigger] parts[i].1.dom().contains(k) implies store.dom()
        .contains(k) && store[k] == parts[i].1[k] by {
        assert(merged_store(parts, parts.len()).dom().contains(k));
        assert(bracket_store(tag, parts, body).dom().contains(k));
        assert(bracket_store(tag, parts, body)[k] == parts[i].1[k]);
    }
}

/// Resolving a list element resolves what stands between its brackets.
proof fn lemma_flat_in_contents(n: NodeView, inner: Seq<ListedRuleView>, store: Store, fuel: nat)
    ensures
        flat(in_contents(n, inner), store, fuel) == in_contents(n, flat(inner, store, fuel)),
{
    let open = ListedRuleView::Open(OpenRuleView::Contents(n.before_comments));
    let close = ListedRuleView::Close(CloseRuleView::Contents(n.after_comment));
    lemma_flat_add(seq![open] + inner, seq![close], store, fuel);
    lemma_flat_add(seq![open], inner, store, fuel);
    lemma_flat_one(open, store, fuel);
    lemma_flat_one(close, store, fuel);
}

/// Resolving a column token resolves what stands between its brackets.
proof fn lemma_flat_in_column_contents(
    n: NodeView,
    config: ColumnConfig,
    inner: Seq<ListedRuleView>,
    store: Store,
    fuel: nat,
)
    ensures
        flat(in_column_contents(n, config, inner), store, fuel) == in_column_contents(
            n,
            config,
            flat(inner, store, fuel),
        ),
{
    let open = ListedRuleView::Open(OpenRuleView::ColumnContents(config, n.before_comments));
    let close = ListedRuleView::Close(CloseRuleView::ColumnContents(n.after_comment));
    lemma_flat_add(seq![open] + inner, seq![close], store, fuel);
    lemma_flat_add(seq![open], inner, store, fuel);
    lemma_flat_one(open, store, fuel);
    lemma_flat_one(close, store, fuel);
}

/// Resolving a bracket pair: the untagged opening bracket, the resolved
/// body, the closing bracket.
proof fn lemma_flat_bracketed(
    tag: Option<Seq<char>>,
    open: ListedRuleView,
    bare: ListedRuleView,
    body: Seq<ListedRuleView>,
    close: ListedRuleView,
    part_store: Store,
    store: Store,
    fuel: nat,
)
    requires
        held_in(bracketed(tag, open, body, close, part_store).1, store),
        fuel >= own(tag),
        close is Close,
        match tag {
            Some(t) => flat_token(open, store, fuel) == seq![bare] + flat_body(t, store, fuel),
            None => open == bare && flat_token(open, store, fuel) == seq![open],
        },
    ensures
        flat(bracketed(tag, open, body, close, part_store).0, store, fuel) == seq![bare] + flat(
            body,
            store,
            (fuel - own(tag)) as nat,
        ) + seq![close],
{
    lemma_flat_one(open, store, fuel);
    lemma_flat_one(close, store, fuel);
    match tag {
        Some(t) => {
            assert(bracketed(tag, open, body, close, part_store).0 =~= seq![open] + seq![close]);
            lemma_flat_add(seq![open], seq![close], store, fuel);
            assert(bracketed(tag, open, body, close, part_store).1.dom().contains(t));
            assert(store[t] == body);
        },
        None => {
            lemma_flat_add(seq![open] + body, seq![close], store, fuel);
            lemma_flat_add(seq![open], body, store, fuel);
        },
    }
}

/// Resolving the flattened elements of a list gives their resolved tokens.
proof fn lemma_resolves_nodes(children: Seq<NodeView>, store: Store, fuel: nat, n: nat)
    requires
        n <= children.len(),
        distinct_nodes(children),
        forall|i: int|
            0 <= i < children.len() ==> held_in((#[trigger] flatten_nodes(children)[i]).1, store),
        forall|i: int| 0 <= i < children.len() ==> fuel >= #[trigger] node_depths(children)[i],
    ensures
        flat(list_tokens(children, flatten_nodes(children), n), store, fuel) == list_tokens(
            children,
            direct_nodes(children),
            n,
        ),
    decreases children, n,
{
    let parts = flatten_nodes(children);
    if n == 0 {
        assert(flat(Seq::<ListedRuleView>::empty(), store, fuel) =~= Seq::<
            ListedRuleView,
        >::empty());
    } else {
        lemma_resolves_nodes(children, store, fuel, (n - 1) as nat);
        let c = children[n - 1];
        assert(distinct_tags(c.rule));
        assert(held_in(parts[n - 1].1, store));
        assert(fuel >= node_depths(children)[n - 1]);
        lemma_resolves(c.rule, store, fuel);
        lemma_flat_in_contents(c, parts[n - 1].0, store, fuel);
        lemma_flat_add(
            list_tokens(children, parts, (n - 1) as nat),
            in_contents(c, parts[n - 1].0),
            store,
            fuel,
        );
    }
}

/// Resolving the flattened tokens of a column gives their resolved tokens.
proof fn lemma_resolves_column(
    items: Seq<(NodeView, ColumnConfig)>,
    store: Store,
    fuel: nat,
    n: nat,
)
    requires
        n <= items.len(),
        distinct_column(items),
        forall|i: int|
            0 <= i < items.len() ==> held_in((#[trigger] flatten_column(items)[i]).1, store),
        forall|i: int| 0 <= i < items.len() ==> fuel >= #[trigger] column_depths(items)[i],
    ensures
        flat(column_tokens(items, flatten_column(items), n), store, fuel) == column_tokens(
            items,
            direct_column(items),
            n,
        ),
    decreases items, n,
{
    let parts = flatten_column(items);
    if n == 0 {
        assert(flat(Seq::<ListedRuleView>::empty(), store, fuel) =~= Seq::<
            ListedRuleView,
        >::empty());
    } else {
        lemma_resolves_column(items, store, fuel, (n - 1) as nat);
        let c = items[n - 1].0;
        assert(distinct_tags(items[n - 1].0.rule));
        assert(held_in(parts[n - 1].1, store));
        assert(fuel >= column_depths(items)[n - 1]);
        lemma_resolves(c.rule, store, fuel);
        lemma_flat_in_column_contents(c, items[n - 1].1, parts[n - 1].0, store, fuel);
        lemma_flat_add(
            column_tokens(items, parts, (n - 1) as nat),
            in_column_contents(c, items[n - 1].1, parts[n - 1].0),
            store,
            fuel,
        );
    }
}

/// Resolution: where the tags of `r` are distinct, `store` holds the bodies
/// that `r` lifts out, and `fuel` is no less than the tag depth of `r`, the
/// flattened `r` resolves to the tokens of `r` with every body in its place.
pub proof fn lemma_resolves(r: RuleView, store: Store, fuel: nat)
    requires
        distinct_tags(r),
        held_in(flatten(r).1, store),
        fuel >= tag_depth(r),
    ensures
        flat(flatten(r).0, store, fuel) == direct(r),
    decreases r, 0nat,
{
    match r {
        RuleView::Unconfirmed(tag) => {
            lemma_flat_one(ListedRuleView::Unconfirmed(tag), store, fuel);
        },
        RuleView::Raw(s) => {
            lemma_flat_one(ListedRuleView::Raw(s), store, fuel);
        },
        RuleView::AST(n) => {
            lemma_resolves(n.rule, store, fuel);
            if has_comments(*n) {
                lemma_flat_in_contents(*n, flatten(n.rule).0, store, fuel);
            }
        },
        RuleView::Paren(tag, open, content, close) => {
            let inner = flatten(content.rule);
            let o = ListedRuleView::Open(OpenRuleView::Paren(tag, open, content.before_comments));
            let bare = ListedRuleView::Open(
                OpenRuleView::Paren(None, open, content.before_comments),
            );
            let c = ListedRuleView::Close(CloseRuleView::Paren(close, content.after_comment));
            assert forall|k: Seq<char>| #[trigger] inner.1.dom().contains(k) implies store.dom()
                .contains(k) && store[k] == inner.1[k] by {
                assert(flatten(r).1.dom().contains(k));
            }
            lemma_flat_bracketed(tag, o, bare, inner.0, c, inner.1, store, fuel);
            lemma_resolves(content.rule, store, (fuel - own(tag)) as nat);
        },
        RuleView::List(tag, join, children) => {
            let parts = flatten_nodes(children);
            let body = list_tokens(children, parts, children.len());
            let o = ListedRuleView::Open(OpenRuleView::List(tag, join));
            let bare = ListedRuleView::Open(OpenRuleView::List(None, join));
            let c = ListedRuleView::Close(CloseRuleView::List);
            let part_store = merged_store(parts, children.len());
            lemma_flat_bracketed(tag, o, bare, body, c, part_store, store, fuel);
            let rest = (fuel - own(tag)) as nat;
            assert forall|i: int| 0 <= i < children.len() implies held_in(
                (#[trigger] parts[i]).1,
                store,
            ) by {
                lemma_parts_in_store(tag, parts, body, store, i);
            }
            assert forall|i: int| 0 <= i < children.len() implies rest >= #[trigger] node_depths(
                children,
            )[i] by {
                lemma_max_of_bounds(node_depths(children), children.len(), i);
            }
            lemma_resolves_nodes(children, store, rest, children.len());
        },
        RuleView::Column(tag, items) => {
            let parts = flatten_column(items);
            let body = column_tokens(items, parts, items.len());
            let o = ListedRuleView::Open(OpenRuleView::Column(tag));
            let bare = ListedRuleView::Open(OpenRuleView::Column(None));
            let c = ListedRuleView::Close(CloseRuleView::Column);
            let part_store = merged_store(parts, items.len());
            lemma_flat_bracketed(tag, o, bare, body, c, part_store, store, fuel);
            let rest = (fuel - own(tag)) as nat;
            assert forall|i: int| 0 <= i < items.len() implies held_in(
                (#[trigger] parts[i]).1,
                store,
            ) by {
                lemma_parts_in_store(tag, parts, body, store, i);
            }
            assert forall|i: int| 0 <= i < items.len() implies rest >= #[trigger] column_depths(
                items,
            )[i] by {
                lemma_max_of_bounds(column_depths(items), items.len(), i);
            }
            lemma_resolves_column(items, store, rest, items.len());
        },
    }
}

/// The `len` tokens from position `pos` on.
pub open spec fn piece(tokens: Seq<ListedRuleView>, pos: nat, len: nat) -> Seq<ListedRuleView> {
    tokens.subrange(pos as int, (pos + len) as int)
}

/// Whether `part` stands in `tokens` from position `pos` on.
pub open spec fn occurs(tokens: Seq<ListedRuleView>, pos: nat, part: Seq<ListedRuleView>) -> bool {
    pos + part.len() <= tokens.len() && piece(tokens, pos, part.len()) == part
}

/// Where a sequence stands, its parts stand.
pub proof fn lemma_occurs_split(
    tokens: Seq<ListedRuleView>,
    pos: nat,
    a: Seq<ListedRuleView>,
    b: Seq<ListedRuleView>,
)
    requires
        occurs(tokens, pos, a + b),
    ensures
        occurs(tokens, pos, a),
        occurs(tokens, pos + a.len(), b),
{
    let whole = piece(tokens, pos, (a + b).len());
    assert(piece(tokens, pos, a.len()) =~= a) by {
        assert forall|i: int| 0 <= i < a.len() implies piece(tokens, pos, a.len())[i] == a[i] by {
            assert(whole[i] == (a + b)[i]);
        }
    }
    assert(piece(tokens, pos + a.len(), b.len()) =~= b) by {
        assert forall|i: int| 0 <= i < b.len() implies piece(tokens, pos + a.len(), b.len())[i]
            == b[i] by {
            assert(whole[a.len() + i] == (a + b)[a.len() + i]);
        }
    }
}

/// Where one token stands, it is the token at that position.
pub proof fn lemma_occurs_one(tokens: Seq<ListedRuleView>, pos: nat, t: ListedRuleView)
    requires
        occurs(tokens, pos, seq![t]),
    ensures
        pos < tokens.len(),
        tokens[pos as int] == t,
{
    assert(piece(tokens, pos, 1)[0] == seq![t][0]);
}

/// Where a part stands in a sequence that stands in `tokens`, the part
/// stands in `tokens`.
pub proof fn lemma_occurs_within(
    tokens: Seq<ListedRuleView>,
    pos: nat,
    whole: Seq<ListedRuleView>,
    from: nat,
    part: Seq<ListedRuleView>,
)
    requires
        occurs(tokens, pos, whole),
        occurs(whole, from, part),
    ensures
        occurs(tokens, pos + from, part),
{
    assert(piece(tokens, pos + from, part.len()) =~= part) by {
        assert forall|i: int| 0 <= i < part.len() implies piece(tokens, pos + from, part.len())[i]
            == part[i] by {
            assert(piece(tokens, pos, whole.len())[from + i] == whole[from + i]);
            assert(piece(whole, from, part.len())[i] == part[i]);
        }
    }
}

/// The first `n` of `elems`, one after the other.
pub open spec fn glue(elems: Seq<Seq<ListedRuleView>>, n: nat) -> Seq<ListedRuleView>
    decreases n,
{
    if n == 0 {
        Seq::empty()
    } else {
        glue(elems, (n - 1) as nat) + elems[n - 1]
    }
}

/// Each of the first `n` elements stands in what they make together, behind
/// the elements before it.
pub proof fn lemma_glue_part(elems: Seq<Seq<ListedRuleView>>, k: nat, n: nat)
    requires
        k < n <= elems.len(),
    ensures
        glue(elems, (k + 1) as nat) == glue(elems, k) + elems[k as int],
        glue(elems, (k + 1) as nat).len() <= glue(elems, n).len(),
        occurs(glue(elems, n), glue(elems, k).len(), elems[k as int]),
    decreases n,
{
    let g = glue(elems, n);
    let prev = glue(elems, (n - 1) as nat);
    if k == n - 1 {
        assert(piece(g, prev.len(), elems[k as int].len()) =~= elems[k as int]);
    } else {
        lemma_glue_part(elems, k, (n - 1) as nat);
        let at = glue(elems, k).len();
        assert(piece(g, at, elems[k as int].len()) =~= piece(prev, at, elems[k as int].len()));
    }
}

/// The resolved tokens of each list element between its brackets.
pub open spec fn node_elems(children: Seq<NodeView>) -> Seq<Seq<ListedRuleView>> {
    Seq::new(children.len(), |i: int| in_contents(children[i], direct(children[i].rule)))
}

/// The resolved tokens of each column token between its brackets.
pub open spec fn column_elems(items: Seq<(NodeView, ColumnConfig)>) -> Seq<Seq<ListedRuleView>> {
    Seq::new(
        items.len(),
        |i: int| in_column_contents(items[i].0, items[i].1, direct(items[i].0.rule)),
    )
}

/// The resolved tokens of a list are its elements, one after the other.
pub proof fn lemma_list_tokens_glue(children: Seq<NodeView>, n: nat)
    requires
        n <= children.len(),
    ensures
        list_tokens(children, direct_nodes(children), n) == glue(node_elems(children), n),
    decreases n,
{
    if n > 0 {
        lemma_list_tokens_glue(children, (n - 1) as nat);
    }
}

/// The resolved tokens of a column are its tokens, one after the other.
pub proof fn lemma_column_tokens_glue(items: Seq<(NodeView, ColumnConfig)>, n: nat)
    requires
        n <= items.len(),
    ensures
        column_tokens(items, direct_column(items), n) == glue(column_elems(items), n),
    decreases n,
{
    if n > 0 {
        lemma_column_tokens_glue(items, (n - 1) as nat);
    }
}

/// What the elements of a list inflate to from element `k` on, where they
/// start at position `start`.
pub open spec fn node_units(children: Seq<NodeView>, start: nat, k: nat) -> Seq<Parsed> {
    Seq::new(
        (children.len() - k) as nat,
        |j: int|
            (
                plain(wrapped(children[k + j])),
                None::<ColumnConfig>,
                start + glue(node_elems(children), (k + j + 1) as nat).len(),
            ),
    )
}

/// What the tokens of a column inflate to from token `k` on, where they
/// start at position `start`.
pub open spec fn column_units(items: Seq<(NodeView, ColumnConfig)>, start: nat, k: nat) -> Seq<
    Parsed,
> {
    Seq::new(
        (items.len() - k) as nat,
        |j: int|
            (
                kept(items[k + j].0),
                Some(items[k + j].1),
                start + glue(column_elems(items), (k + j + 1) as nat).len(),
            ),
    )
}

/// A list element inflates to its node in a comment wrapper, or to its rule
/// alone where it has no comments.
proof fn lemma_inflates_contents(n: NodeView, tokens: Seq<ListedRuleView>, pos: nat)
    requires
        occurs(tokens, pos, in_contents(n, direct(n.rule))),
    ensures
        inflate(tokens, pos) == Some(
            (plain(wrapped(n)), None::<ColumnConfig>, pos + direct(n.rule).len() + 2),
        ),
    decreases n, 1nat,
{
    let open = ListedRuleView::Open(OpenRuleView::Contents(n.before_comments));
    let close = ListedRuleView::Close(CloseRuleView::Contents(n.after_comment));
    let d = direct(n.rule);
    lemma_occurs_split(tokens, pos, seq![open] + d, seq![close]);
    lemma_occurs_split(tokens, pos, seq![open], d);
    lemma_occurs_one(tokens, pos, open);
    lemma_occurs_one(tokens, pos + 1 + d.len(), close);
    lemma_inflates(n.rule, tokens, pos + 1);
}

/// A column token inflates to its node and its directive.
proof fn lemma_inflates_column_contents(
    n: NodeView,
    config: ColumnConfig,
    tokens: Seq<ListedRuleView>,
    pos: nat,
)
    requires
        occurs(tokens, pos, in_column_contents(n, config, direct(n.rule))),
    ensures
        inflate(tokens, pos) == Some((kept(n), Some(config), pos + direct(n.rule).len() + 2)),
    decreases n, 1nat,
{
    let open = ListedRuleView::Open(OpenRuleView::ColumnContents(config, n.before_comments));
    let close = ListedRuleView::Close(CloseRuleView::ColumnContents(n.after_comment));
    let d = direct(n.rule);
    lemma_occurs_split(tokens, pos, seq![open] + d, seq![close]);
    lemma_occurs_split(tokens, pos, seq![open], d);
    lemma_occurs_one(tokens, pos, open);
    lemma_occurs_one(tokens, pos + 1 + d.len(), close);
    lemma_inflates(n.rule, tokens, pos + 1);
}

/// The elements of a list from element `k` on inflate to their nodes, up to
/// the closing bracket of the list.
proof fn lemma_inflates_nodes(
    children: Seq<NodeView>,
    tokens: Seq<ListedRuleView>,
    start: nat,
    k: nat,
)
    requires
        k <= children.len(),
        occurs(
            tokens,
            start,
            glue(node_elems(children), children.len()) + seq![
                ListedRuleView::Close(CloseRuleView::List),
            ],
        ),
    ensures
        inflate_units(
            tokens,
            start + glue(node_elems(children), k).len(),
            CloseRuleView::List,
        ) == Some(
            (
                node_units(children, start, k),
                start + glue(node_elems(children), children.len()).len(),
            ),
        ),
    decreases children, children.len() - k,
{
    let elems = node_elems(children);
    let n = children.len();
    let body = glue(elems, n);
    let close = ListedRuleView::Close(CloseRuleView::List);
    lemma_occurs_split(tokens, start, body, seq![close]);
    lemma_occurs_one(tokens, start + body.len(), close);
    if k == n {
        assert(node_units(children, start, k) =~= Seq::<Parsed>::empty());
    } else {
        lemma_glue_part(elems, k, n);
        let at = start + glue(elems, k).len();
        lemma_occurs_within(tokens, start, body, glue(elems, k).len(), elems[k as int]);
        let c = children[k as int];
        lemma_inflates_contents(c, tokens, at);
        let open = ListedRuleView::Open(OpenRuleView::Contents(c.before_comments));
        lemma_occurs_split(tokens, at, seq![open] + direct(c.rule), seq![
            ListedRuleView::Close(CloseRuleView::Contents(c.after_comment)),
        ]);
        lemma_occurs_split(tokens, at, seq![open], direct(c.rule));
        lemma_occurs_one(tokens, at, open);
        lemma_inflates_nodes(children, tokens, start, k + 1);
        let unit = (
            plain(wrapped(c)),
            None::<ColumnConfig>,
            start + glue(elems, (k + 1) as nat).len(),
        );
        assert(seq![unit] + node_units(children, start, k + 1) =~= node_units(children, start, k));
    }
}

/// The tokens of a column from token `k` on inflate to their nodes and
/// directives, up to the closing bracket of the column.
proof fn lemma_inflates_column(
    items: Seq<(NodeView, ColumnConfig)>,
    tokens: Seq<ListedRuleView>,
    start: nat,
    k: nat,
)
    requires
        k <= items.len(),
        occurs(
            tokens,
            start,
            glue(column_elems(items), items.len()) + seq![
                ListedRuleView::Close(CloseRuleView::Column),
            ],
        ),
    ensures
        inflate_units(
            tokens,
            start + glue(column_elems(items), k).len(),
            CloseRuleView::Column,
        ) == Some(
            (column_units(items, start, k), start + glue(column_elems(items), items.len()).len()),
        ),
    decreases items, items.len() - k,
{
    let elems = column_elems(items);
    let n = items.len();
    let body = glue(elems, n);
    let close = ListedRuleView::Close(CloseRuleView::Column);
    lemma_occurs_split(tokens, start, body, seq![close]);
    lemma_occurs_one(tokens, start + body.len(), close);
    if k == n {
        assert(column_units(items, start, k) =~= Seq::<Parsed>::empty());
    } else {
        lemma_glue_part(elems, k, n);
        let at = start + glue(elems, k).len();
        lemma_occurs_within(tokens, start, body, glue(elems, k).len(), elems[k as int]);
        let c = items[k as int].0;
        let config = items[k as int].1;
        lemma_inflates_column_contents(c, config, tokens, at);
        let open = ListedRuleView::Open(OpenRuleView::ColumnContents(config, c.before_comments));
        lemma_occurs_split(tokens, at, seq![open] + direct(c.rule), seq![
            ListedRuleView::Close(CloseRuleView::ColumnContents(c.after_comment)),
        ]);
        lemma_occurs_split(tokens, at, seq![open], direct(c.rule));
        lemma_occurs_one(tokens, at, open);
        lemma_inflates_column(items, tokens, start, k + 1);
        let unit = (kept(c), Some(config), start + glue(elems, (k + 1) as nat).len());
        assert(seq![unit] + column_units(items, start, k + 1) =~= column_units(items, start, k));
    }
}

/// Inflation: where the resolved tokens of `r` stand in `tokens` from
/// position `pos` on, the unit at `pos` inflates to `r` as it comes back, and
/// ends where those tokens end.
pub proof fn lemma_inflates(r: RuleView, tokens: Seq<ListedRuleView>, pos: nat)
    requires
        occurs(tokens, pos, direct(r)),
    ensures
        inflate(tokens, pos) == Some(
            (plain(normal_rule(r)), None::<ColumnConfig>, pos + direct(r).len()),
        ),
    decreases r, 0nat,
{
    match r {
        RuleView::Unconfirmed(tag) => {
            lemma_occurs_one(tokens, pos, ListedRuleView::Unconfirmed(tag));
        },
        RuleView::Raw(s) => {
            lemma_occurs_one(tokens, pos, ListedRuleView::Raw(s));
        },
        RuleView::AST(n) => {
            if has_comments(*n) {
                lemma_inflates_contents(*n, tokens, pos);
            } else {
                lemma_inflates(n.rule, tokens, pos);
            }
        },
        RuleView::Paren(_, open, content, close) => {
            let o = ListedRuleView::Open(OpenRuleView::Paren(None, open, content.before_comments));
            let c = ListedRuleView::Close(CloseRuleView::Paren(close, content.after_comment));
            let d = direct(content.rule);
            lemma_occurs_split(tokens, pos, seq![o] + d, seq![c]);
            lemma_occurs_split(tokens, pos, seq![o], d);
            lemma_occurs_one(tokens, pos, o);
            lemma_occurs_one(tokens, pos + 1 + d.len(), c);
            lemma_inflates(content.rule, tokens, pos + 1);
        },
        RuleView::List(_, join, children) => {
            let o = ListedRuleView::Open(OpenRuleView::List(None, join));
            let c = ListedRuleView::Close(CloseRuleView::List);
            lemma_list_tokens_glue(children, children.len());
            let body = glue(node_elems(children), children.len());
            assert(direct(r) =~= seq![o] + (body + seq![c]));
            lemma_occurs_split(tokens, pos, seq![o], body + seq![c]);
            lemma_occurs_one(tokens, pos, o);
            lemma_inflates_nodes(children, tokens, pos + 1, 0);
            assert(unit_nodes(node_units(children, pos + 1, 0)) =~= normal_nodes(children));
        },
        RuleView::Column(_, items) => {
            let o = ListedRuleView::Open(OpenRuleView::Column(None));
            let c = ListedRuleView::Close(CloseRuleView::Column);
            lemma_column_tokens_glue(items, items.len());
            let body = glue(column_elems(items), items.len());
            assert(direct(r) =~= seq![o] + (body + seq![c]));
            lemma_occurs_split(tokens, pos, seq![o], body + seq![c]);
            lemma_occurs_one(tokens, pos, o);
            lemma_inflates_column(items, tokens, pos + 1, 0);
            let units = column_units(items, pos + 1, 0);
            assert(all_column_tokens(units));
            assert(unit_tokens(units) =~= normal_tokens(items));
        },
    }
}

/// The merged store of the first `n` list elements is finite and has no
/// fewer tags than the tag depth of any of them.
proof fn lemma_tags_of_nodes(children: Seq<NodeView>, n: nat)
    requires
        n <= children.len(),
        distinct_nodes(children),
    ensures
        merged_store(flatten_nodes(children), n).dom().finite(),
        merged_store(flatten_nodes(children), n).len() >= max_of(node_depths(children), n),
    decreases children, n,
{
    let parts = flatten_nodes(children);
    if n > 0 {
        lemma_tags_of_nodes(children, (n - 1) as nat);
        assert(distinct_tags(children[n - 1].rule));
        lemma_tags(children[n - 1].rule);
        let before = merged_store(parts, (n - 1) as nat);
        let part = parts[n - 1].1;
        assert(before.union_prefer_right(part).dom() =~= before.dom().union(part.dom()));
        vstd::set_lib::lemma_len_subset(before.dom(), before.dom().union(part.dom()));
        vstd::set_lib::lemma_len_subset(part.dom(), before.dom().union(part.dom()));
    }
}

/// The merged store of the first `n` column tokens is finite and has no
/// fewer tags than the tag depth of any of them.
proof fn lemma_tags_of_column(items: Seq<(NodeView, ColumnConfig)>, n: nat)
    requires
        n <= items.len(),
        distinct_column(items),
    ensures
        merged_store(flatten_column(items), n).dom().finite(),
        merged_store(flatten_column(items), n).len() >= max_of(column_depths(items), n),
    decreases items, n,
{
    let parts = flatten_column(items);
    if n > 0 {
        lemma_tags_of_column(items, (n - 1) as nat);
        assert(distinct_tags(items[n - 1].0.rule));
        lemma_tags(items[n - 1].0.rule);
        let before = merged_store(parts, (n - 1) as nat);
        let part = parts[n - 1].1;
        assert(before.union_prefer_right(part).dom() =~= before.dom().union(part.dom()));
        vstd::set_lib::lemma_len_subset(before.dom(), before.dom().union(part.dom()));
        vstd::set_lib::lemma_len_subset(part.dom(), before.dom().union(part.dom()));
    }
}

/// Every tag of the first `n` parts stands in one of them.
proof fn lemma_merged_tag(parts: Seq<Flat>, n: nat, k: Seq<char>)
    requires
        n <= parts.len(),
        merged_store(parts, n).dom().contains(k),
    ensures
        exists|i: int| 0 <= i < n && (#[trigger] parts[i]).1.dom().contains(k),
    decreases n,
{
    if n > 0 {
        if parts[n - 1].1.dom().contains(k) {
        } else {
            lemma_merged_tag(parts, (n - 1) as nat, k);
        }
    }
}

/// A tree with distinct tags lifts out finitely many bodies, and no fewer
/// than its tag depth.
pub proof fn lemma_tags(r: RuleView)
    requires
        distinct_tags(r),
    ensures
        flatten(r).1.dom().finite(),
        flatten(r).1.len() >= tag_depth(r),
    decreases r, 0nat,
{
    match r {
        RuleView::Unconfirmed(_) => {},
        RuleView::Raw(_) => {},
        RuleView::AST(n) => {
            lemma_tags(n.rule);
        },
        RuleView::Paren(tag, _, content, _) => {
            lemma_tags(content.rule);
        },
        RuleView::List(tag, _, children) => {
            lemma_tags_of_nodes(children, children.len());
            let parts = flatten_nodes(children);
            if tag is Some {
                if merged_store(parts, children.len()).dom().contains(tag.unwrap()) {
                    lemma_merged_tag(parts, children.len(), tag.unwrap());
                }
            }
        },
        RuleView::Column(tag, items) => {
            lemma_tags_of_column(items, items.len());
            let parts = flatten_column(items);
            if tag is Some {
                if merged_store(parts, items.len()).dom().contains(tag.unwrap()) {
                    lemma_merged_tag(parts, items.len(), tag.unwrap());
                }
            }
        },
    }
}

/// Round trip: a tree whose tags are distinct, flattened and then resolved
/// through the bodies it lifted out, inflates to the same tree without its
/// tags, without comment wrappers that carry no comment, and with every list
/// element that carries comments in a comment wrapper. Nothing is left over.
pub proof fn lemma_round_trip(r: RuleView)
    requires
        distinct_tags(r),
    ensures
        ({
            let f = flatten(r);
            let tokens = flat(f.0, f.1, f.1.len());
            inflate(tokens, 0) == Some((plain(normal_rule(r)), None::<ColumnConfig>, tokens.len()))
        }),
{
    let f = flatten(r);
    lemma_tags(r);
    lemma_resolves(r, f.1, f.1.len());
    assert(piece(direct(r), 0, direct(r).len()) =~= direct(r));
    lemma_inflates(r, direct(r), 0);
}

/// Whether `r` holds no placeholder.
pub open spec fn filled_rule(r: RuleView) -> bool
    decreases r, 1nat,
{
    match r {
        RuleView::Unconfirmed(_) => false,
        RuleView::AST(n) => filled(*n),
        RuleView::Raw(_) => true,
        RuleView::List(_, _, children) => forall|i: int|
            0 <= i < children.len() ==> filled(#[trigger] children[i]),
        RuleView::Paren(_, _, content, _) => filled(*content),
        RuleView::Column(_, items) => forall|i: int|
            0 <= i < items.len() ==> filled((#[trigger] items[i]).0),
    }
}

/// Whether `n` holds no placeholder.
pub open spec fn filled(n: NodeView) -> bool
    decreases n, 2nat,
{
    filled_rule(n.rule)
}

/// Whether none of `tokens` is a placeholder.
pub open spec fn placed(tokens: Seq<ListedRuleView>) -> bool {
    forall|i: int| 0 <= i < tokens.len() ==> !((#[trigger] tokens[i]) is Unconfirmed)
}

/// Two sequences without placeholders make one without placeholders.
proof fn lemma_placed_add(a: Seq<ListedRuleView>, b: Seq<ListedRuleView>)
    requires
        placed(a),
        placed(b),
    ensures
        placed(a + b),
{
    assert forall|i: int| 0 <= i < (a + b).len() implies !((#[trigger] (a + b)[i])
        is Unconfirmed) by {
        if i < a.len() {
            assert((a + b)[i] == a[i]);
        } else {
            assert((a + b)[i] == b[i - a.len()]);
        }
    }
}

/// Brackets around tokens without placeholders hold no placeholder.
proof fn lemma_placed_pair(open: ListedRuleView, inner: Seq<ListedRuleView>, close: ListedRuleView)
    requires
        placed(inner),
        open is Open,
        close is Close,
    ensures
        placed(seq![open] + inner + seq![close]),
{
    assert(placed(seq![open]));
    assert(placed(seq![close]));
    lemma_placed_add(seq![open], inner);
    lemma_placed_add(seq![open] + inner, seq![close]);
}

/// The resolved tokens of the elements of a list without placeholders hold
/// none.
proof fn lemma_placed_nodes(children: Seq<NodeView>, n: nat)
    requires
        n <= children.len(),
        forall|i: int| 0 <= i < children.len() ==> filled(#[trigger] children[i]),
    ensures
        placed(list_tokens(children, direct_nodes(children), n)),
    decreases children, n,
{
    if n > 0 {
        lemma_placed_nodes(children, (n - 1) as nat);
        let c = children[n - 1];
        assert(filled(c));
        lemma_placed(c.rule);
        lemma_placed_pair(
            ListedRuleView::Open(OpenRuleView::Contents(c.before_comments)),
            direct(c.rule),
            ListedRuleView::Close(CloseRuleView::Contents(c.after_comment)),
        );
        lemma_placed_add(
            list_tokens(children, direct_nodes(children), (n - 1) as nat),
            in_contents(c, direct(c.rule)),
        );
    }
}

/// The resolved tokens of the tokens of a column without placeholders hold
/// none.
proof fn lemma_placed_column(items: Seq<(NodeView, ColumnConfig)>, n: nat)
    requires
        n <= items.len(),
        forall|i: int| 0 <= i < items.len() ==> filled((#[trigger] items[i]).0),
    ensures
        placed(column_tokens(items, direct_column(items), n)),
    decreases items, n,
{
    if n > 0 {
        lemma_placed_column(items, (n - 1) as nat);
        let c = items[n - 1].0;
        assert(filled(items[n - 1].0));
        lemma_placed(c.rule);
        lemma_placed_pair(
            ListedRuleView::Open(OpenRuleView::ColumnContents(items[n - 1].1, c.before_comments)),
            direct(c.rule),
            ListedRuleView::Close(CloseRuleView::ColumnContents(c.after_comment)),
        );
        lemma_placed_add(
            column_tokens(items, direct_column(items), (n - 1) as nat),
            in_column_contents(c, items[n - 1].1, direct(c.rule)),
        );
    }
}

/// The resolved tokens of a tree without placeholders hold none.
pub proof fn lemma_placed(r: RuleView)
    requires
        filled_rule(r),
    ensures
        placed(direct(r)),
    decreases r, 0nat,
{
    match r {
        RuleView::Unconfirmed(_) => {},
        RuleView::Raw(s) => {
            assert(placed(seq![ListedRuleView::Raw(s)]));
        },
        RuleView::AST(n) => {
            lemma_placed(n.rule);
            if has_comments(*n) {
                lemma_placed_pair(
                    ListedRuleView::Open(OpenRuleView::Contents(n.before_comments)),
                    direct(n.rule),
                    ListedRuleView::Close(CloseRuleView::Contents(n.after_comment)),
                );
            }
        },
        RuleView::Paren(_, open, content, close) => {
            lemma_placed(content.rule);
            lemma_placed_pair(
                ListedRuleView::Open(OpenRuleView::Paren(None, open, content.before_comments)),
                direct(content.rule),
                ListedRuleView::Close(CloseRuleView::Paren(close, content.after_comment)),
            );
        },
        RuleView::List(_, join, children) => {
            lemma_placed_nodes(children, children.len());
            lemma_placed_pair(
                ListedRuleView::Open(OpenRuleView::List(None, join)),
                list_tokens(children, direct_nodes(children), children.len()),
                ListedRuleView::Close(CloseRuleView::List),
            );
        },
        RuleView::Column(_, items) => {
            lemma_placed_column(items, items.len());
            lemma_placed_pair(
                ListedRuleView::Open(OpenRuleView::Column(None)),
                column_tokens(items, direct_column(items), items.len()),
                ListedRuleView::Close(CloseRuleView::Column),
            );
        },
    }
}

/// Round trip through a graph: the graph made for a tree without
/// placeholders, whose tags are distinct and none of which is `root`, yields
/// under `root` the same tree as it comes back.
pub proof fn lemma_new_then_get(r: RuleView)
    requires
        filled_rule(r),
        distinct_tags(r),
        !flatten(r).1.dom().contains(root_tag()),
    ensures
        resolve(flatten(r).1.insert(root_tag(), flatten(r).0), root_tag()) == Some(
            plain(normal_rule(r)),
        ),
{
    let f = flatten(r);
    let store = f.1.insert(root_tag(), f.0);
    lemma_tags(r);
    assert(store.dom() =~= f.1.dom().insert(root_tag()));
    lemma_resolves(r, store, store.len());
    assert(piece(direct(r), 0, direct(r).len()) =~= direct(r));
    lemma_inflates(r, direct(r), 0);
    lemma_placed(r);
}

} // verus!
