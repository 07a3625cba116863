//! What holds of a graph from call to call: a tag whose placeholder a walk
//! from `root` reaches once is confirmed once, and lines once handed out are
//! not made again.

use vstd::prelude::*;
use crate::dynamic::format::{advance, advance_from, ready_unit, settled, unit_end_from};
use crate::dynamic::graph::{
    awaits, confirm, confirm_scan, confirmed_form, reference, root_tag,
};
use crate::dynamic::resolve::{flat, flat_body, flat_token};
use crate::dynamic::{ListedRuleView, Store};
use crate::{CommentSpec, ContextView};

verus! {

/// Whether token `i` of the body under `k` holds the place of `target`.
pub open spec fn is_mark(store: Store, target: Seq<char>, k: Seq<char>, i: int) -> bool {
    store.dom().contains(k) && 0 <= i < store[k].len() && awaits(store[k][i], target)
}

/// Whether token `i` of the body under `k` refers to the tag `to` of the
/// graph.
pub open spec fn refers(store: Store, k: Seq<char>, i: int, to: Seq<char>) -> bool {
    &&& store.dom().contains(k)
    &&& 0 <= i < store[k].len()
    &&& reference(store[k][i]) == Some(to)
    &&& store.dom().contains(to)
}

/// Whether the body under `k` refers to the tag `to` of the graph.
pub open spec fn links(store: Store, k: Seq<char>, to: Seq<char>) -> bool {
    exists|i: int| refers(store, k, i, to)
}

/// Whether `path` leads from `root` along references of the graph.
pub open spec fn is_path(store: Store, path: Seq<Seq<char>>) -> bool {
    &&& path.len() >= 1
    &&& path[0] == root_tag()
    &&& store.dom().contains(root_tag())
    &&& forall|j: int| 0 <= j < path.len() - 1 ==> links(store, #[trigger] path[j], path[j + 1])
}

/// Whether a walk from `root` along references of the graph can come to the
/// body under `k`.
pub open spec fn reachable(store: Store, k: Seq<char>) -> bool {
    exists|path: Seq<Seq<char>>| is_path(store, path) && #[trigger] path.last() == k
}

/// Whether token `i` of the body under `k` holds the place of `target` where
/// a walk from `root` can come.
pub open spec fn is_reachable_mark(store: Store, target: Seq<char>, k: Seq<char>, i: int) -> bool {
    is_mark(store, target, k, i) && reachable(store, k)
}

/// Whether a walk from `root` can come to one placeholder of `target` at
/// most.
pub open spec fn single_mark(store: Store, target: Seq<char>) -> bool {
    forall|k1: Seq<char>, i1: int, k2: Seq<char>, i2: int|
        #[trigger] is_reachable_mark(store, target, k1, i1) && #[trigger] is_reachable_mark(
            store,
            target,
            k2,
            i2,
        ) ==> k1 == k2 && i1 == i2
}

/// Whether a walk from `root` can come to no placeholder of `target`.
pub open spec fn clean(store: Store, target: Seq<char>) -> bool {
    forall|k: Seq<char>, i: int| !#[trigger] is_reachable_mark(store, target, k, i)
}

/// Whether `rank` falls along every reference that a walk from `root` can
/// follow: no body that the walk can come to is reached from itself.
pub open spec fn ranked(store: Store, rank: spec_fn(Seq<char>) -> nat) -> bool {
    forall|k: Seq<char>, i: int, to: Seq<char>|
        #[trigger] refers(store, k, i, to) && reachable(store, k) ==> rank(to) < rank(k)
}

/// Whether a walk from `root` can come to a placeholder of `target` in a
/// body of rank `bound` at most.
pub open spec fn marked_below(
    store: Store,
    target: Seq<char>,
    rank: spec_fn(Seq<char>) -> nat,
    bound: nat,
) -> bool {
    exists|k: Seq<char>, i: int|
        #[trigger] is_reachable_mark(store, target, k, i) && rank(k) <= bound
}

/// Whether every reference of `after` is a reference of `before`.
pub open spec fn sublinks(after: Store, before: Store) -> bool {
    forall|k: Seq<char>, to: Seq<char>| #[trigger] links(after, k, to) ==> links(before, k, to)
}

/// Whether no token of the bodies of `after` that a walk through `before`
/// can come to holds the place of `target`.
pub open spec fn unmarked(after: Store, before: Store, target: Seq<char>) -> bool {
    forall|k: Seq<char>, i: int| reachable(before, k) ==> !#[trigger] is_mark(after, target, k, i)
}

/// The confirmed form of a placeholder holds no placeholder, and refers to
/// the target alone.
proof fn lemma_form(t: ListedRuleView, target: Seq<char>, i: int)
    requires
        0 <= i < confirmed_form(t, target).len(),
    ensures
        !awaits(confirmed_form(t, target)[i], target),
        reference(confirmed_form(t, target)[i]) is Some ==> reference(
            confirmed_form(t, target)[i],
        ) == Some(target),
{
}

/// A walk that has come to a body can follow its references.
proof fn lemma_reach_step(store: Store, k: Seq<char>, i: int, to: Seq<char>)
    requires
        reachable(store, k),
        refers(store, k, i, to),
    ensures
        reachable(store, to),
{
    let path = choose|path: Seq<Seq<char>>| is_path(store, path) && #[trigger] path.last() == k;
    let longer = path.push(to);
    assert forall|j: int| 0 <= j < longer.len() - 1 implies links(
        store,
        #[trigger] longer[j],
        longer[j + 1],
    ) by {
        if j < path.len() - 1 {
            assert(links(store, path[j], path[j + 1]));
        }
    }
    assert(is_path(store, longer) && longer.last() == to);
}

/// A walk starts at `root`.
proof fn lemma_reach_root(store: Store)
    requires
        store.dom().contains(root_tag()),
    ensures
        reachable(store, root_tag()),
{
    let path = seq![root_tag()];
    assert(is_path(store, path) && path.last() == root_tag());
}

/// Where every reference of `after` is one of `before`, a walk through
/// `after` is a walk through `before`.
proof fn lemma_reach_back(after: Store, before: Store, k: Seq<char>)
    requires
        sublinks(after, before),
        after.dom() == before.dom(),
        reachable(after, k),
    ensures
        reachable(before, k),
{
    let path = choose|path: Seq<Seq<char>>| is_path(after, path) && #[trigger] path.last() == k;
    assert forall|j: int| 0 <= j < path.len() - 1 implies links(
        before,
        #[trigger] path[j],
        path[j + 1],
    ) by {
        assert(links(after, path[j], path[j + 1]));
    }
    assert(is_path(before, path) && path.last() == k);
}

/// Where a walk can come to no placeholder of `target`, a walk over a body
/// that it can come to finds nothing and changes nothing.
proof fn lemma_clean_scan(store: Store, target: Seq<char>, k: Seq<char>, fuel: nat, n: nat)
    requires
        clean(store, target),
        reachable(store, k),
        store.dom().contains(k),
        n <= store[k].len(),
    ensures
        !confirm_scan(store[k], store, target, fuel, n).done,
        confirm_scan(store[k], store, target, fuel, n).store == store,
    decreases fuel, n,
{
    let tokens = store[k];
    if n > 0 {
        lemma_clean_scan(store, target, k, fuel, (n - 1) as nat);
        let t = tokens[n - 1];
        assert(!is_reachable_mark(store, target, k, n - 1));
        match reference(t) {
            Some(tag) => {
                if store.contains_key(tag) && fuel > 0 {
                    assert(refers(store, k, n - 1, tag));
                    lemma_reach_step(store, k, n - 1, tag);
                    lemma_clean_scan(store, target, tag, (fuel - 1) as nat, store[tag].len());
                }
            },
            None => {},
        }
    }
}

/// What the rewrite of the placeholder at position `at` of the body under
/// `k` leaves: the same tags, no reference that was not there, and no
/// placeholder where a walk can come.
proof fn lemma_rewrite_here(store: Store, target: Seq<char>, k: Seq<char>, at: int)
    requires
        store.dom().contains(k),
        reachable(store, k),
        single_mark(store, target),
        is_mark(store, target, k, at),
    ensures
        ({
            let tokens = store[k];
            let body = tokens.take(at) + confirmed_form(tokens[at], target) + tokens.skip(at + 1);
            let after = store.insert(k, body);
            &&& after.dom() == store.dom()
            &&& sublinks(after, store)
            &&& unmarked(after, store, target)
        }),
{
    let tokens = store[k];
    let form = confirmed_form(tokens[at], target);
    let body = tokens.take(at) + form + tokens.skip(at + 1);
    let after = store.insert(k, body);
    assert(after.dom() =~= store.dom());
    assert(is_reachable_mark(store, target, k, at));
    assert forall|k2: Seq<char>, to: Seq<char>| #[trigger] links(after, k2, to) implies links(
        store,
        k2,
        to,
    ) by {
        let i = choose|i: int| refers(after, k2, i, to);
        if k2 == k {
            if i < at {
                assert(body[i] == tokens[i]);
                assert(refers(store, k, i, to));
            } else if i < at + form.len() {
                assert(body[i] == form[i - at]);
                lemma_form(tokens[at], target, i - at);
                assert(refers(store, k, at, to));
            } else {
                let j = i - form.len() + 1;
                assert(body[i] == tokens[j]);
                assert(refers(store, k, j, to));
            }
        } else {
            assert(refers(store, k2, i, to));
        }
    }
    assert forall|k2: Seq<char>, i2: int| reachable(store, k2) implies !#[trigger] is_mark(
        after,
        target,
        k2,
        i2,
    ) by {
        if is_mark(after, target, k2, i2) {
            if k2 == k {
                if i2 < at {
                    assert(body[i2] == tokens[i2]);
                    assert(is_reachable_mark(store, target, k, i2));
                } else if i2 < at + form.len() {
                    assert(body[i2] == form[i2 - at]);
                    lemma_form(tokens[at], target, i2 - at);
                } else {
                    let j = i2 - form.len() + 1;
                    assert(body[i2] == tokens[j]);
                    assert(is_reachable_mark(store, target, k, j));
                }
            } else {
                assert(is_reachable_mark(store, target, k2, i2));
            }
        }
    }
}

/// What a rewrite below the body under `k` leaves once that body, which holds
/// no placeholder, stands under `k` again.
proof fn lemma_rewrite_below(store: Store, inner: Store, target: Seq<char>, k: Seq<char>)
    requires
        store.dom().contains(k),
        inner.dom() == store.dom(),
        sublinks(inner, store),
        unmarked(inner, store, target),
        forall|i: int| 0 <= i < store[k].len() ==> !awaits(#[trigger] store[k][i], target),
    ensures
        inner.insert(k, store[k]).dom() == store.dom(),
        sublinks(inner.insert(k, store[k]), store),
        unmarked(inner.insert(k, store[k]), store, target),
{
    let after = inner.insert(k, store[k]);
    assert(after.dom() =~= store.dom());
    assert forall|k2: Seq<char>, to: Seq<char>| #[trigger] links(after, k2, to) implies links(
        store,
        k2,
        to,
    ) by {
        let i = choose|i: int| refers(after, k2, i, to);
        if k2 == k {
            assert(refers(store, k, i, to));
        } else {
            assert(refers(inner, k2, i, to));
            assert(links(inner, k2, to));
        }
    }
    assert forall|k2: Seq<char>, i2: int| reachable(store, k2) implies !#[trigger] is_mark(
        after,
        target,
        k2,
        i2,
    ) by {
        if is_mark(after, target, k2, i2) {
            if k2 != k {
                assert(is_mark(inner, target, k2, i2));
            }
        }
    }
}

/// What a walk over the body under `k` comes to, where a walk from `root`
/// can come to `k` and to one placeholder of `target` at most, and no body
/// on its way is reached from itself. A walk that has found the placeholder
/// leaves none where a walk can come, once the rewritten body stands under
/// `k`; a walk that has not has copied what it passed.
proof fn lemma_scan_confirms(
    store: Store,
    target: Seq<char>,
    rank: spec_fn(Seq<char>) -> nat,
    k: Seq<char>,
    fuel: nat,
    n: nat,
)
    requires
        store.dom().contains(k),
        reachable(store, k),
        single_mark(store, target),
        ranked(store, rank),
        n <= store[k].len(),
    ensures
        ({
            let tokens = store[k];
            let s = confirm_scan(tokens, store, target, fuel, n);
            let after = s.store.insert(k, s.out + tokens.skip(n as int));
            if s.done {
                &&& after.dom() == store.dom()
                &&& sublinks(after, store)
                &&& unmarked(after, store, target)
                &&& marked_below(store, target, rank, rank(k))
            } else {
                &&& s.store == store
                &&& s.out == tokens.take(n as int)
                &&& forall|i: int| 0 <= i < n ==> !awaits(#[trigger] tokens[i], target)
            }
        }),
    decreases fuel, n,
{
    let tokens = store[k];
    if n == 0 {
        assert(tokens.take(0) =~= Seq::<ListedRuleView>::empty());
    } else {
        lemma_scan_confirms(store, target, rank, k, fuel, (n - 1) as nat);
        let prev = confirm_scan(tokens, store, target, fuel, (n - 1) as nat);
        let t = tokens[n - 1];
        if prev.done {
            assert(prev.out.push(t) + tokens.skip(n as int) =~= prev.out + tokens.skip(n - 1));
        } else if awaits(t, target) {
            assert(is_reachable_mark(store, target, k, n - 1));
            lemma_rewrite_here(store, target, k, n - 1);
            assert(tokens.skip(n - 1 + 1) =~= tokens.skip(n as int));
        } else {
            assert(tokens.take(n as int) =~= tokens.take(n - 1).push(t));
            match reference(t) {
                Some(tag) => {
                    if store.contains_key(tag) && fuel > 0 {
                        assert(refers(store, k, n - 1, tag));
                        lemma_reach_step(store, k, n - 1, tag);
                        lemma_scan_confirms(
                            store,
                            target,
                            rank,
                            tag,
                            (fuel - 1) as nat,
                            store[tag].len(),
                        );
                        let inner = confirm_scan(
                            store[tag],
                            store,
                            target,
                            (fuel - 1) as nat,
                            store[tag].len(),
                        );
                        if inner.done {
                            assert(store[tag].skip(store[tag].len() as int) =~= Seq::<
                                ListedRuleView,
                            >::empty());
                            assert(inner.out + Seq::<ListedRuleView>::empty() =~= inner.out);
                            assert(tokens.take(n as int) + tokens.skip(n as int) =~= tokens);
                            let (k1, i1) = choose|k1: Seq<char>, i1: int| #[trigger]
                                is_reachable_mark(store, target, k1, i1) && rank(k1) <= rank(tag);
                            assert forall|i: int| 0 <= i < tokens.len() implies !awaits(
                                #[trigger] tokens[i],
                                target,
                            ) by {
                                if awaits(tokens[i], target) {
                                    assert(is_reachable_mark(store, target, k, i));
                                    assert(is_reachable_mark(store, target, k1, i1));
                                }
                            }
                            lemma_rewrite_below(
                                store,
                                inner.store.insert(tag, inner.out),
                                target,
                                k,
                            );
                            assert(is_reachable_mark(store, target, k1, i1) && rank(k1) <= rank(
                                k,
                            ));
                        }
                    }
                },
                None => {},
            }
        }
    }
}

/// Confirming once is enough: where a walk from `root` can come to one
/// placeholder of `target` at most, and no body on its way is reached from
/// itself, a second `confirm` right after the first finds nothing and leaves
/// the graph as the first left it.
pub proof fn lemma_confirmed_once(store: Store, target: Seq<char>, rank: spec_fn(Seq<char>) -> nat)
    requires
        single_mark(store, target),
        ranked(store, rank),
    ensures
        confirm(confirm(store, target).0, target) == (confirm(store, target).0, false),
{
    if store.contains_key(root_tag()) {
        let tokens = store[root_tag()];
        let s = confirm_scan(tokens, store, target, store.len(), tokens.len());
        if s.done {
            lemma_reach_root(store);
            lemma_scan_confirms(store, target, rank, root_tag(), store.len(), tokens.len());
            assert(tokens.skip(tokens.len() as int) =~= Seq::<ListedRuleView>::empty());
            assert(s.out + Seq::<ListedRuleView>::empty() =~= s.out);
            let after = s.store.insert(root_tag(), s.out);
            assert forall|k: Seq<char>, i: int| !#[trigger] is_reachable_mark(
                after,
                target,
                k,
                i,
            ) by {
                if is_reachable_mark(after, target, k, i) {
                    lemma_reach_back(after, store, k);
                    assert(!is_mark(after, target, k, i));
                }
            }
            lemma_reach_root(after);
            lemma_clean_scan(after, target, root_tag(), after.len(), after[root_tag()].len());
        }
    }
}

/// Whether no token of the graph refers to `entry`.
pub open spec fn unreferenced(store: Store, entry: Seq<char>) -> bool {
    forall|k: Seq<char>, i: int|
        store.dom().contains(k) && 0 <= i < store[k].len() ==> reference(#[trigger] store[k][i])
            != Some(entry)
}

/// Whether two graphs differ under `entry` at most.
pub open spec fn same_but(a: Store, b: Store, entry: Seq<char>) -> bool {
    &&& a.dom() == b.dom()
    &&& forall|k: Seq<char>| a.dom().contains(k) && k != entry ==> #[trigger] a[k] == b[k]
}

/// Whether none of `tokens` refers to `entry`.
pub open spec fn off(tokens: Seq<ListedRuleView>, entry: Seq<char>) -> bool {
    forall|i: int| 0 <= i < tokens.len() ==> reference(#[trigger] tokens[i]) != Some(entry)
}

/// No body of a graph without references to `entry` refers to `entry`.
proof fn lemma_bodies_off(store: Store, entry: Seq<char>, k: Seq<char>)
    requires
        unreferenced(store, entry),
        store.dom().contains(k),
    ensures
        off(store[k], entry),
{
    assert forall|i: int| 0 <= i < store[k].len() implies reference(#[trigger] store[k][i])
        != Some(entry) by {}
}

/// What is settled does not depend on the body under `entry`, where nothing
/// refers to `entry`.
proof fn lemma_settled_off(
    tokens: Seq<ListedRuleView>,
    a: Store,
    b: Store,
    entry: Seq<char>,
    fuel: nat,
    n: nat,
)
    requires
        unreferenced(a, entry),
        same_but(a, b, entry),
        off(tokens, entry),
        n <= tokens.len(),
    ensures
        settled(tokens, a, fuel, n) == settled(tokens, b, fuel, n),
    decreases fuel, n,
{
    if n > 0 {
        lemma_settled_off(tokens, a, b, entry, fuel, (n - 1) as nat);
        match tokens[n - 1] {
            ListedRuleView::Link(tag) => {
                assert(reference(tokens[n - 1]) == Some(tag));
                if a.contains_key(tag) && fuel > 0 {
                    assert(a[tag] == b[tag]);
                    lemma_bodies_off(a, entry, tag);
                    lemma_settled_off(a[tag], a, b, entry, (fuel - 1) as nat, a[tag].len());
                }
            },
            _ => {},
        }
    }
}

/// What tokens resolve to does not depend on the body under `entry`, where
/// nothing refers to `entry`.
proof fn lemma_flat_off(
    tokens: Seq<ListedRuleView>,
    a: Store,
    b: Store,
    entry: Seq<char>,
    fuel: nat,
)
    requires
        unreferenced(a, entry),
        same_but(a, b, entry),
        off(tokens, entry),
    ensures
        flat(tokens, a, fuel) == flat(tokens, b, fuel),
    decreases fuel, tokens.len(),
{
    if tokens.len() > 0 {
        assert(off(tokens.drop_last(), entry)) by {
            assert forall|i: int| 0 <= i < tokens.drop_last().len() implies reference(
                #[trigger] tokens.drop_last()[i],
            ) != Some(entry) by {
                assert(tokens.drop_last()[i] == tokens[i]);
            }
        }
        lemma_flat_off(tokens.drop_last(), a, b, entry, fuel);
        let t = tokens.last();
        assert(t == tokens[tokens.len() - 1]);
        match reference(t) {
            Some(tag) => {
                if a.contains_key(tag) && fuel > 0 {
                    assert(a[tag] == b[tag]);
                    lemma_bodies_off(a, entry, tag);
                    lemma_flat_off(a[tag], a, b, entry, (fuel - 1) as nat);
                }
                assert(flat_body(tag, a, fuel) == flat_body(tag, b, fuel));
                assert(flat_token(t, a, fuel) == flat_token(t, b, fuel));
            },
            None => {
                assert(flat_token(t, a, fuel) == flat_token(t, b, fuel));
            },
        }
    }
}

/// Where a unit ends does not depend on what stands before it.
proof fn lemma_unit_end_shift(tokens: Seq<ListedRuleView>, from: nat, pos: nat, depth: nat)
    requires
        from <= tokens.len(),
    ensures
        unit_end_from(tokens.subrange(from as int, tokens.len() as int), pos, depth)
            == match unit_end_from(tokens, from + pos, depth) {
            Some(end) => Some((end - from) as nat),
            None => None,
        },
        unit_end_from(tokens, from + pos, depth) matches Some(end) ==> end > from + pos,
    decreases tokens.len() - from - pos,
{
    let rest = tokens.subrange(from as int, tokens.len() as int);
    if pos < rest.len() {
        assert(rest[pos as int] == tokens[(from + pos) as int]);
        lemma_unit_end_shift(tokens, from, pos + 1, depth);
        lemma_unit_end_shift(tokens, from, pos + 1, depth + 1);
        if depth > 0 {
            lemma_unit_end_shift(tokens, from, pos + 1, (depth - 1) as nat);
        }
    }
}

/// The walk of the incremental formatter ends in front of a unit that is not
/// ready.
proof fn lemma_advance_ends_blocked(
    fmt: CommentSpec,
    ctx: ContextView,
    tokens: Seq<ListedRuleView>,
    store: Store,
    start: nat,
)
    requires
        start <= tokens.len(),
    ensures
        ready_unit(tokens, store, advance_from(fmt, ctx, tokens, store, start).1) is None,
        start <= advance_from(fmt, ctx, tokens, store, start).1 <= tokens.len(),
    decreases tokens.len() - start,
{
    match ready_unit(tokens, store, start) {
        Some((n, end)) => {
            lemma_advance_ends_blocked(fmt, ctx, tokens, store, end);
        },
        None => {},
    }
}

/// Lines once handed out are not made again: where nothing in the graph
/// refers to `entry`, a second step of the incremental formatter right after
/// the first yields no line and leaves the graph as the first left it.
pub proof fn lemma_advance_settles(
    fmt: CommentSpec,
    ctx: ContextView,
    store: Store,
    entry: Seq<char>,
)
    requires
        unreferenced(store, entry),
    ensures
        advance(fmt, ctx, advance(fmt, ctx, store, entry).1, entry) == (
            Seq::<Seq<char>>::empty(),
            advance(fmt, ctx, store, entry).1,
        ),
{
    if store.contains_key(entry) {
        let tokens = store[entry];
        let at = advance_from(fmt, ctx, tokens, store, 0).1;
        lemma_advance_ends_blocked(fmt, ctx, tokens, store, 0);
        let rest = tokens.subrange(at as int, tokens.len() as int);
        let after = store.insert(entry, rest);
        assert(after.dom() =~= store.dom());
        assert(same_but(store, after, entry));
        lemma_unit_end_shift(tokens, at, 0, 0);
        match unit_end_from(tokens, at, 0) {
            Some(end) => {
                if at < end <= tokens.len() {
                    let unit = tokens.subrange(at as int, end as int);
                    let shifted = rest.subrange(0, end - at);
                    assert(shifted =~= unit);
                    lemma_bodies_off(store, entry, entry);
                    assert(off(unit, entry)) by {
                        assert forall|i: int| 0 <= i < unit.len() implies reference(
                            #[trigger] unit[i],
                        ) != Some(entry) by {
                            assert(unit[i] == tokens[at + i]);
                        }
                    }
                    lemma_settled_off(unit, store, after, entry, store.len(), unit.len());
                    lemma_flat_off(unit, store, after, entry, store.len());
                }
            },
            None => {},
        }
        assert(ready_unit(rest, after, 0) is None);
        assert(rest.subrange(0, rest.len() as int) =~= rest);
        assert(after.insert(entry, rest) =~= after);
    }
}

} // verus!
