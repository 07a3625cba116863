//! What a column keeps of its tokens: packing takes no character that is not
//! a blank away, adds none, and leaves them in their order.

use vstd::prelude::*;
use crate::text::{blanks, concat_all, width};
use crate::tree::format::{
    column_layout, gapped, join_two, pack, pack_step, prefer_settled_join, Packing, Rendered,
};
use crate::{ColumnConfig, CommentSpec, ContextView};

verus! {

/// Whether a character is no blank.
pub open spec fn is_ink() -> spec_fn(char) -> bool {
    |c: char| c != ' '
}

/// The characters of `s` that are no blanks, in their order.
pub open spec fn ink(s: Seq<char>) -> Seq<char> {
    s.filter(is_ink())
}

/// The lines of the first `n` tokens, one after the other.
pub open spec fn token_text(items: Seq<(Rendered, ColumnConfig)>, n: nat) -> Seq<char>
    decreases n,
{
    if n == 0 {
        Seq::empty()
    } else {
        token_text(items, (n - 1) as nat) + concat_all(items[n - 1].0.0)
    }
}

/// What a packing holds: the lines that are out and both buffers, one after
/// the other.
pub open spec fn held(st: Packing) -> Seq<char> {
    concat_all(st.out) + st.settled + st.provisional
}

/// The ink of two texts is the ink of the one and then of the other.
pub proof fn lemma_ink_add(a: Seq<char>, b: Seq<char>)
    ensures
        ink(a + b) == ink(a) + ink(b),
{
    Seq::filter_distributes_over_add(a, b, is_ink());
}

/// Blanks hold no ink.
pub proof fn lemma_ink_blanks(n: nat)
    ensures
        ink(blanks(n)) == Seq::<char>::empty(),
{
    blanks(n).lemma_all_neg_filter_empty(is_ink());
}

/// Nothing holds no ink.
pub proof fn lemma_ink_empty()
    ensures
        ink(Seq::<char>::empty()) == Seq::<char>::empty(),
{
    lemma_ink_blanks(0);
    assert(blanks(0) =~= Seq::<char>::empty());
}

/// The lines with one more line, one after the other.
pub proof fn lemma_concat_all_push(lines: Seq<Seq<char>>, x: Seq<char>)
    ensures
        concat_all(lines.push(x)) == concat_all(lines) + x,
{
    assert(lines.push(x).drop_last() =~= lines);
}

/// Two runs of lines, one after the other.
pub proof fn lemma_concat_all_add(a: Seq<Seq<char>>, b: Seq<Seq<char>>)
    ensures
        concat_all(a + b) == concat_all(a) + concat_all(b),
    decreases b.len(),
{
    if b.len() == 0 {
        assert(a + b =~= a);
        assert(concat_all(a) + concat_all(b) =~= concat_all(a));
    } else {
        assert((a + b).drop_last() =~= a + b.drop_last());
        lemma_concat_all_add(a, b.drop_last());
        assert(concat_all(a + b) =~= concat_all(a) + concat_all(b));
    }
}

/// The ink of a text with its gap is the ink of the text.
proof fn lemma_ink_gapped(a: Seq<char>, gap: nat)
    ensures
        ink(gapped(a, gap)) == ink(a),
{
    lemma_ink_add(a, blanks(gap));
    lemma_ink_blanks(gap);
    lemma_ink_empty();
    assert(ink(a) + Seq::<char>::empty() =~= ink(a));
}

/// The ink of two joined buffers is the ink of the one and then of the
/// other.
proof fn lemma_ink_join_two(a: Seq<char>, gap: nat, b: Seq<char>)
    ensures
        ink(join_two(a, gap, b)) == ink(a) + ink(b),
{
    lemma_ink_add(a, blanks(gap));
    lemma_ink_add(a + blanks(gap), b);
    lemma_ink_blanks(gap);
    lemma_ink_empty();
    assert(ink(a) + Seq::<char>::empty() =~= ink(a));
    assert(Seq::<char>::empty() + ink(b) =~= ink(b));
}

/// The ink of what a packing holds: that of its lines, then of its buffers.
pub open spec fn ink_held(st: Packing) -> Seq<char> {
    ink(concat_all(st.out)) + ink(st.settled) + ink(st.provisional)
}

/// The ink of what a packing holds is that of its lines, then of its
/// buffers.
proof fn lemma_ink_held(st: Packing)
    ensures
        ink(held(st)) == ink_held(st),
{
    lemma_ink_add(concat_all(st.out) + st.settled, st.provisional);
    lemma_ink_add(concat_all(st.out), st.settled);
}

/// The ink of lines with one more line.
proof fn lemma_ink_push(out: Seq<Seq<char>>, x: Seq<char>)
    ensures
        ink(concat_all(out.push(x))) == ink(concat_all(out)) + ink(x),
{
    lemma_concat_all_push(out, x);
    lemma_ink_add(concat_all(out), x);
}

/// The ink of both buffers merged with a text.
proof fn lemma_ink_merged(st: Packing, text: Seq<char>)
    ensures
        ink(st.merged(text)) == ink(st.settled) + ink(st.provisional) + ink(text),
{
    let a = gapped(st.settled, st.settled_gap);
    let b = gapped(st.provisional, st.provisional_gap);
    lemma_ink_gapped(st.settled, st.settled_gap);
    lemma_ink_gapped(st.provisional, st.provisional_gap);
    lemma_ink_add(a, b);
    lemma_ink_add(a + b, text);
}

/// The ink of the provisional buffer joined with a text.
proof fn lemma_ink_tail(st: Packing, text: Seq<char>)
    ensures
        ink(st.tail_joined(text)) == ink(st.provisional) + ink(text),
{
    if st.provisional.len() == 0 {
        assert(st.provisional =~= Seq::<char>::empty());
        lemma_ink_empty();
        assert(Seq::<char>::empty() + ink(text) =~= ink(text));
    } else {
        lemma_ink_add(st.provisional, blanks(st.provisional_gap));
        lemma_ink_add(st.provisional + blanks(st.provisional_gap), text);
        lemma_ink_blanks(st.provisional_gap);
        assert(ink(st.provisional) + Seq::<char>::empty() =~= ink(st.provisional));
    }
}

/// The ink held after the lines `out`, the settled buffer `settled` and an
/// empty provisional buffer.
proof fn lemma_ink_seeded(out: Seq<Seq<char>>, settled: Seq<char>, gap: nat, trailing: bool)
    ensures
        ink_held(Packing::seeded(out, settled, gap, trailing)) == ink(concat_all(out)) + ink(
            settled,
        ),
        ink_held(Packing::flushed(out, trailing)) == ink(concat_all(out)),
{
    lemma_ink_empty();
    assert(ink(concat_all(out)) + ink(settled) + Seq::<char>::empty() =~= ink(concat_all(out))
        + ink(settled));
    assert(ink(concat_all(out)) + Seq::<char>::empty() + Seq::<char>::empty() =~= ink(
        concat_all(out),
    ));
}

/// A token of several lines adds its ink behind what was held.
proof fn lemma_broken_token_keeps_ink(st: Packing, item: (Rendered, ColumnConfig), max: nat)
    requires
        st.provisional.len() > 0 ==> st.settled.len() > 0,
        item.0.0.len() > 1,
    ensures
        ink_held(pack_step(st, item, max)) == ink_held(st) + ink(concat_all(item.0.0)),
{
    let lines = item.0.0;
    let out = if st.settled.len() > 0 {
        st.out.push(st.joined())
    } else {
        st.out
    };
    assert(ink(concat_all(out)) == ink_held(st)) by {
        lemma_ink_empty();
        if st.settled.len() > 0 {
            lemma_ink_push(st.out, st.joined());
            lemma_ink_join_two(st.settled, st.settled_gap, st.provisional);
            assert(ink(concat_all(st.out)) + (ink(st.settled) + ink(st.provisional)) =~= ink_held(
                st,
            ));
        } else {
            assert(st.settled =~= Seq::<char>::empty());
            assert(st.provisional =~= Seq::<char>::empty());
            assert(ink(concat_all(st.out)) + Seq::<char>::empty() + Seq::<char>::empty() =~= ink(
                concat_all(st.out),
            ));
        }
    }
    if item.0.1 {
        lemma_concat_all_add(out, lines);
        lemma_ink_add(concat_all(out), concat_all(lines));
        lemma_ink_seeded(out + lines, Seq::empty(), 0, true);
    } else {
        lemma_concat_all_add(out, lines.drop_last());
        lemma_ink_add(concat_all(out), concat_all(lines.drop_last()));
        lemma_ink_add(concat_all(lines.drop_last()), lines.last());
        lemma_ink_seeded(out + lines.drop_last(), lines.last(), item.1.gap(), false);
        let o = ink(concat_all(out));
        let d = ink(concat_all(lines.drop_last()));
        let l = ink(lines.last());
        assert((o + d) + l =~= o + (d + l));
    }
}

/// A token of one line that fits adds its ink behind what was held.
proof fn lemma_fitting_token_keeps_ink(st: Packing, item: (Rendered, ColumnConfig), max: nat)
    requires
        st.provisional.len() > 0 ==> st.settled.len() > 0,
        item.0.0.len() <= 1,
        st.fits(concat_all(item.0.0), max),
    ensures
        ink_held(pack_step(st, item, max)) == ink_held(st) + ink(concat_all(item.0.0)),
{
    let text = concat_all(item.0.0);
    let o = ink(concat_all(st.out));
    let s = ink(st.settled);
    let p = ink(st.provisional);
    let t = ink(text);
    lemma_ink_empty();
    match item.1.is_break {
        Some(true) => {
            lemma_ink_push(st.out, st.merged(text));
            lemma_ink_merged(st, text);
            lemma_ink_seeded(st.out.push(st.merged(text)), Seq::empty(), 0, item.0.1);
            assert(o + (s + p + t) =~= o + s + p + t);
        },
        Some(false) => {
            if st.settled.len() == 0 {
                assert(st.settled =~= Seq::<char>::empty());
                assert(st.provisional =~= Seq::<char>::empty());
                assert(o + t + Seq::<char>::empty() =~= o + Seq::<char>::empty() + Seq::<
                    char,
                >::empty() + t);
            } else {
                lemma_ink_tail(st, text);
                assert(o + s + (p + t) =~= o + s + p + t);
            }
        },
        None => {
            lemma_ink_merged(st, text);
            lemma_ink_seeded(st.out, st.merged(text), item.1.gap(), item.0.1);
            assert(o + (s + p + t) =~= o + s + p + t);
        },
    }
}

/// A token of one line that does not fit adds its ink behind what was held.
proof fn lemma_overflowing_token_keeps_ink(st: Packing, item: (Rendered, ColumnConfig), max: nat)
    requires
        st.provisional.len() > 0 ==> st.settled.len() > 0,
        item.0.0.len() <= 1,
        !st.fits(concat_all(item.0.0), max),
    ensures
        ink_held(pack_step(st, item, max)) == ink_held(st) + ink(concat_all(item.0.0)),
{
    let text = concat_all(item.0.0);
    let o = ink(concat_all(st.out));
    let s = ink(st.settled);
    let p = ink(st.provisional);
    let t = ink(text);
    lemma_ink_empty();
    if st.provisional.len() == 0 {
        assert(st.provisional =~= Seq::<char>::empty());
        lemma_ink_push(st.out, st.settled);
        lemma_ink_seeded(st.out.push(st.settled), text, item.1.gap(), item.0.1);
        assert(o + s + t =~= o + s + Seq::<char>::empty() + t);
    } else if prefer_settled_join(
        width(st.settled) + st.settled_gap + width(st.provisional),
        width(st.provisional) + st.provisional_gap + width(text),
        max,
    ) {
        lemma_ink_push(st.out, st.joined());
        lemma_ink_join_two(st.settled, st.settled_gap, st.provisional);
        lemma_ink_seeded(st.out.push(st.joined()), text, item.1.gap(), item.0.1);
        assert(o + (s + p) + t =~= o + s + p + t);
    } else {
        lemma_ink_push(st.out, st.settled);
        lemma_ink_push(st.out.push(st.settled), st.tail_joined(text));
        lemma_ink_tail(st, text);
        lemma_ink_seeded(
            st.out.push(st.settled).push(st.tail_joined(text)),
            Seq::empty(),
            0,
            item.0.1,
        );
        assert(o + s + (p + t) =~= o + s + p + t);
    }
}

/// One step of packing adds the ink of the token behind what was held, and
/// nothing else.
proof fn lemma_step_keeps_ink(st: Packing, item: (Rendered, ColumnConfig), max: nat)
    requires
        st.provisional.len() > 0 ==> st.settled.len() > 0,
    ensures
        ink(held(pack_step(st, item, max))) == ink(held(st)) + ink(concat_all(item.0.0)),
        pack_step(st, item, max).provisional.len() > 0 ==> pack_step(
            st,
            item,
            max,
        ).settled.len() > 0,
{
    lemma_ink_held(st);
    lemma_ink_held(pack_step(st, item, max));
    if item.0.0.len() > 1 {
        lemma_broken_token_keeps_ink(st, item, max);
    } else if st.fits(concat_all(item.0.0), max) {
        lemma_fitting_token_keeps_ink(st, item, max);
    } else {
        lemma_overflowing_token_keeps_ink(st, item, max);
    }
}

/// Packing keeps the ink of the tokens it has taken, in their order.
pub proof fn lemma_pack_keeps_ink(items: Seq<(Rendered, ColumnConfig)>, max: nat, n: nat)
    requires
        n <= items.len(),
    ensures
        ink(held(pack(items, max, n))) == ink(token_text(items, n)),
        pack(items, max, n).provisional.len() > 0 ==> pack(items, max, n).settled.len() > 0,
    decreases n,
{
    if n == 0 {
        assert(held(Packing::start()) =~= Seq::<char>::empty());
    } else {
        lemma_pack_keeps_ink(items, max, (n - 1) as nat);
        lemma_step_keeps_ink(pack(items, max, (n - 1) as nat), items[n - 1], max);
        lemma_ink_add(token_text(items, (n - 1) as nat), concat_all(items[n - 1].0.0));
    }
}

/// A column loses, repeats and reorders nothing: the characters of the lines
/// of a column without comments of its own that are no blanks are those of
/// its tokens, in the order of the tokens.
pub proof fn lemma_column_keeps_tokens(
    fmt: CommentSpec,
    ctx: ContextView,
    items: Seq<(Rendered, ColumnConfig)>,
)
    ensures
        ink(concat_all(column_layout(fmt, ctx, Seq::empty(), items, None).0)) == ink(
            token_text(items, items.len()),
        ),
{
    let st = pack(items, ctx.len_max(), items.len());
    lemma_pack_keeps_ink(items, ctx.len_max(), items.len());
    let lines = column_layout(fmt, ctx, Seq::empty(), items, None).0;
    assert(lines =~= st.out.push(st.joined()));
    lemma_concat_all_push(st.out, st.joined());
    lemma_ink_add(concat_all(st.out), st.joined());
    lemma_ink_join_two(st.settled, st.settled_gap, st.provisional);
    lemma_ink_held(st);
    assert(ink(concat_all(st.out)) + (ink(st.settled) + ink(st.provisional)) =~= ink_held(st));
}

} // verus!
