//! Text as sequences of characters: the measures and the small string
//! operations that the formatters are built from.

use vstd::prelude::*;
use vstd::string::StringExecFns;
use vstd::utf8::encode_utf8;

verus! {

/// The width of a text: the number of bytes of its UTF-8 encoding.
pub open spec fn width(s: Seq<char>) -> nat {
    encode_utf8(s).len()
}

/// A run of `n` blanks.
pub open spec fn blanks(n: nat) -> Seq<char> {
    Seq::new(n, |i: int| ' ')
}

/// The text of an optional string.
pub open spec fn opt_text(o: Option<String>) -> Option<Seq<char>> {
    match o {
        Some(s) => Some(s@),
        None => None,
    }
}

/// The texts of a sequence of strings.
pub open spec fn lines_view(v: Seq<String>) -> Seq<Seq<char>> {
    Seq::new(v.len(), |i: int| v[i]@)
}

/// All lines glued together without a separator.
pub open spec fn concat_all(lines: Seq<Seq<char>>) -> Seq<char>
    decreases lines.len(),
{
    if lines.len() == 0 {
        Seq::empty()
    } else {
        concat_all(lines.drop_last()) + lines.last()
    }
}

/// All lines glued together with `sep` between neighbours.
pub open spec fn join_with(lines: Seq<Seq<char>>, sep: Seq<char>) -> Seq<char>
    decreases lines.len(),
{
    if lines.len() == 0 {
        Seq::empty()
    } else if lines.len() == 1 {
        lines[0]
    } else {
        join_with(lines.drop_last(), sep) + sep + lines.last()
    }
}

/// The texts of a sequence with one more string.
pub proof fn lemma_lines_view_push(v: Seq<String>, s: String)
    ensures
        lines_view(v.push(s)) == lines_view(v).push(s@),
{
    assert(lines_view(v.push(s)) =~= lines_view(v).push(s@));
}

/// The texts of two sequences, one after the other.
pub proof fn lemma_lines_view_add(a: Seq<String>, b: Seq<String>)
    ensures
        lines_view(a + b) == lines_view(a) + lines_view(b),
{
    assert(lines_view(a + b) =~= lines_view(a) + lines_view(b));
}

/// The encoding of a concatenation is the concatenation of the encodings.
pub proof fn lemma_encode_concat(a: Seq<char>, b: Seq<char>)
    ensures
        encode_utf8(a + b) == encode_utf8(a) + encode_utf8(b),
    decreases a.len(),
{
    if a.len() == 0 {
        assert(a + b =~= b);
        assert(encode_utf8(a) + encode_utf8(b) =~= encode_utf8(b));
    } else {
        assert((a + b).drop_first() =~= a.drop_first() + b);
        lemma_encode_concat(a.drop_first(), b);
        assert(encode_utf8(a + b) =~= encode_utf8(a) + encode_utf8(b));
    }
}

/// Widths add up under concatenation.
pub proof fn lemma_width_concat(a: Seq<char>, b: Seq<char>)
    ensures
        width(a + b) == width(a) + width(b),
{
    lemma_encode_concat(a, b);
}

/// A run of `n` blanks is `n` wide.
pub proof fn lemma_width_blanks(n: nat)
    ensures
        width(blanks(n)) == n,
{
    let s = blanks(n);
    assert(vstd::utf8::is_ascii_chars(s));
    vstd::utf8::is_ascii_chars_encode_utf8(s);
}

/// The width of `s` in bytes.
pub fn text_width(s: &str) -> (n: usize)
    ensures
        n == width(s@),
{
    s.as_bytes().len()
}

/// A string of `n` blanks.
pub fn spaces(n: usize) -> (r: String)
    ensures
        r@ == blanks(n as nat),
{
    let mut r = String::new();
    let mut i: usize = 0;
    while i < n
        invariant
            i <= n,
            r@ == blanks(i as nat),
        decreases n - i,
    {
        proof {
            reveal_strlit(" ");
        }
        r.append(" ");
        i = i + 1;
        assert(r@ =~= blanks(i as nat));
    }
    r
}

/// `a` followed by `b`.
pub fn glued(a: &str, b: &str) -> (r: String)
    ensures
        r@ == a@ + b@,
{
    let mut r = String::from_str(a);
    r.append(b);
    r
}

/// A copy of an optional string.
pub fn clone_opt(o: &Option<String>) -> (r: Option<String>)
    ensures
        opt_text(r) == opt_text(*o),
{
    match o {
        Some(s) => Some(s.clone()),
        None => None,
    }
}

/// A copy of a list of strings.
pub fn clone_lines(v: &Vec<String>) -> (r: Vec<String>)
    ensures
        lines_view(r@) == lines_view(v@),
{
    let mut r: Vec<String> = Vec::new();
    let mut i: usize = 0;
    while i < v.len()
        invariant
            i <= v.len(),
            r@.len() == i,
            forall|k: int| 0 <= k < i ==> r@[k]@ == v@[k]@,
        decreases v.len() - i,
    {
        r.push(v[i].clone());
        i = i + 1;
    }
    assert(lines_view(r@) =~= lines_view(v@));
    r
}

/// Appends `s` as a new last line.
pub fn push_line(v: &mut Vec<String>, s: String)
    ensures
        lines_view(final(v)@) == lines_view(old(v)@).push(s@),
{
    proof {
        lemma_lines_view_push(v@, s);
    }
    v.push(s);
}

/// Appends all of `other` after the lines of `v`.
pub fn append_lines(v: &mut Vec<String>, other: Vec<String>)
    ensures
        lines_view(final(v)@) == lines_view(old(v)@) + lines_view(other@),
{
    let mut other = other;
    proof {
        lemma_lines_view_add(v@, other@);
    }
    v.append(&mut other);
}

/// All of `lines` in one string, one after the other.
pub fn concat_lines(lines: &Vec<String>) -> (r: String)
    ensures
        r@ == concat_all(lines_view(lines@)),
{
    let mut r = String::new();
    let mut i: usize = 0;
    while i < lines.len()
        invariant
            i <= lines.len(),
            r@ == concat_all(lines_view(lines@).take(i as int)),
        decreases lines.len() - i,
    {
        r.append(lines[i].as_str());
        proof {
            let all = lines_view(lines@);
            assert(all.take(i + 1).drop_last() =~= all.take(i as int));
            assert(all.take(i + 1).last() == lines@[i as int]@);
        }
        i = i + 1;
    }
    assert(lines_view(lines@).take(i as int) =~= lines_view(lines@));
    r
}

/// All of `lines` in one string, with `sep` between neighbours.
pub fn join_lines(lines: &Vec<String>, sep: &str) -> (r: String)
    ensures
        r@ == join_with(lines_view(lines@), sep@),
{
    let mut r = String::new();
    let mut i: usize = 0;
    while i < lines.len()
        invariant
            i <= lines.len(),
            r@ == join_with(lines_view(lines@).take(i as int), sep@),
        decreases lines.len() - i,
    {
        if i > 0 {
            r.append(sep);
        }
        r.append(lines[i].as_str());
        proof {
            let all = lines_view(lines@);
            assert(all.take(i + 1).drop_last() =~= all.take(i as int));
            assert(all.take(i + 1).last() == lines@[i as int]@);
            if i == 0 {
                assert(all.take(1)[0] == lines@[0]@);
                assert(r@ =~= lines@[0]@);
            }
        }
        i = i + 1;
    }
    assert(lines_view(lines@).take(i as int) =~= lines_view(lines@));
    r
}

} // verus!
