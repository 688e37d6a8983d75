//! Text: equality, the order that listings sort by, and trimming.

use vstd::prelude::*;

verus! {

/// `a` comes no later than `b` when strings are compared symbol by symbol, a
/// string before each of its extensions.
pub open spec fn lex_le(a: Seq<char>, b: Seq<char>) -> bool
    decreases a.len(),
{
    if a.len() == 0 {
        true
    } else if b.len() == 0 {
        false
    } else if a[0] != b[0] {
        a[0] < b[0]
    } else {
        lex_le(a.drop_first(), b.drop_first())
    }
}

/// Of two strings, one comes no later than the other.
pub proof fn lemma_lex_le_total(a: Seq<char>, b: Seq<char>)
    ensures
        lex_le(a, b) || lex_le(b, a),
    decreases a.len(),
{
    if a.len() > 0 && b.len() > 0 && a[0] == b[0] {
        lemma_lex_le_total(a.drop_first(), b.drop_first());
    }
}

/// The order carries over a string in the middle.
pub proof fn lemma_lex_le_transitive(a: Seq<char>, b: Seq<char>, c: Seq<char>)
    requires
        lex_le(a, b),
        lex_le(b, c),
    ensures
        lex_le(a, c),
    decreases a.len(),
{
    if a.len() > 0 && b.len() > 0 && c.len() > 0 && a[0] == b[0] && b[0] == c[0] {
        lemma_lex_le_transitive(a.drop_first(), b.drop_first(), c.drop_first());
    }
}

/// Every string comes no later than itself.
pub proof fn lemma_lex_le_reflexive(a: Seq<char>)
    ensures
        lex_le(a, a),
    decreases a.len(),
{
    if a.len() > 0 {
        lemma_lex_le_reflexive(a.drop_first());
    }
}

/// `c` counts as white space to `str::trim_end`, that is, it has the Unicode
/// property `White_Space`.
pub uninterp spec fn is_white_space(c: char) -> bool;

/// What is left of `s` once the white space at its end is dropped.
pub open spec fn trimmed(s: Seq<char>) -> Seq<char>
    decreases s.len(),
{
    if s.len() > 0 && is_white_space(s.last()) {
        trimmed(s.drop_last())
    } else {
        s
    }
}

/// `String::push` appends the symbol to the end of the string.
pub assume_specification[ String::push ](s: &mut String, c: char)
    ensures
        final(s)@ == old(s)@.push(c),
;

/// Compares two strings with `<=` on `str`, which orders them symbol by
/// symbol, by code point.
#[verifier::external_body]
pub(crate) fn str_le(a: &str, b: &str) -> (r: bool)
    ensures
        r == lex_le(a@, b@),
{
    a <= b
}

/// Calls `str::trim_end`: what comes back is the start of `s`, does not end in
/// white space, and all that was cut off is white space.
#[verifier::external_body]
fn trim_end(s: &str) -> (r: &str)
    ensures
        r@.is_prefix_of(s@),
        r@.len() > 0 ==> !is_white_space(r@.last()),
        forall|i: int| r@.len() <= i < s@.len() ==> is_white_space(s@[i]),
{
    s.trim_end()
}

/// Only one start of `s` meets what `trim_end` promises, and it is
/// `trimmed(s)`.
proof fn lemma_trimmed_is_unique(s: Seq<char>, r: Seq<char>)
    requires
        r.is_prefix_of(s),
        r.len() > 0 ==> !is_white_space(r.last()),
        forall|i: int| r.len() <= i < s.len() ==> is_white_space(s[i]),
    ensures
        r == trimmed(s),
    decreases s.len(),
{
    if s.len() > 0 && is_white_space(s.last()) {
        if r.len() == s.len() {
            assert(r.last() == s.last());
        }
        let t = s.drop_last();
        assert(r.is_prefix_of(t));
        lemma_trimmed_is_unique(t, r);
    } else {
        assert(r =~= s);
    }
}

/// Whether two strings hold the same text.
pub fn same_text(a: &str, b: &str) -> (r: bool)
    ensures
        r == (a@ == b@),
{
    a.to_owned() == b.to_owned()
}

/// `s` without the white space at its end; white space at the start or in
/// the middle stays as it is.
pub fn trim_trailing(s: &str) -> (r: String)
    ensures
        r@ == trimmed(s@),
{
    let t = trim_end(s);
    proof {
        lemma_trimmed_is_unique(s@, t@);
    }
    t.to_owned()
}

} // verus!
