//! The alphabet that record ids are drawn from.

use vstd::prelude::*;

verus! {

/// How many symbols the alphabet holds.
pub const ID_COUNT: usize = 62;

/// `c` is one of the digits, small letters and capital letters that may serve
/// as an id.
pub open spec fn is_id(c: char) -> bool {
    ('0' <= c && c <= '9') || ('a' <= c && c <= 'z') || ('A' <= c && c <= 'Z')
}

/// The symbol at position `k` of the alphabet: digits first, then small
/// letters, then capital letters.
pub open spec fn symbol_at(k: int) -> char {
    if k < 10 {
        ('0' as int + k) as char
    } else if k < 36 {
        ('a' as int + (k - 10)) as char
    } else {
        ('A' as int + (k - 36)) as char
    }
}

/// The position of an id in the alphabet.
pub open spec fn rank(c: char) -> int {
    if '0' <= c && c <= '9' {
        c as int - '0' as int
    } else if 'a' <= c && c <= 'z' {
        c as int - 'a' as int + 10
    } else {
        c as int - 'A' as int + 36
    }
}

/// The whole alphabet, in order.
pub open spec fn alphabet() -> Seq<char> {
    Seq::new(ID_COUNT as nat, |k: int| symbol_at(k))
}

/// Every position below the alphabet's size holds an id, and `rank` finds the
/// position again.
pub proof fn lemma_symbol_rank(k: int)
    requires
        0 <= k < ID_COUNT,
    ensures
        is_id(symbol_at(k)),
        rank(symbol_at(k)) == k,
{
}

/// Every id stands in the alphabet, at the position `rank` gives.
pub proof fn lemma_rank_symbol(c: char)
    requires
        is_id(c),
    ensures
        0 <= rank(c) < ID_COUNT,
        symbol_at(rank(c)) == c,
{
}

/// Whether `c` may serve as an id.
pub fn is_index(c: char) -> (r: bool)
    ensures
        r == is_id(c),
{
    ('0' <= c && c <= '9') || ('a' <= c && c <= 'z') || ('A' <= c && c <= 'Z')
}

/// The symbol at position `k` of the alphabet.
pub fn symbol(k: usize) -> (c: char)
    requires
        k < ID_COUNT,
    ensures
        c == symbol_at(k as int),
{
    if k < 10 {
        ('0' as u8 + k as u8) as char
    } else if k < 36 {
        ('a' as u8 + (k - 10) as u8) as char
    } else {
        ('A' as u8 + (k - 36) as u8) as char
    }
}

} // verus!
