//! Lexicographic order on sequences, the order in which paths and digests are kept.

use vstd::prelude::*;
use vstd::relations::*;

verus! {

/// What comparing two values comes to.
#[derive(Clone, Copy, Debug, PartialEq, Eq, Structural)]
pub enum Rank {
    Below,
    Same,
    Above,
}

/// `a` comes before `b`, or is `b`, when the first place where they differ decides by
/// `le`, and a proper prefix comes before what extends it.
pub open spec fn lex_le<T>(a: Seq<T>, b: Seq<T>, le: spec_fn(T, T) -> bool) -> bool
    decreases a.len(),
{
    if a.len() == 0 {
        true
    } else if b.len() == 0 {
        false
    } else if a[0] == b[0] {
        lex_le(a.drop_first(), b.drop_first(), le)
    } else {
        le(a[0], b[0])
    }
}

/// Numeric order of bytes.
pub open spec fn byte_le() -> spec_fn(u8, u8) -> bool {
    |a: u8, b: u8| a <= b
}

/// Byte strings in lexicographic order.
pub open spec fn bytes_le() -> spec_fn(Seq<u8>, Seq<u8>) -> bool {
    |a: Seq<u8>, b: Seq<u8>| lex_le(a, b, byte_le())
}

proof fn lemma_lex_antisymmetric<T>(a: Seq<T>, b: Seq<T>, le: spec_fn(T, T) -> bool)
    requires
        total_ordering(le),
        lex_le(a, b, le),
        lex_le(b, a, le),
    ensures
        a == b,
    decreases a.len(),
{
    if a.len() == 0 || b.len() == 0 {
        assert(a =~= b);
    } else {
        lemma_lex_antisymmetric(a.drop_first(), b.drop_first(), le);
        assert(a =~= seq![a[0]] + a.drop_first());
        assert(b =~= seq![b[0]] + b.drop_first());
    }
}

proof fn lemma_lex_transitive<T>(a: Seq<T>, b: Seq<T>, c: Seq<T>, le: spec_fn(T, T) -> bool)
    requires
        total_ordering(le),
        lex_le(a, b, le),
        lex_le(b, c, le),
    ensures
        lex_le(a, c, le),
    decreases a.len(),
{
    if a.len() > 0 && b.len() > 0 && c.len() > 0 {
        if a[0] == b[0] && b[0] == c[0] {
            lemma_lex_transitive(a.drop_first(), b.drop_first(), c.drop_first(), le);
        }
    }
}

proof fn lemma_lex_connected<T>(a: Seq<T>, b: Seq<T>, le: spec_fn(T, T) -> bool)
    requires
        total_ordering(le),
    ensures
        lex_le(a, b, le) || lex_le(b, a, le),
    decreases a.len(),
{
    if a.len() > 0 && b.len() > 0 && a[0] == b[0] {
        lemma_lex_connected(a.drop_first(), b.drop_first(), le);
    }
}

proof fn lemma_lex_reflexive<T>(a: Seq<T>, le: spec_fn(T, T) -> bool)
    ensures
        lex_le(a, a, le),
    decreases a.len(),
{
    if a.len() > 0 {
        lemma_lex_reflexive(a.drop_first(), le);
    }
}

/// The lexicographic order over a total order is itself a total order.
pub proof fn lemma_lex_total<T>(le: spec_fn(T, T) -> bool)
    requires
        total_ordering(le),
    ensures
        total_ordering(|a: Seq<T>, b: Seq<T>| lex_le(a, b, le)),
{
    let lex = |a: Seq<T>, b: Seq<T>| lex_le(a, b, le);
    assert forall|a: Seq<T>| #[trigger] lex(a, a) by {
        lemma_lex_reflexive(a, le);
    }
    assert forall|a: Seq<T>, b: Seq<T>| #[trigger] lex(a, b) && #[trigger] lex(b, a) implies a
        == b by {
        lemma_lex_antisymmetric(a, b, le);
    }
    assert forall|a: Seq<T>, b: Seq<T>, c: Seq<T>| #[trigger]
        lex(a, b) && #[trigger] lex(b, c) implies lex(a, c) by {
        lemma_lex_transitive(a, b, c, le);
    }
    assert forall|a: Seq<T>, b: Seq<T>| #[trigger] lex(a, b) || #[trigger] lex(b, a) by {
        lemma_lex_connected(a, b, le);
    }
}

/// Byte strings are totally ordered.
pub proof fn lemma_bytes_total()
    ensures
        total_ordering(bytes_le()),
{
    lemma_lex_total(byte_le());
}

/// A common first element does not bear on the lexicographic order.
pub proof fn lemma_lex_step<T>(a: Seq<T>, b: Seq<T>, i: int, le: spec_fn(T, T) -> bool)
    requires
        0 <= i < a.len(),
        i < b.len(),
        a[i] == b[i],
    ensures
        lex_le(a.skip(i), b.skip(i), le) == lex_le(a.skip(i + 1), b.skip(i + 1), le),
        lex_le(b.skip(i), a.skip(i), le) == lex_le(b.skip(i + 1), a.skip(i + 1), le),
{
    assert(a.skip(i).drop_first() =~= a.skip(i + 1));
    assert(b.skip(i).drop_first() =~= b.skip(i + 1));
}

/// Says what `rank` claims of two values under the order `le`.
pub open spec fn ranks<T>(rank: Rank, a: T, b: T, le: spec_fn(T, T) -> bool) -> bool {
    match rank {
        Rank::Below => le(a, b) && a != b,
        Rank::Same => a == b,
        Rank::Above => le(b, a) && a != b,
    }
}

/// Compares two byte strings lexicographically.
pub fn compare_bytes(a: &[u8], b: &[u8]) -> (rank: Rank)
    ensures
        ranks(rank, a@, b@, bytes_le()),
{
    let mut i: usize = 0;
    assert(a@.skip(0) =~= a@);
    assert(b@.skip(0) =~= b@);
    while i < a.len() && i < b.len()
        invariant
            i <= a.len(),
            i <= b.len(),
            forall|k: int| 0 <= k < i ==> a@[k] == b@[k],
            lex_le(a@, b@, byte_le()) == lex_le(a@.skip(i as int), b@.skip(i as int), byte_le()),
            lex_le(b@, a@, byte_le()) == lex_le(b@.skip(i as int), a@.skip(i as int), byte_le()),
        decreases a.len() - i,
    {
        if a[i] < b[i] {
            return Rank::Below;
        }
        if a[i] > b[i] {
            return Rank::Above;
        }
        proof {
            lemma_lex_step(a@, b@, i as int, byte_le());
        }
        i = i + 1;
    }
    if a.len() < b.len() {
        Rank::Below
    } else if a.len() > b.len() {
        Rank::Above
    } else {
        assert(a@ =~= b@);
        Rank::Same
    }
}

/// Whether two byte strings are the same.
pub fn same_bytes(a: &[u8], b: &[u8]) -> (same: bool)
    ensures
        same == (a@ == b@),
{
    match compare_bytes(a, b) {
        Rank::Same => true,
        _ => false,
    }
}

} // verus!
