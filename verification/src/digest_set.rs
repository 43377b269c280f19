//! Sets of digests.

use vstd::prelude::*;
use vstd::relations::*;

use crate::digest::Digest;
use crate::order::{
    byte_le, bytes_le, compare_bytes, lemma_bytes_total, lex_le, ranks, Rank,
};
use crate::sort::{lemma_sorted_order, shown, sort_order, sorted_order, Ordered};

verus! {

/// The order of digests: the shorter kind first, and by their bytes within a kind.
pub open spec fn digest_le() -> spec_fn(Seq<u8>, Seq<u8>) -> bool {
    |a: Seq<u8>, b: Seq<u8>|
        a.len() < b.len() || (a.len() == b.len() && lex_le(a, b, byte_le()))
}

/// Digests are totally ordered.
pub proof fn lemma_digest_total()
    ensures
        total_ordering(digest_le()),
{
    lemma_bytes_total();
    let bytes = bytes_le();
    let le = digest_le();
    assert(forall|a: Seq<u8>, b: Seq<u8>| #[trigger]
        bytes(a, b) <==> #[trigger] lex_le(a, b, byte_le()));
    assert forall|a: Seq<u8>| #[trigger] le(a, a) by {
        assert(bytes(a, a));
    }
    assert forall|a: Seq<u8>, b: Seq<u8>| #[trigger] le(a, b) && #[trigger] le(b, a) implies a
        == b by {
        assert(bytes(a, b) && bytes(b, a));
    }
    assert forall|a: Seq<u8>, b: Seq<u8>, c: Seq<u8>| #[trigger] le(a, b) && #[trigger] le(
        b,
        c,
    ) implies le(a, c) by {
        if a.len() == b.len() && b.len() == c.len() {
            assert(bytes(a, b) && bytes(b, c));
            assert(bytes(a, c));
        }
    }
    assert forall|a: Seq<u8>, b: Seq<u8>| #[trigger] le(a, b) || #[trigger] le(b, a) by {
        assert(bytes(a, b) || bytes(b, a));
    }
}

/// Compares two digests in the order of digests.
pub fn compare_digests(a: &Digest, b: &Digest) -> (rank: Rank)
    ensures
        ranks(rank, a@, b@, digest_le()),
{
    let x = a.as_bytes();
    let y = b.as_bytes();
    if x.len() < y.len() {
        Rank::Below
    } else if x.len() > y.len() {
        Rank::Above
    } else {
        compare_bytes(x, y)
    }
}

impl Ordered for Digest {
    open spec fn le() -> spec_fn(Seq<u8>, Seq<u8>) -> bool {
        digest_le()
    }

    proof fn lemma_total() {
        lemma_digest_total();
    }

    fn compare(&self, other: &Digest) -> (rank: Rank) {
        compare_digests(self, other)
    }
}

/// The bytes of each of `digests`.
pub open spec fn digest_views(digests: Seq<Digest>) -> Seq<Seq<u8>> {
    digests.map_values(|d: Digest| d@)
}

/// Each of `keys` comes before those behind it, and is none of them.
pub open spec fn strictly_ascending(keys: Seq<Seq<u8>>) -> bool {
    forall|i: int, j: int|
        0 <= i < j < keys.len() ==> digest_le()(#[trigger] keys[i], #[trigger] keys[j]) && keys[i]
            != keys[j]
}

/// A set of digests, each held once, in the order of digests.
#[derive(Debug)]
pub struct DigestSet {
    items: Vec<Digest>,
}

impl View for DigestSet {
    type V = Set<Seq<u8>>;

    closed spec fn view(&self) -> Set<Seq<u8>> {
        digest_views(self.items@).to_set()
    }
}

impl DigestSet {
    #[verifier::type_invariant]
    spec fn inv(self) -> bool {
        strictly_ascending(digest_views(self.items@))
    }

    /// The empty set.
    pub fn new() -> (set: DigestSet)
        ensures
            set@ == Set::<Seq<u8>>::empty(),
    {
        let set = DigestSet { items: Vec::new() };
        assert(set@ =~= Set::<Seq<u8>>::empty());
        set
    }

    /// The set of `digests`.
    pub fn from_digests(digests: &Vec<Digest>) -> (set: DigestSet)
        ensures
            set@ == digest_views(digests@).to_set(),
    {
        let order = sort_order(digests);
        let ghost le = digest_le();
        let ghost keys = digest_views(digests@);
        let ghost places = sorted_order(keys, le);
        proof {
            assert(shown(digests@) =~= keys);
            lemma_digest_total();
            lemma_sorted_order(keys, le);
            assert(forall|k: int|
                0 <= k < order@.len() ==> (#[trigger] order@[k]) as int == places[k]);
        }
        let mut items: Vec<Digest> = Vec::new();
        for i in 0..order.len()
            invariant
                le == digest_le(),
                total_ordering(le),
                keys == digest_views(digests@),
                places == sorted_order(keys, le),
                places.len() == keys.len(),
                order@.len() == places.len(),
                forall|k: int| 0 <= k < keys.len() ==> 0 <= #[trigger] places[k] < keys.len(),
                forall|k: int| 0 <= k < order@.len() ==> (#[trigger] order@[k]) as int == places[k],
                forall|k: int, m: int|
                    #![trigger places[k], places[m]]
                    0 <= k <= m < keys.len() ==> le(keys[places[k]], keys[places[m]]),
                strictly_ascending(digest_views(items@)),
                i > 0 ==> items@.len() > 0 && items@.last()@ == keys[places[i - 1]],
                i == 0 ==> items@.len() == 0,
                forall|k: int|
                    0 <= k < i ==> digest_views(items@).contains(#[trigger] keys[places[k]]),
                forall|k: int|
                    0 <= k < items@.len() ==> keys.contains(#[trigger] digest_views(items@)[k]),
        {
            let digest = digests[order[i]];
            let ghost before = digest_views(items@);
            assert(digest@ == keys[places[i as int]]);
            let known = if items.len() == 0 {
                false
            } else {
                match compare_digests(&items[items.len() - 1], &digest) {
                    Rank::Same => true,
                    _ => false,
                }
            };
            if known {
                assert(before.contains(before.last()));
            } else {
                items.push(digest);
                proof {
                    let after = digest_views(items@);
                    assert(after =~= before.push(digest@));
                    assert forall|k: int| 0 <= k < before.len() implies le(
                        #[trigger] before[k],
                        digest@,
                    ) && before[k] != digest@ by {
                        let last = before.len() - 1;
                        assert(le(keys[places[i - 1]], keys[places[i as int]]));
                        assert(before[last] == keys[places[i - 1]]);
                        if k < last {
                            assert(le(before[k], before[last]) && before[k] != before[last]);
                        }
                    }
                    assert(after.contains(digest@)) by {
                        assert(after[before.len() as int] == digest@);
                    }
                    assert forall|k: int| 0 <= k < i implies after.contains(
                        #[trigger] keys[places[k]],
                    ) by {
                        let m = before.index_of(keys[places[k]]);
                        assert(after[m] == keys[places[k]]);
                    }
                }
            }
        }
        proof {
            let held = digest_views(items@);
            assert forall|b: Seq<u8>| held.to_set().contains(b) <==> #[trigger]
                keys.to_set().contains(b) by {
                if keys.contains(b) {
                    let p = keys.index_of(b);
                    assert(places.contains(p));
                    let k = places.index_of(p);
                    assert(keys[places[k]] == b);
                }
                if held.contains(b) {
                    let k = held.index_of(b);
                    assert(held[k] == b);
                }
            }
            assert(held.to_set() =~= keys.to_set());
        }
        DigestSet { items }
    }

    /// Where `digest` is, or where it would go.
    fn position(&self, digest: &Digest) -> (found: (usize, bool))
        ensures
            found.0 <= self.items@.len(),
            forall|i: int|
                0 <= i < found.0 ==> digest_le()(#[trigger] self.items@[i]@, digest@)
                    && self.items@[i]@ != digest@,
            found.1 ==> found.0 < self.items@.len() && self.items@[found.0 as int]@ == digest@,
            !found.1 ==> forall|i: int|
                found.0 <= i < self.items@.len() ==> digest_le()(
                    digest@,
                    #[trigger] self.items@[i]@,
                ) && self.items@[i]@ != digest@,
    {
        proof {
            use_type_invariant(self);
            lemma_digest_total();
        }
        let ghost keys = digest_views(self.items@);
        assert(forall|i: int| 0 <= i < keys.len() ==> keys[i] == #[trigger] self.items@[i]@);
        let mut low: usize = 0;
        let mut high: usize = self.items.len();
        while low < high
            invariant
                low <= high <= self.items@.len(),
                keys == digest_views(self.items@),
                forall|i: int| 0 <= i < keys.len() ==> keys[i] == #[trigger] self.items@[i]@,
                strictly_ascending(keys),
                total_ordering(digest_le()),
                forall|i: int|
                    0 <= i < low ==> digest_le()(#[trigger] self.items@[i]@, digest@)
                        && self.items@[i]@ != digest@,
                forall|i: int|
                    high <= i < self.items@.len() ==> digest_le()(
                        digest@,
                        #[trigger] self.items@[i]@,
                    ) && self.items@[i]@ != digest@,
            decreases high - low,
        {
            let middle: usize = low + (high - low) / 2;
            let ghost le = digest_le();
            let ghost here = keys[middle as int];
            match compare_digests(&self.items[middle], digest) {
                Rank::Same => {
                    return (middle, true);
                },
                Rank::Below => {
                    assert forall|i: int| 0 <= i < middle + 1 implies le(
                        #[trigger] self.items@[i]@,
                        digest@,
                    ) && self.items@[i]@ != digest@ by {
                        if i < middle {
                            assert(le(keys[i], here) && keys[i] != here);
                        }
                    }
                    low = middle + 1;
                },
                Rank::Above => {
                    assert forall|i: int| middle <= i < self.items@.len() implies le(
                        digest@,
                        #[trigger] self.items@[i]@,
                    ) && self.items@[i]@ != digest@ by {
                        if middle < i {
                            assert(le(here, keys[i]) && keys[i] != here);
                        }
                    }
                    high = middle;
                },
            }
        }
        (low, false)
    }

    /// Puts `digest` in the set.
    pub fn insert(&mut self, digest: Digest)
        ensures
            final(self)@ == old(self)@.insert(digest@),
    {
        proof {
            use_type_invariant(&*self);
        }
        let (at, found) = self.position(&digest);
        let ghost before = digest_views(self.items@);
        if found {
            assert(before[at as int] == digest@);
            assert(before.to_set().insert(digest@) =~= before.to_set());
            return;
        }
        let mut items: Vec<Digest> = Vec::new();
        std::mem::swap(&mut items, &mut self.items);
        items.insert(at, digest);
        proof {
            let after = digest_views(items@);
            assert(after =~= before.insert(at as int, digest@));
            assert(strictly_ascending(after)) by {
                assert forall|i: int, j: int| 0 <= i < j < after.len() implies digest_le()(
                    #[trigger] after[i],
                    #[trigger] after[j],
                ) && after[i] != after[j] by {
                    let old_i = if i < at { i } else { i - 1 };
                    let old_j = if j < at { j } else { j - 1 };
                    if i != at {
                        assert(after[i] == before[old_i]);
                    }
                    if j != at {
                        assert(after[j] == before[old_j]);
                    }
                }
            }
            assert forall|b: Seq<u8>| after.to_set().contains(b) <==> #[trigger]
                before.to_set().insert(digest@).contains(b) by {
                if before.contains(b) {
                    let k = choose|k: int| 0 <= k < before.len() && before[k] == b;
                    if k < at {
                        assert(after[k] == b);
                    } else {
                        assert(after[k + 1] == b);
                    }
                }
                assert(after[at as int] == digest@);
                if after.contains(b) {
                    let k = choose|k: int| 0 <= k < after.len() && after[k] == b;
                    if k < at {
                        assert(before[k] == b);
                    } else if k > at {
                        assert(before[k - 1] == b);
                    }
                }
            }
            assert(after.to_set() =~= before.to_set().insert(digest@));
        }
        self.items = items;
    }

    /// Whether `digest` is in the set.
    pub fn contains(&self, digest: &Digest) -> (found: bool)
        ensures
            found == self@.contains(digest@),
    {
        let (at, found) = self.position(digest);
        let ghost keys = digest_views(self.items@);
        proof {
            if found {
                assert(keys[at as int] == digest@);
            } else if keys.contains(digest@) {
                let k = choose|k: int| 0 <= k < keys.len() && keys[k] == digest@;
                assert(self.items@[k]@ == digest@);
            }
        }
        found
    }

    /// How many digests the set has.
    pub fn len(&self) -> (count: usize)
        ensures
            count == self@.len(),
    {
        proof {
            use_type_invariant(self);
            let keys = digest_views(self.items@);
            assert(keys.no_duplicates());
            keys.unique_seq_to_set();
        }
        self.items.len()
    }

    /// Whether the set has no digest.
    pub fn is_empty(&self) -> (empty: bool)
        ensures
            empty <==> self@ == Set::<Seq<u8>>::empty(),
    {
        proof {
            let keys = digest_views(self.items@);
            if keys.len() > 0 {
                assert(keys.to_set().contains(keys[0]));
            } else {
                assert(keys.to_set() =~= Set::<Seq<u8>>::empty());
            }
        }
        self.items.len() == 0
    }

    /// The digests of the set, in the order of digests.
    pub fn as_slice(&self) -> (digests: &[Digest])
        ensures
            digest_views(digests@).to_set() == self@,
            strictly_ascending(digest_views(digests@)),
    {
        proof {
            use_type_invariant(self);
        }
        self.items.as_slice()
    }
}

} // verus!
