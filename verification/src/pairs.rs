//! Lists of key-value pairs in key order: what tables hold and how they are
//! searched.

use vstd::prelude::*;

use crate::order::{
    key_lt, lemma_key_lt_asymmetric, lemma_key_lt_irreflexive, lemma_key_lt_total,
    lemma_key_lt_transitive,
};
use crate::types::{tombstone, visible};

verus! {

/// A key and its value, as they occur in specifications.
pub type Pair = (Seq<u8>, Seq<u8>);

/// The pairs held by a vector.
pub open spec fn pairs_of(v: Seq<(Vec<u8>, Vec<u8>)>) -> Seq<Pair> {
    Seq::new(v.len(), |i: int| (v[i].0@, v[i].1@))
}

/// The pairs referred to by a vector.
pub open spec fn pairs_referred(v: Seq<(&Vec<u8>, &Vec<u8>)>) -> Seq<Pair> {
    Seq::new(v.len(), |i: int| (v[i].0@, v[i].1@))
}

/// The keys of a list of pairs.
pub open spec fn keys_of(s: Seq<Pair>) -> Seq<Seq<u8>> {
    Seq::new(s.len(), |i: int| s[i].0)
}

/// The keys strictly increase.
pub open spec fn strictly_sorted(s: Seq<Pair>) -> bool {
    forall|i: int, j: int| 0 <= i < j < s.len() ==> key_lt(#[trigger] s[i].0, #[trigger] s[j].0)
}

/// The value of the first pair with the given key.
pub open spec fn lookup(s: Seq<Pair>, key: Seq<u8>) -> Option<Seq<u8>>
    decreases s.len(),
{
    if s.len() == 0 {
        None
    } else if s[0].0 == key {
        Some(s[0].1)
    } else {
        lookup(s.skip(1), key)
    }
}

/// The list of pairs as a map.
pub open spec fn contents(s: Seq<Pair>) -> Map<Seq<u8>, Seq<u8>> {
    Map::new(|key: Seq<u8>| lookup(s, key) is Some, |key: Seq<u8>| lookup(s, key)->0)
}

/// How many pairs at the front have keys before the given one.
pub open spec fn rank(s: Seq<Pair>, key: Seq<u8>) -> nat
    decreases s.len(),
{
    if s.len() == 0 || !key_lt(s[0].0, key) {
        0
    } else {
        1 + rank(s.skip(1), key)
    }
}

/// The list with the key's value replaced, or the new pair in its place.
pub open spec fn with_pair(s: Seq<Pair>, key: Seq<u8>, value: Seq<u8>) -> Seq<Pair> {
    let at = rank(s, key) as int;
    if at < s.len() && s[at].0 == key {
        s.update(at, (key, value))
    } else {
        s.insert(at, (key, value))
    }
}

/// The pairs whose value is not the tombstone.
pub open spec fn live(s: Seq<Pair>) -> Seq<Pair> {
    s.filter(|p: Pair| p.1 != tombstone())
}

/// The key lies in `[start, end)`.
pub open spec fn in_range(key: Seq<u8>, start: Seq<u8>, end: Seq<u8>) -> bool {
    !key_lt(key, start) && key_lt(key, end)
}

/// The number of key and value bytes.
pub open spec fn total_bytes(s: Seq<Pair>) -> nat
    decreases s.len(),
{
    if s.len() == 0 {
        0
    } else {
        total_bytes(s.drop_last()) + s.last().0.len() + s.last().1.len()
    }
}

/// What a lookup finds stands in the list.
pub proof fn lemma_lookup_found(s: Seq<Pair>, key: Seq<u8>) -> (i: int)
    requires
        lookup(s, key) is Some,
    ensures
        0 <= i < s.len(),
        s[i] == (key, lookup(s, key)->0),
        forall|j: int| 0 <= j < i ==> s[j].0 != key,
    decreases s.len(),
{
    if s[0].0 == key {
        0
    } else {
        let i = lemma_lookup_found(s.skip(1), key);
        assert forall|j: int| 0 <= j < i + 1 implies s[j].0 != key by {
            if j > 0 {
                assert(s.skip(1)[j - 1] == s[j]);
            }
        }
        i + 1
    }
}

/// A lookup finds a key that stands in the list.
pub proof fn lemma_lookup_finds(s: Seq<Pair>, i: int)
    requires
        0 <= i < s.len(),
    ensures
        lookup(s, s[i].0) is Some,
    decreases s.len(),
{
    if s[0].0 != s[i].0 {
        assert(s.skip(1)[i - 1] == s[i]);
        lemma_lookup_finds(s.skip(1), i - 1);
    }
}

/// In a sorted list every pair is the one its key leads to.
pub proof fn lemma_lookup_sorted(s: Seq<Pair>, i: int)
    requires
        strictly_sorted(s),
        0 <= i < s.len(),
    ensures
        lookup(s, s[i].0) == Some(s[i].1),
{
    lemma_lookup_finds(s, i);
    let j = lemma_lookup_found(s, s[i].0);
    if j != i {
        if j < i {
            lemma_key_lt_asymmetric(s[j].0, s[i].0);
        } else {
            lemma_key_lt_asymmetric(s[i].0, s[j].0);
        }
    }
}

/// A key that stands nowhere in the list is not found.
pub proof fn lemma_lookup_absent(s: Seq<Pair>, key: Seq<u8>)
    requires
        forall|i: int| 0 <= i < s.len() ==> (#[trigger] s[i]).0 != key,
    ensures
        lookup(s, key) is None,
{
    if lookup(s, key) is Some {
        let i = lemma_lookup_found(s, key);
    }
}

/// The rank splits the list into the keys before the given one and the rest.
pub proof fn lemma_rank(s: Seq<Pair>, key: Seq<u8>)
    ensures
        rank(s, key) <= s.len(),
        forall|i: int| 0 <= i < rank(s, key) ==> key_lt((#[trigger] s[i]).0, key),
        rank(s, key) < s.len() ==> !key_lt(s[rank(s, key) as int].0, key),
    decreases s.len(),
{
    if s.len() > 0 && key_lt(s[0].0, key) {
        let rest = s.skip(1);
        lemma_rank(rest, key);
        assert forall|i: int| 0 <= i < rank(s, key) implies key_lt((#[trigger] s[i]).0, key) by {
            if i > 0 {
                assert(rest[i - 1] == s[i]);
            }
        }
        if rank(s, key) < s.len() {
            assert(rest[rank(rest, key) as int] == s[rank(s, key) as int]);
        }
    }
}

/// A position is the rank if everything before it is smaller and it is not.
pub proof fn lemma_rank_unique(s: Seq<Pair>, key: Seq<u8>, at: int)
    requires
        0 <= at <= s.len(),
        forall|i: int| 0 <= i < at ==> key_lt((#[trigger] s[i]).0, key),
        at < s.len() ==> !key_lt(s[at].0, key),
    ensures
        rank(s, key) == at,
{
    lemma_rank(s, key);
    if rank(s, key) < at {
        assert(key_lt(s[rank(s, key) as int].0, key));
    } else if at < rank(s, key) {
        assert(key_lt(s[at].0, key));
    }
}

/// In a sorted list a key stands at its rank or nowhere.
pub proof fn lemma_lookup_at_rank(s: Seq<Pair>, key: Seq<u8>)
    requires
        strictly_sorted(s),
    ensures
        ({
            let at = rank(s, key) as int;
            if at < s.len() && s[at].0 == key {
                lookup(s, key) == Some(s[at].1)
            } else {
                lookup(s, key) is None
            }
        }),
{
    let at = rank(s, key) as int;
    lemma_rank(s, key);
    if at < s.len() && s[at].0 == key {
        lemma_lookup_sorted(s, at);
    } else if lookup(s, key) is Some {
        let i = lemma_lookup_found(s, key);
        lemma_key_lt_irreflexive(key);
        if i > at {
            assert(key_lt(s[at].0, s[i].0));
        }
        assert(false);
    }
}

/// Storing a pair keeps the list sorted and changes the map in that key alone.
pub proof fn lemma_with_pair(s: Seq<Pair>, key: Seq<u8>, value: Seq<u8>)
    requires
        strictly_sorted(s),
    ensures
        strictly_sorted(with_pair(s, key, value)),
        contents(with_pair(s, key, value)) == contents(s).insert(key, value),
        forall|other: Seq<u8>|
            #![trigger lookup(with_pair(s, key, value), other)]
            lookup(with_pair(s, key, value), other) == (if other == key {
                Some(value)
            } else {
                lookup(s, other)
            }),
{
    let t = with_pair(s, key, value);
    let at = rank(s, key) as int;
    lemma_rank(s, key);
    if at < s.len() && s[at].0 == key {
        assert forall|i: int, j: int| 0 <= i < j < t.len() implies key_lt(
            #[trigger] t[i].0,
            #[trigger] t[j].0,
        ) by {
            assert(t[i].0 == s[i].0);
            assert(t[j].0 == s[j].0);
        }
    } else {
        if at < s.len() {
            lemma_key_lt_total(s[at].0, key);
        }
        assert forall|i: int, j: int| 0 <= i < j < t.len() implies key_lt(
            #[trigger] t[i].0,
            #[trigger] t[j].0,
        ) by {
            if i < at && j == at {
                assert(t[i] == s[i]);
            } else if i == at {
                assert(t[j] == s[j - 1]);
                if j - 1 > at {
                    assert(key_lt(s[at].0, s[j - 1].0));
                    lemma_key_lt_transitive(key, s[at].0, s[j - 1].0);
                }
            } else {
                let i0 = if i < at { i } else { i - 1 };
                let j0 = if j < at { j } else { j - 1 };
                assert(t[i] == s[i0]);
                assert(t[j] == s[j0]);
            }
        }
    }
    assert forall|other: Seq<u8>| #[trigger] lookup(t, other) == (if other == key {
        Some(value)
    } else {
        lookup(s, other)
    }) by {
        if other == key {
            assert(t[at] == (key, value));
            lemma_lookup_sorted(t, at);
        } else if lookup(s, other) is Some {
            let i = lemma_lookup_found(s, other);
            let i1 = if t.len() == s.len() || i < at { i } else { i + 1 };
            assert(t[i1] == s[i]);
            lemma_lookup_sorted(t, i1);
        } else if lookup(t, other) is Some {
            let i1 = lemma_lookup_found(t, other);
            let i = if t.len() == s.len() || i1 < at { i1 } else { i1 - 1 };
            assert(t[i1] == s[i]);
            lemma_lookup_finds(s, i);
        }
    }
    assert(contents(t) =~= contents(s).insert(key, value));
}

/// Filtering keeps a list sorted and keeps exactly the pairs that pass.
pub proof fn lemma_filter_sorted(s: Seq<Pair>, keep: spec_fn(Pair) -> bool)
    requires
        strictly_sorted(s),
    ensures
        strictly_sorted(s.filter(keep)),
        forall|key: Seq<u8>| #[trigger]
            lookup(s.filter(keep), key) == (match lookup(s, key) {
                Some(value) => if keep((key, value)) {
                    Some(value)
                } else {
                    None
                },
                None => None,
            }),
        s.filter(keep).len() <= s.len(),
    decreases s.len(),
{
    reveal(Seq::filter);
    let t = s.filter(keep);
    if s.len() > 0 {
        let front = s.drop_last();
        let last = s.last();
        let kept = front.filter(keep);
        assert(strictly_sorted(front)) by {
            assert forall|i: int, j: int| 0 <= i < j < front.len() implies key_lt(
                #[trigger] front[i].0,
                #[trigger] front[j].0,
            ) by {
                assert(front[i] == s[i] && front[j] == s[j]);
            }
        }
        lemma_filter_sorted(front, keep);
        assert(forall|i: int| 0 <= i < front.len() ==> front[i] == s[i]);
        if keep(last) {
            assert forall|i: int, j: int| 0 <= i < j < t.len() implies key_lt(
                #[trigger] t[i].0,
                #[trigger] t[j].0,
            ) by {
                if j == t.len() - 1 {
                    assert(t[i] == kept[i]);
                    lemma_lookup_sorted(kept, i);
                    let n = lemma_lookup_found(front, kept[i].0);
                    assert(s[n].0 == kept[i].0);
                    assert(key_lt(s[n].0, s[s.len() - 1].0));
                } else {
                    assert(t[i] == kept[i] && t[j] == kept[j]);
                }
            }
        }
        assert forall|key: Seq<u8>| #[trigger] lookup(t, key) == (match lookup(s, key) {
            Some(value) => if keep((key, value)) {
                Some(value)
            } else {
                None
            },
            None => None,
        }) by {
            lemma_lookup_append(front, last, key);
            assert(front.push(last) =~= s);
            assert(lookup(front, last.0) is None) by {
                if lookup(front, last.0) is Some {
                    let n = lemma_lookup_found(front, last.0);
                    assert(s[n].0 == last.0);
                    lemma_key_lt_asymmetric(s[n].0, s[s.len() - 1].0);
                }
            }
            assert(lookup(kept, last.0) is None);
            lemma_lookup_append(kept, last, key);
        }
    }
}

/// A lookup in a longer list looks at the added pair last.
pub proof fn lemma_lookup_append(s: Seq<Pair>, p: Pair, key: Seq<u8>)
    ensures
        lookup(s.push(p), key) == (if lookup(s, key) is Some {
            lookup(s, key)
        } else if p.0 == key {
            Some(p.1)
        } else {
            None
        }),
    decreases s.len(),
{
    if s.len() == 0 {
        assert(s.push(p).skip(1) =~= Seq::<Pair>::empty());
        assert(lookup(s.push(p).skip(1), key) is None);
    } else {
        assert(s.push(p).skip(1) =~= s.skip(1).push(p));
        lemma_lookup_append(s.skip(1), p, key);
    }
}

/// Dropping the deleted pairs leaves of every key what a reader sees of it.
pub proof fn lemma_live_lookup(s: Seq<Pair>, key: Seq<u8>)
    requires
        strictly_sorted(s),
    ensures
        strictly_sorted(live(s)),
        lookup(live(s), key) == (match lookup(s, key) {
            Some(value) => visible(value),
            None => None,
        }),
{
    lemma_filter_sorted(s, |p: Pair| p.1 != tombstone());
}

/// The rest of a sorted list is sorted.
pub proof fn lemma_tail_sorted(s: Seq<Pair>)
    requires
        strictly_sorted(s),
        s.len() > 0,
    ensures
        strictly_sorted(s.skip(1)),
{
    let t = s.skip(1);
    assert forall|i: int, j: int| 0 <= i < j < t.len() implies key_lt(
        #[trigger] t[i].0,
        #[trigger] t[j].0,
    ) by {
        assert(t[i] == s[i + 1] && t[j] == s[j + 1]);
    }
}

/// A lookup gives the value of the first pair with the key, and nothing if no pair has
/// it.
pub proof fn law_lookup_gives_the_first_match(s: Seq<Pair>, key: Seq<u8>)
    ensures
        match lookup(s, key) {
            Some(value) => exists|i: int|
                0 <= i < s.len() && #[trigger] s[i] == (key, value) && forall|j: int|
                    0 <= j < i ==> s[j].0 != key,
            None => forall|i: int| 0 <= i < s.len() ==> (#[trigger] s[i]).0 != key,
        },
        contents(s).contains_key(key) <==> lookup(s, key) is Some,
        contents(s).contains_key(key) ==> Some(contents(s)[key]) == lookup(s, key),
{
    if lookup(s, key) is Some {
        let i = lemma_lookup_found(s, key);
        assert(s[i] == (key, lookup(s, key)->0));
    } else {
        assert forall|i: int| 0 <= i < s.len() implies (#[trigger] s[i]).0 != key by {
            lemma_lookup_finds(s, i);
        }
    }
}

/// Storing a pair keeps every other key's pair, replaces that of the key, and keeps the
/// list in order.
pub proof fn law_storing_replaces_one_pair(s: Seq<Pair>, key: Seq<u8>, value: Seq<u8>, p: Pair)
    requires
        strictly_sorted(s),
    ensures
        with_pair(s, key, value).contains(p) <==> p == (key, value) || (s.contains(p) && p.0
            != key),
        forall|i: int, j: int|
            0 <= i < j < with_pair(s, key, value).len() ==> key_lt(
                #[trigger] with_pair(s, key, value)[i].0,
                #[trigger] with_pair(s, key, value)[j].0,
            ),
{
    let t = with_pair(s, key, value);
    lemma_with_pair(s, key, value);
    if t.contains(p) {
        let i = choose|i: int| 0 <= i < t.len() && t[i] == p;
        lemma_lookup_sorted(t, i);
        if p.0 != key {
            let j = lemma_lookup_found(s, p.0);
            assert(s[j] == p);
        }
    }
    if p == (key, value) {
        let i = lemma_lookup_found(t, key);
        assert(t[i] == p);
    } else if s.contains(p) && p.0 != key {
        let i = choose|i: int| 0 <= i < s.len() && s[i] == p;
        lemma_lookup_sorted(s, i);
        let j = lemma_lookup_found(t, p.0);
        assert(t[j] == p);
    }
}

/// The live pairs are those whose value a reader sees, in their order.
pub proof fn law_live_pairs_are_the_seen_ones(s: Seq<Pair>, p: Pair)
    ensures
        live(Seq::empty()).len() == 0,
        live(s.push(p)) == (if visible(p.1) is None {
            live(s)
        } else {
            live(s).push(p)
        }),
        live(s).contains(p) <==> s.contains(p) && visible(p.1) is Some,
{
    reveal(Seq::filter);
    assert(s.push(p).drop_last() =~= s);
    lemma_filter_membership(s, |q: Pair| q.1 != tombstone(), p);
}

proof fn lemma_filter_membership(s: Seq<Pair>, keep: spec_fn(Pair) -> bool, p: Pair)
    ensures
        s.filter(keep).contains(p) <==> s.contains(p) && keep(p),
    decreases s.len(),
{
    reveal(Seq::filter);
    if s.len() > 0 {
        let front = s.drop_last();
        lemma_filter_membership(front, keep, p);
        assert(s =~= front.push(s.last()));
        if front.contains(p) {
            let i = choose|i: int| 0 <= i < front.len() && front[i] == p;
            assert(s[i] == p);
        }
        if s.contains(p) && p != s.last() {
            let i = choose|i: int| 0 <= i < s.len() && s[i] == p;
            assert(front[i] == p);
        }
        let kept = front.filter(keep);
        if kept.contains(p) {
            let i = choose|i: int| 0 <= i < kept.len() && kept[i] == p;
            assert(s.filter(keep)[i] == p);
        }
        if keep(s.last()) {
            assert(s.filter(keep)[kept.len() as int] == s.last());
            assert(s[s.len() - 1] == s.last());
            if s.filter(keep).contains(p) && p != s.last() {
                let i = choose|i: int| 0 <= i < s.filter(keep).len() && s.filter(keep)[i] == p;
                assert(kept[i] == p);
            }
        } else if p == s.last() {
            assert(!s.filter(keep).contains(p));
        }
    }
}

/// A scan of a sorted list gives, in the order of the keys, exactly the pairs that a
/// reader sees and whose key is the start of the range or comes behind it, and comes
/// before its end.
pub proof fn law_scan_gives_the_range(s: Seq<Pair>, start: Seq<u8>, end: Seq<u8>, p: Pair)
    requires
        strictly_sorted(s),
    ensures
        ({
            let found = live(s).filter(|q: Pair| in_range(q.0, start, end));
            &&& found.contains(p) <==> s.contains(p) && visible(p.1) is Some && (p.0 == start
                || key_lt(start, p.0)) && key_lt(p.0, end)
            &&& forall|i: int, j: int|
                0 <= i < j < found.len() ==> key_lt(#[trigger] found[i].0, #[trigger] found[j].0)
        }),
{
    let keep = |q: Pair| in_range(q.0, start, end);
    law_live_pairs_are_the_seen_ones(s, p);
    lemma_filter_membership(live(s), keep, p);
    lemma_live_lookup(s, start);
    lemma_filter_sorted(live(s), keep);
    lemma_key_lt_total(start, p.0);
    lemma_key_lt_irreflexive(start);
    if key_lt(start, p.0) {
        lemma_key_lt_asymmetric(start, p.0);
    }
}

/// Every pair counts with the bytes of its key and of its value.
pub proof fn law_size_is_a_sum(s: Seq<Pair>, p: Pair)
    ensures
        total_bytes(Seq::empty()) == 0,
        total_bytes(s.push(p)) == total_bytes(s) + p.0.len() + p.1.len(),
        keys_of(s.push(p)) == keys_of(s).push(p.0),
        keys_of(Seq::empty()).len() == 0,
{
    assert(s.push(p).drop_last() =~= s);
    assert(keys_of(s.push(p)) =~= keys_of(s).push(p.0));
}

/// Pairs held by a vector are seen as they are held.
pub proof fn law_pairs_are_seen_as_held(
    v: Seq<(Vec<u8>, Vec<u8>)>,
    r: Seq<(&Vec<u8>, &Vec<u8>)>,
)
    ensures
        pairs_of(v).len() == v.len(),
        forall|i: int| 0 <= i < v.len() ==> #[trigger] pairs_of(v)[i] == (v[i].0@, v[i].1@),
        pairs_referred(r).len() == r.len(),
        forall|i: int| 0 <= i < r.len() ==> #[trigger] pairs_referred(r)[i] == (r[i].0@, r[i].1@),
{
}

/// A list is sorted exactly if every key comes before every later one.
pub proof fn law_sorted_lists_increase(s: Seq<Pair>)
    ensures
        strictly_sorted(s) <==> forall|i: int, j: int|
            0 <= i < j < s.len() ==> key_lt(#[trigger] s[i].0, #[trigger] s[j].0),
{
}

} // verus!
