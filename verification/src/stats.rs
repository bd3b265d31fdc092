//! Counting of token n-grams.
use std::collections::HashMap;
use std::hash::Hash;
use vstd::prelude::*;

verus! {

broadcast use vstd::std_specs::hash::group_hash_axioms;

/// Number of positions of `s` that hold `t`.
pub open spec fn occurrences(s: Seq<u32>, t: u32) -> nat
    decreases s.len(),
{
    if s.len() == 0 {
        0
    } else {
        occurrences(s.drop_last(), t) + if s.last() == t {
            1nat
        } else {
            0nat
        }
    }
}

/// Number of positions `i` with `s[i] == p.0` and `s[i + 1] == p.1`.
pub open spec fn bigram_occurrences(s: Seq<u32>, p: (u32, u32)) -> nat
    decreases s.len(),
{
    if s.len() < 2 {
        0
    } else {
        bigram_occurrences(s.drop_last(), p) + if s[s.len() - 2] == p.0 && s[s.len() - 1] == p.1 {
            1nat
        } else {
            0nat
        }
    }
}

/// Number of positions `i` with `s[i] == p.0`, `s[i + 1] == p.1` and `s[i + 2] == p.2`.
pub open spec fn trigram_occurrences(s: Seq<u32>, p: (u32, u32, u32)) -> nat
    decreases s.len(),
{
    if s.len() < 3 {
        0
    } else {
        trigram_occurrences(s.drop_last(), p) + if s[s.len() - 3] == p.0 && s[s.len() - 2] == p.1
            && s[s.len() - 1] == p.2 {
            1nat
        } else {
            0nat
        }
    }
}

pub proof fn lemma_occurrences_bound(s: Seq<u32>, t: u32)
    ensures
        occurrences(s, t) <= s.len(),
    decreases s.len(),
{
    if s.len() > 0 {
        lemma_occurrences_bound(s.drop_last(), t);
    }
}

pub proof fn lemma_bigram_occurrences_bound(s: Seq<u32>, p: (u32, u32))
    ensures
        bigram_occurrences(s, p) <= s.len(),
    decreases s.len(),
{
    if s.len() >= 2 {
        lemma_bigram_occurrences_bound(s.drop_last(), p);
    }
}

proof fn lemma_trigram_occurrences_bound(s: Seq<u32>, p: (u32, u32, u32))
    ensures
        trigram_occurrences(s, p) <= s.len(),
    decreases s.len(),
{
    if s.len() >= 3 {
        lemma_trigram_occurrences_bound(s.drop_last(), p);
    }
}

/// Key types made of integers only, whose `==` and hash are those of the integers.
pub(crate) trait IntegerTupleKey: Eq + Hash {

}

impl IntegerTupleKey for (u32, u32) {

}

impl IntegerTupleKey for (u32, u32, u32) {

}

/// The map from keys to values that a list of pairs with pairwise distinct keys describes.
pub open spec fn pairs_map<K, V>(pairs: Seq<(K, V)>) -> Map<K, V>
    decreases pairs.len(),
{
    if pairs.len() == 0 {
        Map::empty()
    } else {
        pairs_map(pairs.drop_last()).insert(pairs.last().0, pairs.last().1)
    }
}

/// Collects the pairs into a `HashMap` with `HashMap::from_iter`.
/// Claimed of std: for keys made of integers, given pairs with pairwise distinct keys,
/// the map holds exactly these pairs.
#[verifier::external_body]
pub(crate) fn collect_into_map<K: IntegerTupleKey, V>(pairs: Vec<(K, V)>) -> (m: HashMap<K, V>)
    requires
        forall|i: int, j: int| 0 <= i < j < pairs@.len() ==> pairs@[i].0 != pairs@[j].0,
    ensures
        m@ == pairs_map(pairs@),
{
    HashMap::from_iter(pairs)
}

/// The key under which a pair of ids is counted internally.
spec fn bigram_key(p: (u32, u32)) -> u64 {
    (p.0 as u64 * 0x1_0000_0000 + p.1 as u64) as u64
}

/// The key under which a triple of ids is counted internally.
spec fn trigram_key(p: (u32, u32, u32)) -> u128 {
    (p.0 as u128 * 0x1_0000_0000_0000_0000 + p.1 as u128 * 0x1_0000_0000 + p.2 as u128) as u128
}

proof fn lemma_bigram_key_injective(p: (u32, u32), q: (u32, u32))
    ensures
        bigram_key(p) == bigram_key(q) ==> p == q,
{
    assert(p.0 as u64 * 0x1_0000_0000 + p.1 as u64 <= u64::MAX) by (nonlinear_arith);
    assert(q.0 as u64 * 0x1_0000_0000 + q.1 as u64 <= u64::MAX) by (nonlinear_arith);
    if bigram_key(p) == bigram_key(q) {
        assert(p.0 == q.0) by (nonlinear_arith)
            requires
                p.0 as int * 0x1_0000_0000 + p.1 as int == q.0 as int * 0x1_0000_0000 + q.1 as int,
                0 <= p.1 < 0x1_0000_0000,
                0 <= q.1 < 0x1_0000_0000,
        ;
    }
}

proof fn lemma_trigram_key_injective(p: (u32, u32, u32), q: (u32, u32, u32))
    ensures
        trigram_key(p) == trigram_key(q) ==> p == q,
{
    let lo_p = p.1 as int * 0x1_0000_0000 + p.2 as int;
    let lo_q = q.1 as int * 0x1_0000_0000 + q.2 as int;
    assert(0 <= lo_p < 0x1_0000_0000_0000_0000) by (nonlinear_arith)
        requires
            lo_p == p.1 as int * 0x1_0000_0000 + p.2 as int,
            0 <= p.1 < 0x1_0000_0000,
            0 <= p.2 < 0x1_0000_0000,
    ;
    assert(0 <= lo_q < 0x1_0000_0000_0000_0000) by (nonlinear_arith)
        requires
            lo_q == q.1 as int * 0x1_0000_0000 + q.2 as int,
            0 <= q.1 < 0x1_0000_0000,
            0 <= q.2 < 0x1_0000_0000,
    ;
    assert(p.0 as int * 0x1_0000_0000_0000_0000 + lo_p <= u128::MAX) by (nonlinear_arith)
        requires
            0 <= p.0 < 0x1_0000_0000,
            0 <= lo_p < 0x1_0000_0000_0000_0000,
    ;
    assert(q.0 as int * 0x1_0000_0000_0000_0000 + lo_q <= u128::MAX) by (nonlinear_arith)
        requires
            0 <= q.0 < 0x1_0000_0000,
            0 <= lo_q < 0x1_0000_0000_0000_0000,
    ;
    if trigram_key(p) == trigram_key(q) {
        assert(p.0 == q.0 && lo_p == lo_q) by (nonlinear_arith)
            requires
                p.0 as int * 0x1_0000_0000_0000_0000 + lo_p == q.0 as int * 0x1_0000_0000_0000_0000
                    + lo_q,
                0 <= lo_p < 0x1_0000_0000_0000_0000,
                0 <= lo_q < 0x1_0000_0000_0000_0000,
        ;
        assert(p.1 == q.1) by (nonlinear_arith)
            requires
                lo_p == p.1 as int * 0x1_0000_0000 + p.2 as int,
                lo_q == q.1 as int * 0x1_0000_0000 + q.2 as int,
                lo_p == lo_q,
                0 <= p.2 < 0x1_0000_0000,
                0 <= q.2 < 0x1_0000_0000,
        ;
    }
}

/// Collect trigram counts from a token sequence
pub fn collect_trigram_counts(tokens: &[u32]) -> (counts: HashMap<(u32, u32, u32), u64>)
    ensures
        forall|p: (u32, u32, u32)|
            #![trigger counts@.contains_key(p)]
            #![trigger counts@[p]]
            (counts@.contains_key(p) <==> trigram_occurrences(tokens@, p) > 0) && (counts@.contains_key(p)
                ==> counts@[p] == trigram_occurrences(tokens@, p)),
{
    let n = tokens.len();
    let mut by_key: HashMap<u128, u64> = HashMap::new();
    let mut order: Vec<(u32, u32, u32)> = Vec::new();
    if n >= 3 {
        let mut i: usize = 0;
        while i < n - 2
            invariant
                n == tokens@.len(),
                n >= 3,
                i <= n - 2,
                forall|a: int, b: int| 0 <= a < b < order@.len() ==> order@[a] != order@[b],
                forall|k: u128| #[trigger]
                    by_key@.contains_key(k) ==> exists|j: int|
                        0 <= j < order@.len() && trigram_key(order@[j]) == k,
                forall|j: int|
                    0 <= j < order@.len() ==> by_key@.contains_key(trigram_key(#[trigger] order@[j]))
                        && by_key@[trigram_key(order@[j])] == trigram_occurrences(
                        tokens@.take(i + 2),
                        order@[j],
                    ) && trigram_occurrences(tokens@.take(i + 2), order@[j]) > 0,
                forall|p: (u32, u32, u32)|
                    #[trigger] trigram_occurrences(tokens@.take(i + 2), p) > 0 ==> exists|j: int|
                        0 <= j < order@.len() && order@[j] == p,
            decreases n - 2 - i,
        {
            let tri = (tokens[i], tokens[i + 1], tokens[i + 2]);
            let key = (tokens[i] as u128) * 0x1_0000_0000_0000_0000u128 + (tokens[i + 1] as u128)
                * 0x1_0000_0000u128 + (tokens[i + 2] as u128);
            let ghost pre = tokens@.take(i + 2);
            let ghost cur = tokens@.take(i + 3);
            proof {
                assert(cur.drop_last() =~= pre);
                assert(key == trigram_key(tri));
                assert forall|p: (u32, u32, u32)|
                    trigram_occurrences(cur, p) == trigram_occurrences(pre, p) + if p == tri {
                        1nat
                    } else {
                        0nat
                    } by {
                    assert(cur[cur.len() - 3] == tri.0);
                }
                lemma_trigram_occurrences_bound(pre, tri);
                assert forall|j: int| 0 <= j < order@.len() && trigram_key(order@[j]) == key implies
                    order@[j] == tri by {
                    lemma_trigram_key_injective(order@[j], tri);
                }
            }
            let old_count = match by_key.get(&key) {
                Some(c) => *c,
                None => 0u64,
            };
            let ghost old_order = order@;
            let ghost old_map = by_key@;
            let ghost mut pos: int = 0;
            if old_count == 0 {
                proof {
                    assert forall|j: int| 0 <= j < order@.len() implies order@[j] != tri by {
                        if order@[j] == tri {
                            assert(by_key@.contains_key(trigram_key(order@[j])));
                        }
                    }
                    assert(trigram_occurrences(pre, tri) == 0) by {
                        if trigram_occurrences(pre, tri) > 0 {
                            let j = choose|j: int| 0 <= j < order@.len() && order@[j] == tri;
                        }
                    }
                }
                order.push(tri);
                proof {
                    pos = order@.len() - 1;
                }
            } else {
                proof {
                    let j = choose|j: int| 0 <= j < order@.len() && trigram_key(order@[j]) == key;
                    assert(order@[j] == tri);
                    pos = j;
                }
            }
            by_key.insert(key, old_count + 1);
            proof {
                assert(0 <= pos < order@.len() && order@[pos] == tri);
                assert forall|j: int| 0 <= j < old_order.len() implies order@[j] == old_order[j] by {}
                assert forall|j: int| 0 <= j < order@.len() implies by_key@.contains_key(
                    trigram_key(#[trigger] order@[j]),
                ) && by_key@[trigram_key(order@[j])] == trigram_occurrences(cur, order@[j])
                    && trigram_occurrences(cur, order@[j]) > 0 by {
                    lemma_trigram_key_injective(order@[j], tri);
                    if order@[j] != tri {
                        assert(j < old_order.len());
                        assert(old_map.contains_key(trigram_key(old_order[j])));
                    }
                }
                assert forall|k: u128| #[trigger] by_key@.contains_key(k) implies exists|j: int|
                    0 <= j < order@.len() && trigram_key(order@[j]) == k by {
                    if k == key {
                        assert(trigram_key(order@[pos]) == k);
                    } else {
                        assert(old_map.contains_key(k));
                        let j = choose|j: int| 0 <= j < old_order.len() && trigram_key(old_order[j]) == k;
                        assert(trigram_key(order@[j]) == k);
                    }
                }
                assert forall|p: (u32, u32, u32)| #[trigger]
                    trigram_occurrences(cur, p) > 0 implies exists|j: int|
                    0 <= j < order@.len() && order@[j] == p by {
                    if p == tri {
                        assert(order@[pos] == p);
                    } else {
                        assert(trigram_occurrences(pre, p) > 0);
                        let j = choose|j: int| 0 <= j < old_order.len() && old_order[j] == p;
                        assert(order@[j] == p);
                    }
                }
            }
            i = i + 1;
        }
        assert(tokens@.take(i + 2) =~= tokens@);
    } else {
        assert forall|p: (u32, u32, u32)| trigram_occurrences(tokens@, p) == 0 by {}
    }
    let pairs = tally_pairs_trigram(&order, &by_key);
    let counts = collect_into_map(pairs);
    proof {
        lemma_pairs_map_lookup(pairs@);
        assert forall|p: (u32, u32, u32)|
            (counts@.contains_key(p) <==> trigram_occurrences(tokens@, p) > 0) && (counts@.contains_key(p)
                ==> counts@[p] == trigram_occurrences(tokens@, p)) by {
            if counts@.contains_key(p) {
                let i = choose|i: int| 0 <= i < pairs@.len() && pairs@[i].0 == p;
                assert(pairs@[i].0 == order@[i]);
            }
            if trigram_occurrences(tokens@, p) > 0 {
                let j = choose|j: int| 0 <= j < order@.len() && order@[j] == p;
                assert(pairs@[j].0 == p);
            }
        }
    }
    counts
}

/// Lists each key of `order` with its count in `by_key`.
fn tally_pairs_trigram(order: &Vec<(u32, u32, u32)>, by_key: &HashMap<u128, u64>) -> (pairs: Vec<
    ((u32, u32, u32), u64),
>)
    requires
        forall|j: int| 0 <= j < order@.len() ==> by_key@.contains_key(trigram_key(#[trigger] order@[j])),
    ensures
        pairs@.len() == order@.len(),
        forall|j: int|
            0 <= j < order@.len() ==> #[trigger] pairs@[j] == (order@[j], by_key@[trigram_key(order@[j])]),
{
    let mut pairs: Vec<((u32, u32, u32), u64)> = Vec::new();
    let mut j: usize = 0;
    while j < order.len()
        invariant
            j <= order@.len(),
            pairs@.len() == j,
            forall|j: int| 0 <= j < order@.len() ==> by_key@.contains_key(trigram_key(#[trigger] order@[j])),
            forall|k: int|
                0 <= k < j ==> #[trigger] pairs@[k] == (order@[k], by_key@[trigram_key(order@[k])]),
        decreases order@.len() - j,
    {
        let p = order[j];
        let key = (p.0 as u128) * 0x1_0000_0000_0000_0000u128 + (p.1 as u128) * 0x1_0000_0000u128 + (
        p.2 as u128);
        assert(key == trigram_key(p));
        let c = match by_key.get(&key) {
            Some(c) => *c,
            None => 0u64,
        };
        pairs.push((p, c));
        j = j + 1;
    }
    pairs
}

/// Lists each key of `order` with its count in `by_key`.
fn tally_pairs_bigram(order: &Vec<(u32, u32)>, by_key: &HashMap<u64, u64>) -> (pairs: Vec<
    ((u32, u32), u64),
>)
    requires
        forall|j: int| 0 <= j < order@.len() ==> by_key@.contains_key(bigram_key(#[trigger] order@[j])),
    ensures
        pairs@.len() == order@.len(),
        forall|j: int|
            0 <= j < order@.len() ==> #[trigger] pairs@[j] == (order@[j], by_key@[bigram_key(order@[j])]),
{
    let mut pairs: Vec<((u32, u32), u64)> = Vec::new();
    let mut j: usize = 0;
    while j < order.len()
        invariant
            j <= order@.len(),
            pairs@.len() == j,
            forall|j: int| 0 <= j < order@.len() ==> by_key@.contains_key(bigram_key(#[trigger] order@[j])),
            forall|k: int|
                0 <= k < j ==> #[trigger] pairs@[k] == (order@[k], by_key@[bigram_key(order@[k])]),
        decreases order@.len() - j,
    {
        let p = order[j];
        let key = (p.0 as u64) * 0x1_0000_0000u64 + (p.1 as u64);
        assert(key == bigram_key(p));
        let c = match by_key.get(&key) {
            Some(c) => *c,
            None => 0u64,
        };
        pairs.push((p, c));
        j = j + 1;
    }
    pairs
}

/// In a list of pairs with distinct keys, the map of the list sends each key to its value.
pub(crate) proof fn lemma_pairs_map_lookup<K, V>(pairs: Seq<(K, V)>)
    requires
        forall|i: int, j: int| 0 <= i < j < pairs.len() ==> pairs[i].0 != pairs[j].0,
    ensures
        forall|k: K|
            #[trigger] pairs_map(pairs).contains_key(k) <==> exists|i: int|
                0 <= i < pairs.len() && pairs[i].0 == k,
        forall|i: int| 0 <= i < pairs.len() ==> #[trigger] pairs_map(pairs)[pairs[i].0] == pairs[i].1,
    decreases pairs.len(),
{
    if pairs.len() > 0 {
        let rest = pairs.drop_last();
        lemma_pairs_map_lookup(rest);
        assert forall|k: K|
            #[trigger] pairs_map(pairs).contains_key(k) <==> exists|i: int|
                0 <= i < pairs.len() && pairs[i].0 == k by {
            if pairs_map(pairs).contains_key(k) && k != pairs.last().0 {
                assert(pairs_map(rest).contains_key(k));
                let i = choose|i: int| 0 <= i < rest.len() && rest[i].0 == k;
                assert(rest[i] == pairs[i]);
            }
            if k == pairs.last().0 {
                assert(pairs[pairs.len() - 1].0 == k);
            }
            if exists|i: int| 0 <= i < pairs.len() && pairs[i].0 == k {
                let i = choose|i: int| 0 <= i < pairs.len() && pairs[i].0 == k;
                if i < pairs.len() - 1 {
                    assert(rest[i].0 == k);
                    assert(pairs_map(rest).contains_key(k));
                }
            }
        }
        assert forall|i: int| 0 <= i < pairs.len() implies #[trigger] pairs_map(pairs)[pairs[i].0]
            == pairs[i].1 by {
            if i < pairs.len() - 1 {
                assert(rest[i] == pairs[i]);
                assert(pairs[i].0 != pairs[pairs.len() - 1].0);
                assert(pairs_map(rest)[rest[i].0] == rest[i].1);
            }
        }
    }
}

/// Collect bigram counts from a token sequence
pub fn collect_bigram_counts(tokens: &[u32]) -> (counts: HashMap<(u32, u32), u64>)
    ensures
        forall|p: (u32, u32)|
            #![trigger counts@.contains_key(p)]
            #![trigger counts@[p]]
            (counts@.contains_key(p) <==> bigram_occurrences(tokens@, p) > 0) && (counts@.contains_key(p)
                ==> counts@[p] == bigram_occurrences(tokens@, p)),
{
    let n = tokens.len();
    let mut by_key: HashMap<u64, u64> = HashMap::new();
    let mut order: Vec<(u32, u32)> = Vec::new();
    if n >= 2 {
        let mut i: usize = 0;
        while i < n - 1
            invariant
                n == tokens@.len(),
                n >= 2,
                i <= n - 1,
                forall|a: int, b: int| 0 <= a < b < order@.len() ==> order@[a] != order@[b],
                forall|k: u64| #[trigger]
                    by_key@.contains_key(k) ==> exists|j: int|
                        0 <= j < order@.len() && bigram_key(order@[j]) == k,
                forall|j: int|
                    0 <= j < order@.len() ==> by_key@.contains_key(bigram_key(#[trigger] order@[j]))
                        && by_key@[bigram_key(order@[j])] == bigram_occurrences(
                        tokens@.take(i + 1),
                        order@[j],
                    ) && bigram_occurrences(tokens@.take(i + 1), order@[j]) > 0,
                forall|p: (u32, u32)|
                    #[trigger] bigram_occurrences(tokens@.take(i + 1), p) > 0 ==> exists|j: int|
                        0 <= j < order@.len() && order@[j] == p,
            decreases n - 1 - i,
        {
            let pair = (tokens[i], tokens[i + 1]);
            let key = (tokens[i] as u64) * 0x1_0000_0000u64 + (tokens[i + 1] as u64);
            let ghost pre = tokens@.take(i + 1);
            let ghost cur = tokens@.take(i + 2);
            proof {
                assert(cur.drop_last() =~= pre);
                assert(key == bigram_key(pair));
                assert forall|p: (u32, u32)|
                    bigram_occurrences(cur, p) == bigram_occurrences(pre, p) + if p == pair {
                        1nat
                    } else {
                        0nat
                    } by {
                    assert(cur[cur.len() - 2] == pair.0);
                }
                lemma_bigram_occurrences_bound(pre, pair);
                assert forall|j: int| 0 <= j < order@.len() && bigram_key(order@[j]) == key implies
                    order@[j] == pair by {
                    lemma_bigram_key_injective(order@[j], pair);
                }
            }
            let old_count = match by_key.get(&key) {
                Some(c) => *c,
                None => 0u64,
            };
            let ghost old_order = order@;
            let ghost old_map = by_key@;
            let ghost mut pos: int = 0;
            if old_count == 0 {
                proof {
                    assert forall|j: int| 0 <= j < order@.len() implies order@[j] != pair by {
                        if order@[j] == pair {
                            assert(by_key@.contains_key(bigram_key(order@[j])));
                        }
                    }
                    assert(bigram_occurrences(pre, pair) == 0) by {
                        if bigram_occurrences(pre, pair) > 0 {
                            let j = choose|j: int| 0 <= j < order@.len() && order@[j] == pair;
                        }
                    }
                }
                order.push(pair);
                proof {
                    pos = order@.len() - 1;
                }
            } else {
                proof {
                    let j = choose|j: int| 0 <= j < order@.len() && bigram_key(order@[j]) == key;
                    assert(order@[j] == pair);
                    pos = j;
                }
            }
            by_key.insert(key, old_count + 1);
            proof {
                assert(0 <= pos < order@.len() && order@[pos] == pair);
                assert forall|j: int| 0 <= j < old_order.len() implies order@[j] == old_order[j] by {}
                assert forall|j: int| 0 <= j < order@.len() implies by_key@.contains_key(
                    bigram_key(#[trigger] order@[j]),
                ) && by_key@[bigram_key(order@[j])] == bigram_occurrences(cur, order@[j])
                    && bigram_occurrences(cur, order@[j]) > 0 by {
                    lemma_bigram_key_injective(order@[j], pair);
                    if order@[j] != pair {
                        assert(j < old_order.len());
                        assert(old_map.contains_key(bigram_key(old_order[j])));
                    }
                }
                assert forall|k: u64| #[trigger] by_key@.contains_key(k) implies exists|j: int|
                    0 <= j < order@.len() && bigram_key(order@[j]) == k by {
                    if k == key {
                        assert(bigram_key(order@[pos]) == k);
                    } else {
                        assert(old_map.contains_key(k));
                        let j = choose|j: int| 0 <= j < old_order.len() && bigram_key(old_order[j]) == k;
                        assert(bigram_key(order@[j]) == k);
                    }
                }
                assert forall|p: (u32, u32)| #[trigger]
                    bigram_occurrences(cur, p) > 0 implies exists|j: int|
                    0 <= j < order@.len() && order@[j] == p by {
                    if p == pair {
                        assert(order@[pos] == p);
                    } else {
                        assert(bigram_occurrences(pre, p) > 0);
                        let j = choose|j: int| 0 <= j < old_order.len() && old_order[j] == p;
                        assert(order@[j] == p);
                    }
                }
            }
            i = i + 1;
        }
        assert(tokens@.take(i + 1) =~= tokens@);
    } else {
        assert forall|p: (u32, u32)| bigram_occurrences(tokens@, p) == 0 by {}
    }
    let pairs = tally_pairs_bigram(&order, &by_key);
    let counts = collect_into_map(pairs);
    proof {
        lemma_pairs_map_lookup(pairs@);
        assert forall|p: (u32, u32)|
            (counts@.contains_key(p) <==> bigram_occurrences(tokens@, p) > 0) && (counts@.contains_key(p)
                ==> counts@[p] == bigram_occurrences(tokens@, p)) by {
            if counts@.contains_key(p) {
                let i = choose|i: int| 0 <= i < pairs@.len() && pairs@[i].0 == p;
                assert(pairs@[i].0 == order@[i]);
            }
            if bigram_occurrences(tokens@, p) > 0 {
                let j = choose|j: int| 0 <= j < order@.len() && order@[j] == p;
                assert(pairs@[j].0 == p);
            }
        }
    }
    counts
}

/// Collect unigram counts from a token sequence
pub fn collect_unigram_counts(tokens: &[u32]) -> (counts: HashMap<u32, u64>)
    ensures
        forall|t: u32|
            #![trigger counts@.contains_key(t)]
            #![trigger counts@[t]]
            (counts@.contains_key(t) <==> occurrences(tokens@, t) > 0) && (counts@.contains_key(t)
                ==> counts@[t] == occurrences(tokens@, t)),
{
    let mut counts: HashMap<u32, u64> = HashMap::new();
    let mut i: usize = 0;
    while i < tokens.len()
        invariant
            i <= tokens@.len(),
            forall|t: u32|
                #![trigger counts@.contains_key(t)]
                #![trigger counts@[t]]
                (counts@.contains_key(t) <==> occurrences(tokens@.take(i as int), t) > 0) && (
                counts@.contains_key(t) ==> counts@[t] == occurrences(tokens@.take(i as int), t)),
        decreases tokens@.len() - i,
    {
        let t = tokens[i];
        let ghost pre = tokens@.take(i as int);
        let ghost cur = tokens@.take(i + 1);
        proof {
            assert(cur.drop_last() =~= pre);
            lemma_occurrences_bound(pre, t);
            assert(occurrences(cur, t) == occurrences(pre, t) + 1);
        }
        let old_count = match counts.get(&t) {
            Some(c) => *c,
            None => 0u64,
        };
        counts.insert(t, old_count + 1);
        i = i + 1;
        proof {
            assert forall|u: u32| u != t implies occurrences(cur, u) == occurrences(pre, u) by {}
        }
    }
    assert(tokens@.take(i as int) =~= tokens@);
    counts
}

} // verus!
