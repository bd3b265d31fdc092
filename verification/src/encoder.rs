use vstd::prelude::*;

use crate::trie::{entries_view, lemma_prefix_matches_shape, prefix_matches, Trie};
use crate::vocab::{byte_level_base, lemma_token_map, numbered, token_entries, token_map, Token, Vocabulary};

verus! {

/// The bytes that the token ids `ids` stand for, one token after another.
pub open spec fn decode_ids(tokens: Seq<Token>, ids: Seq<u32>) -> Seq<u8>
    decreases ids.len(),
{
    if ids.len() == 0 {
        Seq::empty()
    } else {
        decode_ids(tokens, ids.drop_last()) + tokens[ids.last() as int].bytes@
    }
}

/// Every id names a token.
pub open spec fn valid_ids(tokens: Seq<Token>, ids: Seq<u32>) -> bool {
    forall|k: int| 0 <= k < ids.len() ==> #[trigger] ids[k] < tokens.len()
}

/// Decoding a concatenation decodes each part.
pub proof fn lemma_decode_concat(tokens: Seq<Token>, a: Seq<u32>, b: Seq<u32>)
    ensures
        decode_ids(tokens, a + b) == decode_ids(tokens, a) + decode_ids(tokens, b),
    decreases b.len(),
{
    if b.len() == 0 {
        assert(a + b =~= a);
        assert(decode_ids(tokens, a) + decode_ids(tokens, b) =~= decode_ids(tokens, a));
    } else {
        lemma_decode_concat(tokens, a, b.drop_last());
        assert((a + b).drop_last() =~= a + b.drop_last());
        assert(decode_ids(tokens, a + b) =~= decode_ids(tokens, a) + decode_ids(tokens, b));
    }
}

/// Decoding a single id gives the token's bytes.
pub proof fn lemma_decode_single(tokens: Seq<Token>, t: u32)
    ensures
        decode_ids(tokens, seq![t]) == tokens[t as int].bytes@,
{
    assert(seq![t].drop_last() =~= Seq::<u32>::empty());
    assert(decode_ids(tokens, Seq::<u32>::empty()) == Seq::<u8>::empty());
    assert(decode_ids(tokens, seq![t]) =~= tokens[t as int].bytes@);
}

/// Length of the longest non-empty prefix of `s`, of length at most `l`, that `m` holds
/// (0 if there is none).
pub open spec fn longest_prefix(m: Map<Seq<u8>, u32>, s: Seq<u8>, l: nat) -> nat
    decreases l,
{
    if l == 0 {
        0
    } else if m.contains_key(s.take(l as int)) {
        l
    } else {
        longest_prefix(m, s, (l - 1) as nat)
    }
}

pub proof fn lemma_longest_prefix_bound(m: Map<Seq<u8>, u32>, s: Seq<u8>, l: nat)
    ensures
        longest_prefix(m, s, l) <= l,
        longest_prefix(m, s, l) > 0 ==> m.contains_key(s.take(longest_prefix(m, s, l) as int)),
    decreases l,
{
    if l > 0 {
        lemma_longest_prefix_bound(m, s, (l - 1) as nat);
    }
}

/// The last prefix match is the longest prefix.
proof fn lemma_last_match_is_longest(m: Map<Seq<u8>, u32>, s: Seq<u8>, l: nat)
    requires
        l <= usize::MAX,
    ensures
        (prefix_matches(m, s, l).len() == 0) == (longest_prefix(m, s, l) == 0),
        prefix_matches(m, s, l).len() > 0 ==> {
            let last = prefix_matches(m, s, l).last();
            &&& last.1 == longest_prefix(m, s, l)
            &&& last.0 == m[s.take(last.1 as int)]
        },
    decreases l,
{
    if l > 0 {
        lemma_last_match_is_longest(m, s, (l - 1) as nat);
    }
}

/// Greedy segmentation: take the longest prefix that is a token, or else the
/// first byte on its own (as the id equal to its value), then continue after it.
pub open spec fn greedy_tokens(m: Map<Seq<u8>, u32>, s: Seq<u8>) -> Seq<u32>
    decreases s.len(),
{
    if s.len() == 0 {
        Seq::empty()
    } else {
        let l = longest_prefix(m, s, s.len());
        proof {
            lemma_longest_prefix_bound(m, s, s.len());
        }
        if l > 0 {
            seq![m[s.take(l as int)]] + greedy_tokens(m, s.skip(l as int))
        } else {
            seq![s[0] as u32] + greedy_tokens(m, s.skip(1))
        }
    }
}


/// `ids` spells `input`: every id names a token and the tokens' bytes, in
/// order, make up the input.
pub open spec fn is_segmentation(tokens: Seq<Token>, input: Seq<u8>, ids: Seq<u32>) -> bool {
    valid_ids(tokens, ids) && decode_ids(tokens, ids) == input
}

/// `ids` spells `input` with as few tokens as any spelling of it.
pub open spec fn is_shortest_segmentation(tokens: Seq<Token>, input: Seq<u8>, ids: Seq<u32>) -> bool {
    &&& is_segmentation(tokens, input, ids)
    &&& forall|other: Seq<u32>| #[trigger] is_segmentation(tokens, input, other) ==> ids.len() <= other.len()
}

/// Greedy segmentation spells its input, over a vocabulary that holds every byte.
pub proof fn lemma_greedy_is_segmentation(tokens: Seq<Token>, s: Seq<u8>)
    requires
        numbered(tokens),
        byte_level_base(tokens),
        tokens.len() <= u32::MAX + 1,
    ensures
        is_segmentation(tokens, s, greedy_tokens(token_map(tokens), s)),
    decreases s.len(),
{
    let m = token_map(tokens);
    if s.len() == 0 {
        assert(decode_ids(tokens, greedy_tokens(m, s)) =~= s);
    } else {
        lemma_token_map(tokens);
        let l = longest_prefix(m, s, s.len());
        lemma_longest_prefix_bound(m, s, s.len());
        let g = greedy_tokens(m, s);
        if l > 0 {
            let t = m[s.take(l as int)];
            lemma_greedy_is_segmentation(tokens, s.skip(l as int));
            let rest = greedy_tokens(m, s.skip(l as int));
            assert(g == seq![t] + rest);
            lemma_decode_concat(tokens, seq![t], rest);
            lemma_decode_single(tokens, t);
            assert(s =~= s.take(l as int) + s.skip(l as int));
            assert forall|k: int| 0 <= k < g.len() implies #[trigger] g[k] < tokens.len() by {
                if k > 0 {
                    assert(g[k] == rest[k - 1]);
                }
            }
        } else {
            let t = s[0] as u32;
            lemma_greedy_is_segmentation(tokens, s.skip(1));
            let rest = greedy_tokens(m, s.skip(1));
            assert(g == seq![t] + rest);
            lemma_decode_concat(tokens, seq![t], rest);
            lemma_decode_single(tokens, t);
            assert(tokens[s[0] as int].bytes@ == seq![s[0]]);
            assert(s =~= seq![s[0]] + s.skip(1));
            assert forall|k: int| 0 <= k < g.len() implies #[trigger] g[k] < tokens.len() by {
                if k > 0 {
                    assert(g[k] == rest[k - 1]);
                }
            }
        }
    }
}

/// A shortest segmentation takes no more tokens than the greedy one.
pub proof fn lemma_shortest_at_most_greedy(tokens: Seq<Token>, input: Seq<u8>, ids: Seq<u32>)
    requires
        numbered(tokens),
        byte_level_base(tokens),
        tokens.len() <= u32::MAX + 1,
        is_shortest_segmentation(tokens, input, ids),
    ensures
        ids.len() <= greedy_tokens(token_map(tokens), input).len(),
{
    lemma_greedy_is_segmentation(tokens, input);
}

/// Token `id` is a longest token that `s` continues with at `pos`: its bytes,
/// at least one, follow in `s` from `pos`, and no token whose bytes follow
/// there is longer.
pub open spec fn longest_token_at(tokens: Seq<Token>, s: Seq<u8>, pos: int, id: u32) -> bool {
    let b = tokens[id as int].bytes@;
    &&& id < tokens.len()
    &&& b.len() >= 1
    &&& 0 <= pos
    &&& pos + b.len() <= s.len()
    &&& s.subrange(pos, pos + b.len()) == b
    &&& forall|j: int|
        0 <= j < tokens.len() && pos + (#[trigger] tokens[j]).bytes@.len() <= s.len() && s.subrange(
            pos,
            pos + tokens[j].bytes@.len(),
        ) == tokens[j].bytes@ ==> tokens[j].bytes@.len() <= b.len()
}

/// A token held in `m` that prefixes `s` within the first `l` bytes is no
/// longer than the longest one found.
proof fn lemma_longest_prefix_at_least(m: Map<Seq<u8>, u32>, s: Seq<u8>, l: nat, len: nat)
    requires
        1 <= len <= l,
        m.contains_key(s.take(len as int)),
    ensures
        len <= longest_prefix(m, s, l),
    decreases l,
{
    if l > len && !m.contains_key(s.take(l as int)) {
        lemma_longest_prefix_at_least(m, s, (l - 1) as nat, len);
    }
}

/// Greedy encoding takes the longest match: each token it emits is one of
/// the longest tokens that the input continues with where that token starts.
pub proof fn lemma_greedy_takes_longest(tokens: Seq<Token>, s: Seq<u8>)
    requires
        numbered(tokens),
        byte_level_base(tokens),
        tokens.len() <= u32::MAX + 1,
    ensures
        forall|k: int|
            0 <= k < greedy_tokens(token_map(tokens), s).len() ==> longest_token_at(
                tokens,
                s,
                decode_ids(tokens, greedy_tokens(token_map(tokens), s).take(k)).len() as int,
                #[trigger] greedy_tokens(token_map(tokens), s)[k],
            ),
    decreases s.len(),
{
    let m = token_map(tokens);
    let g = greedy_tokens(m, s);
    if s.len() > 0 {
        lemma_token_map(tokens);
        let n = s.len();
        assert(s.take(1) =~= seq![s[0]]);
        assert(tokens[s[0] as int].bytes@ == seq![s[0]]);
        assert(m.contains_key(tokens[s[0] as int].bytes@));
        lemma_longest_prefix_at_least(m, s, n, 1);
        let l = longest_prefix(m, s, n);
        lemma_longest_prefix_bound(m, s, n);
        let t = m[s.take(l as int)];
        assert(tokens[t as int].bytes@ == s.take(l as int));
        let s2 = s.skip(l as int);
        let rest = greedy_tokens(m, s2);
        assert(g == seq![t] + rest);
        lemma_greedy_takes_longest(tokens, s2);
        assert forall|k: int| 0 <= k < g.len() implies longest_token_at(
            tokens,
            s,
            decode_ids(tokens, g.take(k)).len() as int,
            #[trigger] g[k],
        ) by {
            if k == 0 {
                assert(g.take(0) =~= Seq::<u32>::empty());
                assert(decode_ids(tokens, g.take(0)) == Seq::<u8>::empty());
                assert(s.subrange(0, l as int) =~= s.take(l as int));
                let z: int = 0;
                assert forall|j: int|
                    0 <= j < tokens.len() && z + (#[trigger] tokens[j]).bytes@.len() <= s.len() && s.subrange(
                        z,
                        z + tokens[j].bytes@.len(),
                    ) == tokens[j].bytes@ implies tokens[j].bytes@.len() <= l by {
                    let len = tokens[j].bytes@.len();
                    if len >= 1 {
                        assert(s.take(len as int) =~= s.subrange(0, len as int));
                        assert(m.contains_key(tokens[j].bytes@));
                        lemma_longest_prefix_at_least(m, s, n, len);
                    }
                }
            } else {
                let r = rest.take(k - 1);
                assert(g.take(k) =~= seq![t] + r);
                assert(g[k] == rest[k - 1]);
                lemma_decode_concat(tokens, seq![t], r);
                lemma_decode_single(tokens, t);
                let pos2 = decode_ids(tokens, r).len() as int;
                let pos = decode_ids(tokens, g.take(k)).len() as int;
                assert(pos == l + pos2);
                let id = rest[k - 1];
                assert(longest_token_at(tokens, s2, pos2, id));
                let b = tokens[id as int].bytes@;
                assert(s.subrange(pos, pos + b.len()) =~= s2.subrange(pos2, pos2 + b.len()));
                assert forall|j: int|
                    0 <= j < tokens.len() && pos + (#[trigger] tokens[j]).bytes@.len() <= s.len() && s.subrange(
                        pos,
                        pos + tokens[j].bytes@.len(),
                    ) == tokens[j].bytes@ implies tokens[j].bytes@.len() <= b.len() by {
                    let len = tokens[j].bytes@.len();
                    assert(s.subrange(pos, pos + len) =~= s2.subrange(pos2, pos2 + len));
                }
            }
        }
    }
}

/// Back-pointers of a segmentation table over `input`: every reached position
/// `p > 0` is reached by a token that spans `input[back[p].1 .. p]` from an
/// earlier reached position.
pub open spec fn back_ok(
    tokens: Seq<Token>,
    input: Seq<u8>,
    back: Seq<(u32, usize)>,
    reached: Seq<bool>,
) -> bool {
    &&& back.len() == input.len() + 1
    &&& reached.len() == input.len() + 1
    &&& reached[0]
    &&& forall|p: int|
        0 < p <= input.len() && #[trigger] reached[p] ==> {
            let (t, q) = back[p];
            &&& q < p
            &&& reached[q as int]
            &&& t < tokens.len()
            &&& tokens[t as int].bytes@ == input.subrange(q as int, p)
        }
}

/// The matches the trie reports at a position are tokens spanning the input from there.
proof fn lemma_matches_are_tokens(
    tokens: Seq<Token>,
    input: Seq<u8>,
    i: int,
    matches: Seq<(u32, usize)>,
)
    requires
        numbered(tokens),
        tokens.len() <= u32::MAX + 1,
        0 <= i <= input.len(),
        input.len() <= usize::MAX,
        matches == prefix_matches(token_map(tokens), input.skip(i), (input.len() - i) as nat),
    ensures
        forall|k: int|
            0 <= k < matches.len() ==> {
                let (t, l) = #[trigger] matches[k];
                &&& 1 <= l <= input.len() - i
                &&& t < tokens.len()
                &&& tokens[t as int].bytes@ == input.subrange(i, i + l)
            },
        forall|k1: int, k2: int|
            0 <= k1 < k2 < matches.len() ==> #[trigger] matches[k1].1 < #[trigger] matches[k2].1,
        forall|t: int|
            0 <= t < tokens.len() && 1 <= (#[trigger] tokens[t]).bytes@.len() && i + tokens[t].bytes@.len() <= input.len()
                && tokens[t].bytes@ == input.subrange(i, i + tokens[t].bytes@.len()) ==> exists|k: int|
                0 <= k < matches.len() && matches[k].1 == tokens[t].bytes@.len(),
{
    let m = token_map(tokens);
    let s = input.skip(i);
    let l = (input.len() - i) as nat;
    lemma_prefix_matches_shape(m, s, l);
    lemma_token_map(tokens);
    assert forall|k: int| 0 <= k < matches.len() implies {
        let (t, l) = #[trigger] matches[k];
        &&& 1 <= l <= input.len() - i
        &&& t < tokens.len()
        &&& tokens[t as int].bytes@ == input.subrange(i, i + l)
    } by {
        let (t, len) = matches[k];
        assert(s.take(len as int) =~= input.subrange(i, i + len));
    }
    assert forall|t: int|
        0 <= t < tokens.len() && 1 <= (#[trigger] tokens[t]).bytes@.len() && i + tokens[t].bytes@.len() <= input.len()
            && tokens[t].bytes@ == input.subrange(i, i + tokens[t].bytes@.len()) implies exists|k: int|
        0 <= k < matches.len() && matches[k].1 == tokens[t].bytes@.len() by {
        let len = tokens[t].bytes@.len() as int;
        assert(s.take(len) =~= input.subrange(i, i + len));
        assert(m.contains_key(tokens[t].bytes@));
        assert(m.contains_key(s.take(len)));
    }
}


/// Number of back-pointer steps from `p` to the start.
pub open spec fn hops(back: Seq<(u32, usize)>, p: int) -> nat
    decreases p,
{
    if p <= 0 || back[p].1 as int >= p {
        0
    } else {
        1 + hops(back, back[p].1 as int)
    }
}

/// Once position `q` is settled, every token spelled by the input from `q`
/// reaches its end with at most one more token than `q` needs.
pub open spec fn settled(tokens: Seq<Token>, input: Seq<u8>, counts: Seq<Option<usize>>, q: int) -> bool {
    counts[q] is Some ==> forall|t: int|
        0 <= t < tokens.len() && 1 <= (#[trigger] tokens[t]).bytes@.len() && q + tokens[t].bytes@.len() <= input.len()
            && tokens[t].bytes@ == input.subrange(q, q + tokens[t].bytes@.len()) ==> {
            let e = q + tokens[t].bytes@.len();
            &&& counts[e] is Some
            &&& counts[e].unwrap() <= counts[q].unwrap() + 1
        }
}

/// Lowering the count at one position other than `q` keeps `q` settled.
proof fn lemma_settled_update(
    tokens: Seq<Token>,
    input: Seq<u8>,
    before: Seq<Option<usize>>,
    after: Seq<Option<usize>>,
    q: int,
    end: int,
)
    requires
        settled(tokens, input, before, q),
        before.len() == input.len() + 1,
        before.len() == after.len(),
        0 <= q < before.len(),
        0 <= end < before.len(),
        q != end,
        forall|p: int| 0 <= p < before.len() && p != end ==> #[trigger] after[p] == before[p],
        after[end] is Some,
        before[end] is Some ==> after[end].unwrap() <= before[end].unwrap(),
    ensures
        settled(tokens, input, after, q),
{
    if after[q] is Some {
        assert forall|t: int|
            0 <= t < tokens.len() && 1 <= (#[trigger] tokens[t]).bytes@.len() && q + tokens[t].bytes@.len() <= input.len()
                && tokens[t].bytes@ == input.subrange(q, q + tokens[t].bytes@.len()) implies {
                let e = q + tokens[t].bytes@.len();
                &&& after[e] is Some
                &&& after[e].unwrap() <= after[q].unwrap() + 1
            } by {
            let e = q + tokens[t].bytes@.len();
            assert(after[q] == before[q]);
            if e != end {
                assert(after[e] == before[e]);
            }
        }
    }
}

/// Along back-pointers counts go down by one per step, so a count is the
/// number of steps back to the start.
proof fn lemma_counts_are_hops(back: Seq<(u32, usize)>, counts: Seq<Option<usize>>, p: int)
    requires
        0 <= p < counts.len(),
        counts.len() == back.len(),
        counts[p] is Some,
        counts[0] == Some(0usize),
        forall|r: int|
            0 < r < counts.len() && #[trigger] counts[r] is Some ==> back[r].1 < r && counts[back[r].1 as int] is Some
                && counts[r].unwrap() == counts[back[r].1 as int].unwrap() + 1,
    ensures
        counts[p].unwrap() == hops(back, p),
    decreases p,
{
    if p > 0 {
        lemma_counts_are_hops(back, counts, back[p].1 as int);
    }
}

/// Every segmentation of a prefix of the input into tokens has at least as
/// many tokens as the settled count of that prefix.
proof fn lemma_dense_optimal(
    tokens: Seq<Token>,
    input: Seq<u8>,
    counts: Seq<Option<usize>>,
    ids: Seq<u32>,
    p: int,
)
    requires
        numbered(tokens),
        counts.len() == input.len() + 1,
        counts[0] == Some(0usize),
        forall|q: int| 0 <= q < input.len() ==> #[trigger] settled(tokens, input, counts, q),
        valid_ids(tokens, ids),
        0 <= p <= input.len(),
        decode_ids(tokens, ids) == input.take(p),
    ensures
        counts[p] is Some,
        counts[p].unwrap() <= ids.len(),
    decreases ids.len(),
{
    if ids.len() == 0 {
        assert(input.take(p).len() == 0);
    } else {
        let t = ids.last();
        let rest = ids.drop_last();
        let b = tokens[t as int].bytes@;
        let q = p - b.len();
        assert(decode_ids(tokens, ids) == decode_ids(tokens, rest) + b);
        assert(decode_ids(tokens, rest) =~= input.take(q)) by {
            assert(input.take(p).take(q) =~= input.take(q));
            assert((decode_ids(tokens, rest) + b).take(q) =~= decode_ids(tokens, rest));
        }
        assert(b =~= input.subrange(q, p)) by {
            assert((decode_ids(tokens, rest) + b).skip(q) =~= b);
            assert(input.take(p).skip(q) =~= input.subrange(q, p));
        }
        assert(valid_ids(tokens, rest)) by {
            assert forall|k: int| 0 <= k < rest.len() implies #[trigger] rest[k] < tokens.len() by {
                assert(rest[k] == ids[k]);
            }
        }
        lemma_dense_optimal(tokens, input, counts, rest, q);
        assert(settled(tokens, input, counts, q));
        assert(tokens[t as int] == tokens[t as int]);
        let ti = t as int;
        assert(q + tokens[ti].bytes@.len() == p);
    }
}


/// The facts about one offer in the dense table that all its consequences use:
/// only position `end` changes, and it either stays or takes the offered step.
pub open spec fn one_offer(
    before: Seq<Option<usize>>,
    before_back: Seq<(u32, usize)>,
    after: Seq<Option<usize>>,
    after_back: Seq<(u32, usize)>,
    from: int,
    end: int,
    token: u32,
) -> bool {
    &&& after.len() == before.len()
    &&& after_back.len() == before_back.len()
    &&& before_back.len() == before.len()
    &&& 0 <= from < end < before.len()
    &&& end <= usize::MAX
    &&& before[from] is Some
    &&& before[from].unwrap() <= from
    &&& forall|p: int| 0 <= p < before.len() && p != end ==> #[trigger] after[p] == before[p]
    &&& forall|p: int| 0 <= p < before_back.len() && p != end ==> #[trigger] after_back[p] == before_back[p]
    &&& after[end] is Some
    &&& (after[end] == before[end] && after_back[end] == before_back[end]) || (after[end] == Some(
        (before[from].unwrap() + 1) as usize,
    ) && after_back[end] == (token, from as usize))
}

/// One offer keeps the back-pointers valid.
proof fn lemma_offer_back_ok(
    tokens: Seq<Token>,
    input: Seq<u8>,
    before: Seq<Option<usize>>,
    before_back: Seq<(u32, usize)>,
    after: Seq<Option<usize>>,
    after_back: Seq<(u32, usize)>,
    from: int,
    end: int,
    token: u32,
)
    requires
        one_offer(before, before_back, after, after_back, from, end, token),
        end <= input.len(),
        back_ok(tokens, input, before_back, before.map_values(|o: Option<usize>| o is Some)),
        token < tokens.len(),
        tokens[token as int].bytes@ == input.subrange(from, end),
    ensures
        back_ok(tokens, input, after_back, after.map_values(|o: Option<usize>| o is Some)),
{
    let r = after.map_values(|o: Option<usize>| o is Some);
    let r0 = before.map_values(|o: Option<usize>| o is Some);
    assert(r[0]) by {
        assert(r0[0]);
        assert(after[0] == before[0]);
    }
    assert forall|p: int| 0 < p <= input.len() && #[trigger] r[p] implies {
        let (t, q) = after_back[p];
        &&& q < p
        &&& r[q as int]
        &&& t < tokens.len()
        &&& tokens[t as int].bytes@ == input.subrange(q as int, p)
    } by {
        if p == end && after_back[end] == (token, from as usize) {
            assert(r0[from]);
            assert(after[from] == before[from]);
        } else {
            if p == end {
                assert(after[end] == before[end]);
            } else {
                assert(after[p] == before[p]);
            }
            assert(r0[p]);
            assert(after_back[p] == before_back[p]);
            let q = before_back[p].1;
            assert(r0[q as int]);
            if q as int != end {
                assert(after[q as int] == before[q as int]);
            }
        }
    }
}

/// One offer from a settled position keeps counts one apart along back-pointers.
proof fn lemma_offer_chain(
    before: Seq<Option<usize>>,
    before_back: Seq<(u32, usize)>,
    after: Seq<Option<usize>>,
    after_back: Seq<(u32, usize)>,
    from: int,
    end: int,
    token: u32,
)
    requires
        one_offer(before, before_back, after, after_back, from, end, token),
        forall|p: int|
            0 < p < before.len() && #[trigger] before[p] is Some ==> before_back[p].1 < p
                && before[before_back[p].1 as int] is Some
                && before[p].unwrap() == before[before_back[p].1 as int].unwrap() + 1,
        forall|p: int|
            0 < p < before.len() && #[trigger] before[p] is Some && p > from ==> before_back[p].1 <= from,
    ensures
        forall|p: int|
            0 < p < after.len() && #[trigger] after[p] is Some ==> after_back[p].1 < p
                && after[after_back[p].1 as int] is Some
                && after[p].unwrap() == after[after_back[p].1 as int].unwrap() + 1,
        forall|p: int|
            0 < p < after.len() && #[trigger] after[p] is Some && p > from ==> after_back[p].1 <= from,
{
    assert forall|p: int|
        0 < p < after.len() && #[trigger] after[p] is Some implies after_back[p].1 < p
            && after[after_back[p].1 as int] is Some
            && after[p].unwrap() == after[after_back[p].1 as int].unwrap() + 1 by {
        if p == end && !(after[end] == before[end] && after_back[end] == before_back[end]) {
            assert(after[from] == before[from]);
        } else {
            if p != end {
                assert(after[p] == before[p]);
                assert(after_back[p] == before_back[p]);
            }
            let q = before_back[p].1 as int;
            if p > from {
                assert(q <= from);
            }
            assert(q != end);
            assert(after[q] == before[q]);
        }
    }
    assert forall|p: int|
        0 < p < after.len() && #[trigger] after[p] is Some && p > from implies after_back[p].1 <= from by {
        if p != end {
            assert(after[p] == before[p]);
            assert(after_back[p] == before_back[p]);
        }
    }
}

/// One offer from a position whose count is at most the position keeps every
/// count at most its position.
proof fn lemma_offer_bound(
    before: Seq<Option<usize>>,
    before_back: Seq<(u32, usize)>,
    after: Seq<Option<usize>>,
    after_back: Seq<(u32, usize)>,
    from: int,
    end: int,
    token: u32,
)
    requires
        one_offer(before, before_back, after, after_back, from, end, token),
        forall|p: int| 0 <= p < before.len() && #[trigger] before[p] is Some ==> before[p].unwrap() <= p,
    ensures
        forall|p: int| 0 <= p < after.len() && #[trigger] after[p] is Some ==> after[p].unwrap() <= p,
{
    assert forall|p: int| 0 <= p < after.len() && #[trigger] after[p] is Some implies after[p].unwrap() <= p by {
        if p != end {
            assert(after[p] == before[p]);
        } else {
            assert(before[from].unwrap() <= from);
        }
    }
}

/// What the encoder holds: a vocabulary and a trie over exactly its tokens.
pub open spec fn encoder_inv(trie: Trie, vocab: Vocabulary) -> bool {
    &&& vocab.wf()
    &&& trie.wf()
    &&& trie@ == token_map(vocab.tokens@)
}

/// Scoring of segmentations, for `Encoder::encode`: `initial` scores the empty
/// prefix, `extend` the prefix that a token lengthens (given the token before
/// it, if any), and `improves` tells whether a candidate score beats the
/// score a position already has.
pub trait SegmentScorer {
    type Score: Copy;

    /// The score of the empty prefix.
    spec fn spec_initial(&self) -> Self::Score;

    /// The score of a prefix lengthened by `token`, after `prev` (if any).
    spec fn spec_extend(&self, score: Self::Score, prev: Option<u32>, token: u32) -> Self::Score;

    /// Whether `candidate` beats `current`.
    spec fn spec_improves(&self, candidate: Self::Score, current: Self::Score) -> bool;

    fn initial(&self) -> (score: Self::Score)
        ensures
            score == self.spec_initial(),
    ;

    fn extend(&self, score: &Self::Score, prev: Option<u32>, token: u32) -> (extended: Self::Score)
        ensures
            extended == self.spec_extend(*score, prev, token),
    ;

    fn improves(&self, candidate: &Self::Score, current: &Self::Score) -> (better: bool)
        ensures
            better == self.spec_improves(*candidate, *current),
    ;
}

/// The ids met following the back-pointers from position `p` down to 0, first to last.
pub open spec fn back_ids(back: Seq<(u32, usize)>, p: int) -> Seq<u32>
    decreases p,
{
    if p <= 0 || back[p].1 as int >= p {
        Seq::empty()
    } else {
        back_ids(back, back[p].1 as int).push(back[p].0)
    }
}

/// The tokens offered at position `i` of `input`: every token that the input
/// continues with there, by increasing length, or else the single byte there.
pub open spec fn dp_candidates(m: Map<Seq<u8>, u32>, input: Seq<u8>, i: int) -> Seq<(u32, usize)> {
    let ms = prefix_matches(m, input.skip(i), (input.len() - i) as nat);
    if ms.len() == 0 {
        seq![(input[i] as u32, 1usize)]
    } else {
        ms
    }
}

/// One offer: `token`, spanning `from..end`, scored from `score` after `prev`,
/// becomes the way to reach `end` if `end` is not reached yet or the scorer
/// prefers it to the score `end` has.
pub open spec fn dp_relax<S: SegmentScorer>(
    scorer: S,
    table: (Seq<Option<S::Score>>, Seq<(u32, usize)>),
    score: S::Score,
    prev: Option<u32>,
    token: u32,
    from: usize,
    end: usize,
) -> (Seq<Option<S::Score>>, Seq<(u32, usize)>) {
    let cand = scorer.spec_extend(score, prev, token);
    let better = match table.0[end as int] {
        None => true,
        Some(cur) => scorer.spec_improves(cand, cur),
    };
    if better {
        (table.0.update(end as int, Some(cand)), table.1.update(end as int, (token, from)))
    } else {
        table
    }
}

/// The first `k` offers of `cands` made from position `i`.
pub open spec fn dp_offers<S: SegmentScorer>(
    scorer: S,
    table: (Seq<Option<S::Score>>, Seq<(u32, usize)>),
    score: S::Score,
    prev: Option<u32>,
    i: int,
    cands: Seq<(u32, usize)>,
    k: nat,
) -> (Seq<Option<S::Score>>, Seq<(u32, usize)>)
    decreases k,
{
    if k == 0 {
        table
    } else {
        let c = cands[k - 1];
        dp_relax(
            scorer,
            dp_offers(scorer, table, score, prev, i, cands, (k - 1) as nat),
            score,
            prev,
            c.0,
            i as usize,
            (i + c.1) as usize,
        )
    }
}

/// The best-score table (score reached and back-pointer, by position) after the
/// offers from positions `0..k`, scanning positions in increasing order. A
/// position not reached offers nothing; a reached one offers its candidates,
/// scored after the token that reached it.
pub open spec fn dp_table<S: SegmentScorer>(scorer: S, m: Map<Seq<u8>, u32>, input: Seq<u8>, k: nat) -> (
    Seq<Option<S::Score>>,
    Seq<(u32, usize)>,
)
    decreases k,
{
    if k == 0 {
        (
            Seq::new(
                (input.len() + 1) as nat,
                |p: int|
                    if p == 0 {
                        Some(scorer.spec_initial())
                    } else {
                        None
                    },
            ),
            Seq::new((input.len() + 1) as nat, |p: int| (0u32, 0usize)),
        )
    } else {
        let i = k - 1;
        let t = dp_table(scorer, m, input, i as nat);
        match t.0[i] {
            None => t,
            Some(score) => {
                let prev = if i == 0 {
                    None
                } else {
                    Some(t.1[i].0)
                };
                let cands = dp_candidates(m, input, i);
                dp_offers(scorer, t, score, prev, i, cands, cands.len())
            },
        }
    }
}

/// The segmentation that `Encoder::encode` chooses: fill the table over the
/// whole input, then follow the back-pointers from its end.
pub open spec fn dp_segmentation<S: SegmentScorer>(scorer: S, m: Map<Seq<u8>, u32>, input: Seq<u8>) -> Seq<u32> {
    back_ids(dp_table(scorer, m, input, input.len()).1, input.len() as int)
}

/// The score the scorer gives a whole segmentation: the initial score,
/// extended by each token in turn after the one before it.
pub open spec fn seg_score<S: SegmentScorer>(scorer: S, ids: Seq<u32>) -> S::Score
    decreases ids.len(),
{
    if ids.len() == 0 {
        scorer.spec_initial()
    } else {
        scorer.spec_extend(
            seg_score(scorer, ids.drop_last()),
            if ids.len() >= 2 {
                Some(ids[ids.len() - 2])
            } else {
                None
            },
            ids.last(),
        )
    }
}

/// The scores are additive and ordered: `improves` is a strict weak order,
/// extending keeps it (a score no better than another stays no better after
/// the same token), and the token before does not change an extension.
pub open spec fn seg_order<S: SegmentScorer>(scorer: S) -> bool {
    &&& forall|a: S::Score| !#[trigger] scorer.spec_improves(a, a)
    &&& forall|a: S::Score, b: S::Score, c: S::Score|
        #![trigger scorer.spec_improves(a, b), scorer.spec_improves(b, c)]
        scorer.spec_improves(a, b) && scorer.spec_improves(b, c) ==> scorer.spec_improves(a, c)
    &&& forall|a: S::Score, b: S::Score, c: S::Score|
        #![trigger scorer.spec_improves(a, b), scorer.spec_improves(b, c)]
        !scorer.spec_improves(a, b) && !scorer.spec_improves(b, c) ==> !scorer.spec_improves(a, c)
    &&& forall|a: S::Score, b: S::Score, p: Option<u32>, t: u32|
        #![trigger scorer.spec_improves(scorer.spec_extend(a, p, t), scorer.spec_extend(b, p, t))]
        !scorer.spec_improves(a, b) ==> !scorer.spec_improves(scorer.spec_extend(a, p, t), scorer.spec_extend(b, p, t))
    &&& forall|a: S::Score, p: Option<u32>, q: Option<u32>, t: u32|
        #![trigger scorer.spec_extend(a, p, t), scorer.spec_extend(a, q, t)]
        scorer.spec_extend(a, p, t) == scorer.spec_extend(a, q, t)
}

/// Piece `j` of a cutting: the bytes between cuts `j` and `j + 1`, a token of `m`.
pub open spec fn cut_ok(m: Map<Seq<u8>, u32>, input: Seq<u8>, cuts: Seq<int>, j: int) -> bool {
    cuts[j] < cuts[j + 1] && m.contains_key(input.subrange(cuts[j], cuts[j + 1]))
}

/// `cuts` cuts `input` into tokens of `m`: from 0 to the end, increasing, each
/// piece a token.
pub open spec fn is_cutting(m: Map<Seq<u8>, u32>, input: Seq<u8>, cuts: Seq<int>) -> bool {
    &&& cuts.len() >= 1
    &&& cuts[0] == 0
    &&& cuts.last() == input.len()
    &&& forall|j: int| 0 <= j < cuts.len() ==> 0 <= #[trigger] cuts[j] <= input.len()
    &&& forall|j: int| 0 <= j < cuts.len() - 1 ==> #[trigger] cut_ok(m, input, cuts, j)
}

/// The ids of the pieces of a cutting, as `m` gives them.
pub open spec fn cut_ids(m: Map<Seq<u8>, u32>, input: Seq<u8>, cuts: Seq<int>) -> Seq<u32> {
    Seq::new((cuts.len() - 1) as nat, |j: int| m[input.subrange(cuts[j], cuts[j + 1])])
}

/// Scores only get better: every position reached in `a` is reached in `b`
/// with the same score or one that improves on it.
pub open spec fn no_worse<S: SegmentScorer>(scorer: S, a: Seq<Option<S::Score>>, b: Seq<Option<S::Score>>) -> bool {
    &&& a.len() == b.len()
    &&& forall|p: int|
        0 <= p < a.len() && (#[trigger] a[p]) is Some ==> b[p] is Some && (b[p] == a[p]
            || scorer.spec_improves(b[p].unwrap(), a[p].unwrap()))
}

proof fn lemma_no_worse_trans<S: SegmentScorer>(
    scorer: S,
    a: Seq<Option<S::Score>>,
    b: Seq<Option<S::Score>>,
    c: Seq<Option<S::Score>>,
)
    requires
        seg_order(scorer),
        no_worse(scorer, a, b),
        no_worse(scorer, b, c),
    ensures
        no_worse(scorer, a, c),
{
    assert forall|p: int| 0 <= p < a.len() && (#[trigger] a[p]) is Some implies c[p] is Some && (c[p] == a[p]
        || scorer.spec_improves(c[p].unwrap(), a[p].unwrap())) by {
        assert(b[p] is Some);
        if c[p] != a[p] && b[p] != a[p] && c[p] != b[p] {
            assert(scorer.spec_improves(c[p].unwrap(), b[p].unwrap()));
            assert(scorer.spec_improves(b[p].unwrap(), a[p].unwrap()));
        }
    }
}

/// A score not better than a position's score stays not better as the table improves.
proof fn lemma_not_better_kept<S: SegmentScorer>(
    scorer: S,
    a: Seq<Option<S::Score>>,
    b: Seq<Option<S::Score>>,
    x: S::Score,
    p: int,
)
    requires
        seg_order(scorer),
        no_worse(scorer, a, b),
        0 <= p < a.len(),
        a[p] is Some,
        !scorer.spec_improves(x, a[p].unwrap()),
    ensures
        b[p] is Some,
        !scorer.spec_improves(x, b[p].unwrap()),
{
    assert(a[p] is Some);
    if b[p] != a[p] {
        assert(scorer.spec_improves(b[p].unwrap(), a[p].unwrap()));
        if scorer.spec_improves(x, b[p].unwrap()) {
            assert(scorer.spec_improves(x, a[p].unwrap()));
        }
    }
}

/// One offer changes only the position it reaches; it leaves that position
/// reached with a score the offered one does not beat, and no position worse.
proof fn lemma_relax_facts<S: SegmentScorer>(
    scorer: S,
    table: (Seq<Option<S::Score>>, Seq<(u32, usize)>),
    score: S::Score,
    prev: Option<u32>,
    token: u32,
    from: usize,
    end: usize,
)
    requires
        seg_order(scorer),
        end < table.0.len(),
        table.1.len() == table.0.len(),
    ensures
        ({
            let r = dp_relax(scorer, table, score, prev, token, from, end);
            &&& r.0.len() == table.0.len()
            &&& r.1.len() == table.1.len()
            &&& forall|p: int| 0 <= p < table.0.len() && p != end ==> #[trigger] r.0[p] == table.0[p] && r.1[p] == table.1[p]
            &&& r.0[end as int] is Some
            &&& !scorer.spec_improves(scorer.spec_extend(score, prev, token), r.0[end as int].unwrap())
            &&& no_worse(scorer, table.0, r.0)
        }),
{
    let r = dp_relax(scorer, table, score, prev, token, from, end);
    assert forall|p: int| 0 <= p < table.0.len() && (#[trigger] table.0[p]) is Some implies r.0[p] is Some
        && (r.0[p] == table.0[p] || scorer.spec_improves(r.0[p].unwrap(), table.0[p].unwrap())) by {}
}

/// The offers from position `i` change no position up to `i`, make no
/// position worse, and leave each offered end reached with a score the offer
/// does not beat.
#[verifier::spinoff_prover]
proof fn lemma_offers_facts<S: SegmentScorer>(
    scorer: S,
    table: (Seq<Option<S::Score>>, Seq<(u32, usize)>),
    score: S::Score,
    prev: Option<u32>,
    i: int,
    cands: Seq<(u32, usize)>,
    k: nat,
)
    requires
        seg_order(scorer),
        0 <= i,
        k <= cands.len(),
        table.1.len() == table.0.len(),
        table.0.len() <= usize::MAX + 1,
        forall|c: int| 0 <= c < k ==> 1 <= (#[trigger] cands[c]).1 && i + cands[c].1 < table.0.len(),
    ensures
        ({
            let r = dp_offers(scorer, table, score, prev, i, cands, k);
            &&& r.0.len() == table.0.len()
            &&& r.1.len() == table.1.len()
            &&& forall|p: int| 0 <= p <= i && p < table.0.len() ==> #[trigger] r.0[p] == table.0[p] && r.1[p] == table.1[p]
            &&& no_worse(scorer, table.0, r.0)
            &&& forall|c: int|
                0 <= c < k ==> r.0[i + (#[trigger] cands[c]).1] is Some && !scorer.spec_improves(
                    scorer.spec_extend(score, prev, cands[c].0),
                    r.0[i + cands[c].1].unwrap(),
                )
        }),
    decreases k,
{
    if k > 0 {
        let t = dp_offers(scorer, table, score, prev, i, cands, (k - 1) as nat);
        lemma_offers_facts(scorer, table, score, prev, i, cands, (k - 1) as nat);
        let c = cands[k - 1];
        let end = (i + c.1) as usize;
        assert(end as int == i + c.1);
        lemma_relax_facts(scorer, t, score, prev, c.0, i as usize, end);
        let r = dp_offers(scorer, table, score, prev, i, cands, k);
        assert(r == dp_relax(scorer, t, score, prev, c.0, i as usize, end));
        lemma_no_worse_trans(scorer, table.0, t.0, r.0);
        assert forall|cc: int| 0 <= cc < k implies r.0[i + (#[trigger] cands[cc]).1] is Some && !scorer.spec_improves(
            scorer.spec_extend(score, prev, cands[cc].0),
            r.0[i + cands[cc].1].unwrap(),
        ) by {
            if cc < k - 1 {
                lemma_not_better_kept(
                    scorer,
                    t.0,
                    r.0,
                    scorer.spec_extend(score, prev, cands[cc].0),
                    i + cands[cc].1,
                );
            }
        }
    } else {
        assert(no_worse(scorer, table.0, table.0));
    }
}

/// The table keeps its length; a position's entry is settled once the scan
/// reaches it; and the table only improves as the scan goes on.
proof fn lemma_table_facts<S: SegmentScorer>(scorer: S, m: Map<Seq<u8>, u32>, input: Seq<u8>, j: nat, k: nat)
    requires
        seg_order(scorer),
        j <= k <= input.len(),
        input.len() <= usize::MAX,
    ensures
        dp_table(scorer, m, input, k).0.len() == input.len() + 1,
        dp_table(scorer, m, input, k).1.len() == input.len() + 1,
        forall|q: int|
            0 <= q <= k ==> #[trigger] dp_table(scorer, m, input, k).0[q] == dp_table(scorer, m, input, q as nat).0[q],
        no_worse(scorer, dp_table(scorer, m, input, j).0, dp_table(scorer, m, input, k).0),
    decreases k,
{
    let n = input.len();
    if k == 0 {
        assert(no_worse(scorer, dp_table(scorer, m, input, 0).0, dp_table(scorer, m, input, 0).0));
    } else {
        let i = (k - 1) as int;
        lemma_table_facts(scorer, m, input, if j <= i { j } else { i as nat }, i as nat);
        let t = dp_table(scorer, m, input, i as nat);
        let r = dp_table(scorer, m, input, k);
        match t.0[i] {
            None => {
                assert(r == t);
                assert(no_worse(scorer, r.0, r.0));
            },
            Some(score) => {
                let prev = if i == 0 {
                    None
                } else {
                    Some(t.1[i].0)
                };
                let cands = dp_candidates(m, input, i);
                let ms = prefix_matches(m, input.skip(i), (n - i) as nat);
                lemma_prefix_matches_shape(m, input.skip(i), (n - i) as nat);
                assert forall|c: int| 0 <= c < cands.len() implies 1 <= (#[trigger] cands[c]).1 && i + cands[c].1
                    < t.0.len() by {
                    if ms.len() > 0 {
                        assert(cands[c] == ms[c]);
                    }
                }
                lemma_offers_facts(scorer, t, score, prev, i, cands, cands.len());
                assert(r == dp_offers(scorer, t, score, prev, i, cands, cands.len()));
                assert(no_worse(scorer, r.0, r.0));
            },
        }
        assert forall|q: int| 0 <= q <= k implies #[trigger] r.0[q] == dp_table(scorer, m, input, q as nat).0[q] by {
            if q < k {
                assert(r.0[q] == t.0[q]);
            }
        }
        if j == k {
            assert(no_worse(scorer, r.0, r.0));
        } else {
            lemma_no_worse_trans(scorer, dp_table(scorer, m, input, j).0, t.0, r.0);
        }
    }
}

/// From a settled position `q` that a token of `m` spelling `input[q..p]`
/// leaves, the scan reaches `p` with a score that token's offer does not beat.
proof fn lemma_offer_reaches<S: SegmentScorer>(
    scorer: S,
    m: Map<Seq<u8>, u32>,
    input: Seq<u8>,
    q: int,
    p: int,
    b: S::Score,
)
    requires
        seg_order(scorer),
        input.len() <= usize::MAX,
        0 <= q < p <= input.len(),
        m.contains_key(input.subrange(q, p)),
        dp_table(scorer, m, input, q as nat).0[q] == Some(b),
    ensures
        ({
            let t = dp_table(scorer, m, input, q as nat);
            let prev = if q == 0 {
                None
            } else {
                Some(t.1[q].0)
            };
            let fin = dp_table(scorer, m, input, input.len());
            &&& fin.0[p] is Some
            &&& !scorer.spec_improves(scorer.spec_extend(b, prev, m[input.subrange(q, p)]), fin.0[p].unwrap())
        }),
{
    let n = input.len();
    let t = dp_table(scorer, m, input, q as nat);
    let prev = if q == 0 {
        None
    } else {
        Some(t.1[q].0)
    };
    let s = input.skip(q);
    let len = p - q;
    let ms = prefix_matches(m, s, (n - q) as nat);
    lemma_prefix_matches_shape(m, s, (n - q) as nat);
    lemma_table_facts(scorer, m, input, q as nat, q as nat);
    assert(s.take(len) =~= input.subrange(q, p));
    let c = choose|c: int| 0 <= c < ms.len() && ms[c].1 == len;
    let cands = dp_candidates(m, input, q);
    assert(cands == ms);
    assert forall|cc: int| 0 <= cc < cands.len() implies 1 <= (#[trigger] cands[cc]).1 && q + cands[cc].1
        < t.0.len() by {}
    lemma_offers_facts(scorer, t, b, prev, q, cands, cands.len());
    let r = dp_table(scorer, m, input, (q + 1) as nat);
    assert(r == dp_offers(scorer, t, b, prev, q, cands, cands.len()));
    assert(cands[c].0 == m[input.subrange(q, p)]);
    assert(r.0[q + cands[c].1] is Some);
    lemma_table_facts(scorer, m, input, (q + 1) as nat, n);
    lemma_not_better_kept(
        scorer,
        r.0,
        dp_table(scorer, m, input, n).0,
        scorer.spec_extend(b, prev, m[input.subrange(q, p)]),
        p,
    );
}

/// The scored encoding is optimal for additive, ordered scores: no cutting of
/// the input into tokens (with the ids the vocabulary looks up) scores better
/// than the segmentation `Encoder::encode` chooses, whose position at the end
/// of the input is reached.
pub proof fn lemma_dp_optimal<S: SegmentScorer>(scorer: S, m: Map<Seq<u8>, u32>, input: Seq<u8>, cuts: Seq<int>)
    requires
        seg_order(scorer),
        input.len() <= usize::MAX,
        is_cutting(m, input, cuts),
    ensures
        dp_table(scorer, m, input, input.len()).0[input.len() as int] is Some,
        !scorer.spec_improves(
            seg_score(scorer, cut_ids(m, input, cuts)),
            dp_table(scorer, m, input, input.len()).0[input.len() as int].unwrap(),
        ),
{
    lemma_cut_prefix(scorer, m, input, cuts, (cuts.len() - 1) as nat);
    assert(cuts.take(cuts.len() as int) =~= cuts);
}

/// The token that reached position `q` of a table, or none at the start.
pub open spec fn prev_of(back: Seq<(u32, usize)>, q: int) -> Option<u32> {
    if q == 0 {
        None
    } else {
        Some(back[q].0)
    }
}

/// Every reached position `p > 0` of the table was reached from an earlier
/// reached position `q < k` by its back-pointer's token, scored from `q`'s
/// score after the token that reached `q`; the start has the initial score.
pub open spec fn scored_in_context<S: SegmentScorer>(
    scorer: S,
    t: (Seq<Option<S::Score>>, Seq<(u32, usize)>),
    k: int,
) -> bool {
    &&& t.1.len() == t.0.len()
    &&& t.0.len() >= 1
    &&& t.0[0] == Some(scorer.spec_initial())
    &&& forall|p: int|
        0 < p < t.0.len() && (#[trigger] t.0[p]) is Some ==> {
            let q = t.1[p].1 as int;
            &&& q < p
            &&& q < k
            &&& t.0[q] is Some
            &&& t.0[p] == Some(scorer.spec_extend(t.0[q].unwrap(), prev_of(t.1, q), t.1[p].0))
        }
}

/// The offers from a reached position `i`, scored after the token that
/// reached `i`, keep every score in context and leave `i` itself alone.
proof fn lemma_offers_in_context<S: SegmentScorer>(
    scorer: S,
    table: (Seq<Option<S::Score>>, Seq<(u32, usize)>),
    score: S::Score,
    prev: Option<u32>,
    i: int,
    cands: Seq<(u32, usize)>,
    k: nat,
)
    requires
        scored_in_context(scorer, table, i + 1),
        0 <= i < table.0.len(),
        table.0.len() <= usize::MAX + 1,
        table.0[i] == Some(score),
        prev == prev_of(table.1, i),
        k <= cands.len(),
        forall|c: int| 0 <= c < k ==> 1 <= (#[trigger] cands[c]).1 && i + cands[c].1 < table.0.len(),
    ensures
        scored_in_context(scorer, dp_offers(scorer, table, score, prev, i, cands, k), i + 1),
        dp_offers(scorer, table, score, prev, i, cands, k).0.len() == table.0.len(),
        dp_offers(scorer, table, score, prev, i, cands, k).0[i] == table.0[i],
        dp_offers(scorer, table, score, prev, i, cands, k).1[i] == table.1[i],
    decreases k,
{
    if k > 0 {
        lemma_offers_in_context(scorer, table, score, prev, i, cands, (k - 1) as nat);
        let t = dp_offers(scorer, table, score, prev, i, cands, (k - 1) as nat);
        let c = cands[k - 1];
        let end = (i + c.1) as usize;
        assert(end as int == i + c.1);
        let r = dp_offers(scorer, table, score, prev, i, cands, k);
        assert(r == dp_relax(scorer, t, score, prev, c.0, i as usize, end));
        assert(t.0[i] == table.0[i]);
        assert(t.1[i] == table.1[i]);
        assert(prev_of(t.1, i) == prev);
        assert(r.0.len() == t.0.len() && r.1.len() == t.1.len());
        assert(scored_in_context(scorer, t, i + 1));
        assert forall|p: int| 0 < p < r.0.len() && (#[trigger] r.0[p]) is Some implies {
            let q = r.1[p].1 as int;
            &&& q < p
            &&& q < i + 1
            &&& r.0[q] is Some
            &&& r.0[p] == Some(scorer.spec_extend(r.0[q].unwrap(), prev_of(r.1, q), r.1[p].0))
        } by {
            if p != end as int || r == t {
                assert(r.0[p] == t.0[p] && r.1[p] == t.1[p]);
                let q = t.1[p].1 as int;
                assert(r.0[q] == t.0[q] && r.1[q] == t.1[q]);
            } else {
                assert(r.1[p] == (c.0, i as usize));
                assert(r.0[i] == t.0[i] && r.1[i] == t.1[i]);
            }
        }
        assert(r.0[0] == t.0[0]);
        assert(scored_in_context(scorer, r, i + 1));
        assert(r.0[i] == t.0[i] && r.1[i] == t.1[i]);
    } else {
        assert(dp_offers(scorer, table, score, prev, i, cands, 0) == table);
    }
}

/// Every table of the scan keeps its scores in context.
proof fn lemma_table_in_context<S: SegmentScorer>(scorer: S, m: Map<Seq<u8>, u32>, input: Seq<u8>, k: nat)
    requires
        k <= input.len(),
        input.len() <= usize::MAX,
    ensures
        scored_in_context(scorer, dp_table(scorer, m, input, k), k as int),
        dp_table(scorer, m, input, k).0.len() == input.len() + 1,
    decreases k,
{
    let n = input.len();
    if k == 0 {
        let t = dp_table(scorer, m, input, 0);
        assert(t.0[0] == Some(scorer.spec_initial()));
    } else {
        let i = (k - 1) as int;
        lemma_table_in_context(scorer, m, input, i as nat);
        let t = dp_table(scorer, m, input, i as nat);
        match t.0[i] {
            None => {},
            Some(score) => {
                let prev = if i == 0 {
                    None
                } else {
                    Some(t.1[i].0)
                };
                let cands = dp_candidates(m, input, i);
                let ms = prefix_matches(m, input.skip(i), (n - i) as nat);
                lemma_prefix_matches_shape(m, input.skip(i), (n - i) as nat);
                assert forall|c: int| 0 <= c < cands.len() implies 1 <= (#[trigger] cands[c]).1 && i + cands[c].1
                    < t.0.len() by {
                    if ms.len() > 0 {
                        assert(cands[c] == ms[c]);
                    }
                }
                lemma_offers_in_context(scorer, t, score, prev, i, cands, cands.len());
            },
        }
    }
}

/// Following the back-pointers of a table in context from a reached position
/// spells ids whose score, each token scored after the one before it, is the
/// score the table has there.
proof fn lemma_back_ids_score<S: SegmentScorer>(
    scorer: S,
    t: (Seq<Option<S::Score>>, Seq<(u32, usize)>),
    k: int,
    p: int,
)
    requires
        scored_in_context(scorer, t, k),
        0 <= p < t.0.len(),
        t.0[p] is Some,
    ensures
        t.0[p] == Some(seg_score(scorer, back_ids(t.1, p))),
        p == 0 <==> back_ids(t.1, p).len() == 0,
        p > 0 ==> back_ids(t.1, p).last() == t.1[p].0,
    decreases p,
{
    if p > 0 {
        let q = t.1[p].1 as int;
        assert(t.0[p] is Some);
        lemma_back_ids_score(scorer, t, k, q);
        let ids = back_ids(t.1, p);
        assert(ids == back_ids(t.1, q).push(t.1[p].0));
        assert(ids.drop_last() =~= back_ids(t.1, q));
        if q > 0 {
            assert(ids[ids.len() - 2] == back_ids(t.1, q).last());
        }
    }
}

/// The scored encoding scores each token after the token actually before it:
/// at every position the scan reaches, its score is the score of the ids that
/// its back-pointers spell, each token extended after its predecessor there
/// (the first after none). In particular the score reached at the end of the
/// input is the score of the segmentation `Encoder::encode` returns.
pub proof fn lemma_dp_scores_in_context<S: SegmentScorer>(scorer: S, m: Map<Seq<u8>, u32>, input: Seq<u8>)
    requires
        input.len() <= usize::MAX,
    ensures
        forall|p: int|
            0 <= p <= input.len() && (#[trigger] dp_table(scorer, m, input, input.len()).0[p]) is Some ==> dp_table(
                scorer,
                m,
                input,
                input.len(),
            ).0[p] == Some(seg_score(scorer, back_ids(dp_table(scorer, m, input, input.len()).1, p))),
        dp_table(scorer, m, input, input.len()).0[input.len() as int] is Some ==> dp_table(
            scorer,
            m,
            input,
            input.len(),
        ).0[input.len() as int] == Some(seg_score(scorer, dp_segmentation(scorer, m, input))),
{
    let n = input.len();
    lemma_table_in_context(scorer, m, input, n);
    let fin = dp_table(scorer, m, input, n);
    assert forall|p: int| 0 <= p <= n && (#[trigger] fin.0[p]) is Some implies fin.0[p] == Some(
        seg_score(scorer, back_ids(fin.1, p)),
    ) by {
        lemma_back_ids_score(scorer, fin, n as int, p);
    }
}

/// For additive, ordered scores, no cutting of the input into tokens scores
/// better than the segmentation `Encoder::encode` returns, each scored token
/// by token.
pub proof fn lemma_encode_optimal<S: SegmentScorer>(scorer: S, m: Map<Seq<u8>, u32>, input: Seq<u8>, cuts: Seq<int>)
    requires
        seg_order(scorer),
        input.len() <= usize::MAX,
        is_cutting(m, input, cuts),
    ensures
        !scorer.spec_improves(
            seg_score(scorer, cut_ids(m, input, cuts)),
            seg_score(scorer, dp_segmentation(scorer, m, input)),
        ),
{
    lemma_dp_optimal(scorer, m, input, cuts);
    lemma_dp_scores_in_context(scorer, m, input);
}

/// Induction over the cuts: the first `j` pieces score no better than the
/// final table at cut `j`.
proof fn lemma_cut_prefix<S: SegmentScorer>(scorer: S, m: Map<Seq<u8>, u32>, input: Seq<u8>, cuts: Seq<int>, j: nat)
    requires
        seg_order(scorer),
        input.len() <= usize::MAX,
        is_cutting(m, input, cuts),
        j < cuts.len(),
    ensures
        dp_table(scorer, m, input, input.len()).0[cuts[j as int]] is Some,
        !scorer.spec_improves(
            seg_score(scorer, cut_ids(m, input, cuts.take(j as int + 1))),
            dp_table(scorer, m, input, input.len()).0[cuts[j as int]].unwrap(),
        ),
    decreases j,
{
    let n = input.len();
    let fin = dp_table(scorer, m, input, n);
    lemma_table_facts(scorer, m, input, 0, n);
    if j == 0 {
        assert(cut_ids(m, input, cuts.take(1)) =~= Seq::<u32>::empty());
        assert(fin.0[0] == dp_table(scorer, m, input, 0).0[0]);
    } else {
        let jj = (j - 1) as nat;
        lemma_cut_prefix(scorer, m, input, cuts, jj);
        let q = cuts[jj as int];
        let p = cuts[j as int];
        assert(cut_ok(m, input, cuts, jj as int));
        let b = fin.0[q].unwrap();
        assert(fin.0[q] == dp_table(scorer, m, input, q as nat).0[q]);
        lemma_offer_reaches(scorer, m, input, q, p, b);
        let ids = cut_ids(m, input, cuts.take(j as int + 1));
        let pre = cut_ids(m, input, cuts.take(j as int));
        assert(ids.drop_last() =~= pre);
        assert(ids.last() == m[input.subrange(q, p)]);
        let t = dp_table(scorer, m, input, q as nat);
        let prev = if q == 0 {
            None
        } else {
            Some(t.1[q].0)
        };
        let seg_prev = if ids.len() >= 2 {
            Some(ids[ids.len() - 2])
        } else {
            None
        };
        let tok = m[input.subrange(q, p)];
        let sp = seg_score(scorer, pre);
        assert(seg_score(scorer, ids) == scorer.spec_extend(sp, seg_prev, tok));
        // no better than b before the token, so no better after it
        assert(!scorer.spec_improves(scorer.spec_extend(sp, seg_prev, tok), scorer.spec_extend(b, seg_prev, tok)));
        assert(scorer.spec_extend(b, seg_prev, tok) == scorer.spec_extend(b, prev, tok));
        let cand = scorer.spec_extend(b, prev, tok);
        assert(!scorer.spec_improves(cand, fin.0[p].unwrap()));
        assert(!scorer.spec_improves(seg_score(scorer, ids), cand));
    }
}

/// Scores a segmentation by how many tokens it takes; fewer is better.
pub struct FewestTokens;

impl SegmentScorer for FewestTokens {
    type Score = u64;

    open spec fn spec_initial(&self) -> u64 {
        0
    }

    open spec fn spec_extend(&self, score: u64, prev: Option<u32>, token: u32) -> u64 {
        if score < u64::MAX {
            (score + 1) as u64
        } else {
            score
        }
    }

    open spec fn spec_improves(&self, candidate: u64, current: u64) -> bool {
        candidate < current
    }

    fn initial(&self) -> (score: u64) {
        0
    }

    fn extend(&self, score: &u64, prev: Option<u32>, token: u32) -> (extended: u64) {
        if *score < u64::MAX {
            *score + 1
        } else {
            *score
        }
    }

    fn improves(&self, candidate: &u64, current: &u64) -> (better: bool) {
        *candidate < *current
    }
}

/// Token counts are additive and ordered, so encoding with `FewestTokens`
/// finds a spelling of the input with as few tokens as any.
pub proof fn lemma_fewest_tokens_ordered()
    ensures
        seg_order(FewestTokens),
{
}

/// Encoder that uses DP-optimal segmentation with context entropy
pub struct Encoder {
    trie: Trie,
    vocab: Vocabulary,
}

impl Encoder {
    #[verifier::type_invariant]
    spec fn inv(&self) -> bool {
        encoder_inv(self.trie, self.vocab)
    }

    /// The vocabulary the encoder was built from.
    pub closed spec fn spec_vocab(&self) -> Vocabulary {
        self.vocab
    }

    /// The tokens of the vocabulary.
    pub open spec fn spec_tokens(&self) -> Seq<Token> {
        self.spec_vocab().tokens@
    }

    /// Create an encoder from a trained vocabulary
    pub fn new(vocab: Vocabulary) -> (encoder: Self)
        requires
            vocab.wf(),
        ensures
            encoder.spec_vocab() == vocab,
    {
        let mut entries: Vec<(u32, &[u8])> = Vec::new();
        let mut i: usize = 0;
        while i < vocab.tokens.len()
            invariant
                i <= vocab.tokens@.len(),
                entries@.len() == i,
                entries_view(entries@) == token_entries(vocab.tokens@.take(i as int)),
            decreases vocab.tokens@.len() - i,
        {
            let t = &vocab.tokens[i];
            let ghost old_entries = entries@;
            let slice = t.bytes.as_slice();
            entries.push((t.id, slice));
            proof {
                let ev = entries_view(entries@);
                let te = token_entries(vocab.tokens@.take(i + 1));
                assert(entries@ == old_entries.push((t.id, slice)));
                assert forall|j: int| 0 <= j < ev.len() implies ev[j] == te[j] by {
                    if j < i {
                        assert(ev[j] == entries_view(old_entries)[j]);
                        assert(te[j] == token_entries(vocab.tokens@.take(i as int))[j]);
                    } else {
                        assert(vocab.tokens@[j] == *t);
                    }
                }
                assert(ev =~= te);
            }
            i = i + 1;
        }
        assert(vocab.tokens@.take(i as int) =~= vocab.tokens@);
        let trie = Trie::from_vocab(entries.as_slice());
        Encoder { trie, vocab }
    }

    /// Get vocabulary reference
    pub fn vocab(&self) -> (vocab: &Vocabulary)
        ensures
            *vocab == self.spec_vocab(),
            vocab.wf(),
    {
        proof {
            use_type_invariant(self);
        }
        &self.vocab
    }

    /// Decode token IDs back to bytes
    pub fn decode(&self, token_ids: &[u32]) -> (bytes: Vec<u8>)
        requires
            valid_ids(self.spec_tokens(), token_ids@),
        ensures
            bytes@ == decode_ids(self.spec_tokens(), token_ids@),
    {
        let mut bytes: Vec<u8> = Vec::new();
        let mut i: usize = 0;
        while i < token_ids.len()
            invariant
                i <= token_ids@.len(),
                valid_ids(self.spec_tokens(), token_ids@),
                bytes@ == decode_ids(self.spec_tokens(), token_ids@.take(i as int)),
            decreases token_ids@.len() - i,
        {
            let id = token_ids[i];
            assert(id < self.spec_tokens().len());
            let piece = self.vocab.get_bytes(id);
            bytes.extend_from_slice(piece);
            proof {
                assert(token_ids@.take(i + 1).drop_last() =~= token_ids@.take(i as int));
                assert(bytes@ =~= decode_ids(self.spec_tokens(), token_ids@.take(i + 1)));
            }
            i = i + 1;
        }
        assert(token_ids@.take(i as int) =~= token_ids@);
        bytes
    }

    /// Decode token IDs to a UTF-8 string (lossy)
    pub fn decode_to_string(&self, token_ids: &[u32]) -> (text: String)
        requires
            valid_ids(self.spec_tokens(), token_ids@),
        ensures
            text@ == crate::text::utf8_lossy(decode_ids(self.spec_tokens(), token_ids@)),
            vstd::utf8::valid_utf8(decode_ids(self.spec_tokens(), token_ids@)) ==> text@
                == vstd::utf8::decode_utf8(decode_ids(self.spec_tokens(), token_ids@)),
    {
        let bytes = self.decode(token_ids);
        crate::text::lossy_string(bytes.as_slice())
    }

    /// Follow the back-pointers from the end of the input to its start, and
    /// list the tokens met, first to last.
    fn backtrack(&self, input: &[u8], back: &Vec<(u32, usize)>, reached: Ghost<Seq<bool>>) -> (tokens:
        Vec<u32>)
        requires
            back_ok(self.spec_tokens(), input@, back@, reached@),
            reached@[input@.len() as int],
        ensures
            valid_ids(self.spec_tokens(), tokens@),
            decode_ids(self.spec_tokens(), tokens@) == input@,
            tokens@.len() == hops(back@, input@.len() as int),
            tokens@ == back_ids(back@, input@.len() as int),
    {
        let ghost toks = self.spec_tokens();
        let n = input.len();
        let mut rev: Vec<u32> = Vec::new();
        let mut pos: usize = n;
        proof {
            assert(decode_ids(toks, rev@.reverse()) =~= input@.subrange(pos as int, n as int));
            assert(back_ids(back@, n as int) + rev@.reverse() =~= back_ids(back@, n as int));
        }
        while pos > 0
            invariant
                n == input@.len(),
                toks == self.spec_tokens(),
                back_ok(toks, input@, back@, reached@),
                pos <= n,
                reached@[pos as int],
                valid_ids(toks, rev@),
                decode_ids(toks, rev@.reverse()) == input@.subrange(pos as int, n as int),
                rev@.len() + hops(back@, pos as int) == hops(back@, n as int),
                back_ids(back@, n as int) == back_ids(back@, pos as int) + rev@.reverse(),
            decreases pos,
        {
            let (token_id, prev_pos) = back[pos];
            let ghost old_rev = rev@;
            rev.push(token_id);
            proof {
                assert(rev@.reverse() =~= seq![token_id] + old_rev.reverse());
                assert(back_ids(back@, pos as int) == back_ids(back@, prev_pos as int).push(token_id));
                assert(back_ids(back@, prev_pos as int).push(token_id) + old_rev.reverse() =~= back_ids(
                    back@,
                    prev_pos as int,
                ) + rev@.reverse());
                lemma_decode_concat(toks, seq![token_id], old_rev.reverse());
                lemma_decode_single(toks, token_id);
                assert(input@.subrange(prev_pos as int, n as int) =~= input@.subrange(
                    prev_pos as int,
                    pos as int,
                ) + input@.subrange(pos as int, n as int));
            }
            pos = prev_pos;
        }
        let mut tokens: Vec<u32> = Vec::new();
        let mut k: usize = rev.len();
        while k > 0
            invariant
                k <= rev@.len(),
                tokens@ == rev@.subrange(k as int, rev@.len() as int).reverse(),
            decreases k,
        {
            k = k - 1;
            tokens.push(rev[k]);
            assert(rev@.subrange(k as int, rev@.len() as int).reverse() =~= rev@.subrange(
                k + 1,
                rev@.len() as int,
            ).reverse().push(rev@[k as int]));
        }
        proof {
            assert(rev@.subrange(0, rev@.len() as int) =~= rev@);
            assert(input@.subrange(0, n as int) =~= input@);
            assert(back_ids(back@, 0) + rev@.reverse() =~= rev@.reverse());
        }
        tokens
    }

    /// Encode bytes into token IDs using DP-optimal segmentation.
    ///
    /// For each position i, we compute the best score for encoding input[0..i].
    /// The scorer gives each step's score (in the model, the token's
    /// log-probability plus a weighted bigram bonus) and decides which of two
    /// scores is better. This finds the globally optimal tokenization, not a greedy one.
    pub fn encode<S: SegmentScorer>(&self, input: &[u8], scorer: &S) -> (tokens: Vec<u32>)
        ensures
            valid_ids(self.spec_tokens(), tokens@),
            decode_ids(self.spec_tokens(), tokens@) == input@,
            tokens@ == dp_segmentation(*scorer, token_map(self.spec_tokens()), input@),
    {
        proof {
            use_type_invariant(self);
        }
        let ghost toks = self.spec_tokens();
        let n = input.len();
        if n == 0 {
            let tokens: Vec<u32> = Vec::new();
            assert(decode_ids(toks, tokens@) =~= input@);
            assert(tokens@ =~= dp_segmentation(*scorer, token_map(toks), input@));
            return tokens;
        }
        // scores[i]: best score for encoding input[0..i] (None: not reached yet);
        // back[i]: the token that ends that encoding and the position it starts at
        let mut scores: Vec<Option<S::Score>> = Vec::new();
        let mut back: Vec<(u32, usize)> = Vec::new();
        let init = scorer.initial();
        scores.push(Some(init));
        back.push((0, 0));
        let mut k: usize = 0;
        while k < n
            invariant
                scores@.len() == k + 1,
                back@.len() == k + 1,
                k <= n,
                scores@[0] is Some,
                forall|p: int| 0 < p <= k ==> scores@[p] is None,
                scores@[0] == Some(scorer.spec_initial()),
                forall|p: int| 0 <= p <= k ==> back@[p] == (0u32, 0usize),
            decreases n - k,
        {
            scores.push(None);
            back.push((0, 0));
            k = k + 1;
        }
        let ghost m = token_map(toks);
        proof {
            let t0 = dp_table(*scorer, m, input@, 0);
            assert(scores@ =~= t0.0);
            assert(back@ =~= t0.1);
        }
        let mut i: usize = 0;
        while i < n
            invariant
                m == token_map(toks),
                (scores@, back@) == dp_table(*scorer, m, input@, i as nat),
                n == input@.len(),
                encoder_inv(self.trie, self.vocab),
                toks == self.spec_tokens(),
                i <= n,
                back_ok(toks, input@, back@, scores@.map_values(|o: Option<S::Score>| o is Some)),
                forall|p: int|
                    0 < p <= n && #[trigger] scores@[p] is Some && p >= i ==> back@[p].1 < i,
                exists|q: int| i <= q <= n && #[trigger] scores@[q] is Some,
            decreases n - i,
        {
            let ghost snap = scores@;
            let ghost snapt = (scores@, back@);
            match scores[i] {
                None => {
                    proof {
                        let q = choose|q: int| i <= q <= n && #[trigger] scores@[q] is Some;
                        assert(q != i);
                        assert(dp_table(*scorer, m, input@, (i + 1) as nat) == snapt);
                    }
                },
                Some(score) => {
                    let prev_tok: Option<u32> = if i == 0 {
                        None
                    } else {
                        Some(back[i].0)
                    };
                    let matches = self.trie.find_matches(input, i);
                    let ghost cands = dp_candidates(m, input@, i as int);
                    proof {
                        lemma_matches_are_tokens(toks, input@, i as int, matches@);
                        assert(snapt.0[i as int] == Some(score));
                        assert(prev_tok == (if i == 0 { None } else { Some(snapt.1[i as int].0) }));
                        assert(dp_table(*scorer, m, input@, (i + 1) as nat) == dp_offers(
                            *scorer,
                            snapt,
                            score,
                            prev_tok,
                            i as int,
                            cands,
                            cands.len(),
                        ));
                    }
                    if matches.len() == 0 {
                        // Fallback: use single byte token
                        let byte_id = input[i] as u32;
                        proof {
                            assert(toks[byte_id as int].bytes@ == seq![input@[i as int]]);
                            assert(seq![input@[i as int]] =~= input@.subrange(i as int, i + 1));
                        }
                        Self::relax(&mut scores, &mut back, scorer, &score, prev_tok, byte_id, i, i + 1);
                        proof {
                            assert(cands == seq![(byte_id, 1usize)]);
                            assert(dp_offers(*scorer, snapt, score, prev_tok, i as int, cands, 0) == snapt);
                        }
                    } else {
                        let mut j: usize = 0;
                        while j < matches.len()
                            invariant
                                n == input@.len(),
                                toks == self.spec_tokens(),
                                i < n,
                                scores@[i as int] == Some(score),
                                matches@.len() > 0,
                                forall|k: int|
                                    0 <= k < matches@.len() ==> {
                                        let (t, l) = #[trigger] matches@[k];
                                        &&& 1 <= l <= input@.len() - i
                                        &&& t < toks.len()
                                        &&& toks[t as int].bytes@ == input@.subrange(i as int, i + l)
                                    },
                                j <= matches@.len(),
                                scores@.len() == snap.len(),
                                forall|p: int| 0 <= p < snap.len() && #[trigger] snap[p] is Some ==> scores@[p] is Some,
                                j > 0 ==> scores@[i + matches@[0].1] is Some,
                                back_ok(toks, input@, back@, scores@.map_values(|o: Option<S::Score>| o is Some)),
                                forall|p: int|
                                    0 < p <= n && #[trigger] scores@[p] is Some && p > i ==> back@[p].1 <= i,
                                cands == matches@,
                                (scores@, back@) == dp_offers(*scorer, snapt, score, prev_tok, i as int, cands, j as nat),
                            decreases matches@.len() - j,
                        {
                            let (token_id, length) = matches[j];
                            let ghost before = scores@;
                            let ghost before_back = back@;
                            Self::relax(&mut scores, &mut back, scorer, &score, prev_tok, token_id, i, i + length);
                            proof {
                                let r = scores@.map_values(|o: Option<S::Score>| o is Some);
                                let r0 = before.map_values(|o: Option<S::Score>| o is Some);
                                assert(matches@[j as int] == (token_id, length));
                                assert forall|p: int| 0 < p <= input@.len() && #[trigger] r[p] implies {
                                    let (t, q) = back@[p];
                                    &&& q < p
                                    &&& r[q as int]
                                    &&& t < toks.len()
                                    &&& toks[t as int].bytes@ == input@.subrange(q as int, p)
                                } by {
                                    if p == i + length && back@[p] == (token_id, i) {
                                        assert(r[i as int]);
                                    } else {
                                        assert(r0[p]);
                                        let q = back@[p].1;
                                        assert(r0[q as int]);
                                        if q as int != i + length {
                                            assert(scores@[q as int] == before[q as int]);
                                        }
                                    }
                                }
                                assert(scores@[i as int] == before[i as int]);
                                assert forall|p: int| 0 <= p < snap.len() && #[trigger] snap[p] is Some implies scores@[p] is Some by {
                                    if p != i + length {
                                        assert(scores@[p] == before[p]);
                                    }
                                }
                            }
                            j = j + 1;
                        }
                        proof {
                            let e = i + matches@[0].1;
                            assert(scores@[e] is Some);
                        }
                    }
                    proof {
                        assert(scores@[i as int] is Some);
                    }
                },
            }
            i = i + 1;
        }
        proof {
            let q = choose|q: int| i <= q <= n && #[trigger] scores@[q] is Some;
            assert(q == n);
        }
        self.backtrack(input, &back, Ghost(scores@.map_values(|o: Option<S::Score>| o is Some)))
    }

    /// Offer `token`, spanning `input[from..end]`, as the way to reach `end`:
    /// it is taken if `end` is not reached yet or the scorer prefers it.
    fn relax<S: SegmentScorer>(
        scores: &mut Vec<Option<S::Score>>,
        back: &mut Vec<(u32, usize)>,
        scorer: &S,
        score: &S::Score,
        prev_tok: Option<u32>,
        token: u32,
        from: usize,
        end: usize,
    )
        requires
            from < end < old(scores)@.len(),
            old(back)@.len() == old(scores)@.len(),
        ensures
            final(scores)@.len() == old(scores)@.len(),
            final(back)@.len() == old(back)@.len(),
            forall|p: int|
                0 <= p < old(scores)@.len() && p != end ==> #[trigger] final(scores)@[p] == old(scores)@[p],
            forall|p: int|
                0 <= p < old(back)@.len() && p != end ==> #[trigger] final(back)@[p] == old(back)@[p],
            final(scores)@[end as int] is Some,
            (final(scores)@[end as int] == old(scores)@[end as int] && final(back)@[end as int] == old(back)@[end as int])
                || final(back)@[end as int] == (token, from),
            (final(scores)@, final(back)@) == dp_relax(*scorer, (old(scores)@, old(back)@), *score, prev_tok, token, from, end),
    {
        let new_score = scorer.extend(score, prev_tok, token);
        let better = match scores[end] {
            None => true,
            Some(current) => scorer.improves(&new_score, &current),
        };
        if better {
            scores.set(end, Some(new_score));
            back.set(end, (token, from));
        }
    }

    /// Dense encoding: a segmentation of the input into the fewest tokens
    /// (dynamic programming over token counts).
    pub fn encode_dense(&self, input: &[u8]) -> (tokens: Vec<u32>)
        ensures
            valid_ids(self.spec_tokens(), tokens@),
            decode_ids(self.spec_tokens(), tokens@) == input@,
            is_shortest_segmentation(self.spec_tokens(), input@, tokens@),
    {
        proof {
            use_type_invariant(self);
        }
        let ghost toks = self.spec_tokens();
        let n = input.len();
        // counts[i]: fewest tokens that spell input[0..i] (None: not reached yet);
        // back[i]: the token that ends such a spelling and the position it starts at
        let mut counts: Vec<Option<usize>> = Vec::new();
        let mut back: Vec<(u32, usize)> = Vec::new();
        counts.push(Some(0));
        back.push((0, 0));
        let mut k: usize = 0;
        while k < n
            invariant
                counts@.len() == k + 1,
                back@.len() == k + 1,
                k <= n,
                counts@[0] == Some(0usize),
                forall|p: int| 0 < p <= k ==> counts@[p] is None,
            decreases n - k,
        {
            counts.push(None);
            back.push((0, 0));
            k = k + 1;
        }
        let mut i: usize = 0;
        while i < n
            invariant
                n == input@.len(),
                encoder_inv(self.trie, self.vocab),
                toks == self.spec_tokens(),
                i <= n,
                counts@[0] == Some(0usize),
                back_ok(toks, input@, back@, counts@.map_values(|o: Option<usize>| o is Some)),
                counts@.len() == n + 1,
                forall|p: int|
                    0 < p < counts@.len() && #[trigger] counts@[p] is Some ==> back@[p].1 < p
                        && counts@[back@[p].1 as int] is Some
                        && counts@[p].unwrap() == counts@[back@[p].1 as int].unwrap() + 1,
                forall|p: int| 0 <= p < counts@.len() && #[trigger] counts@[p] is Some ==> counts@[p].unwrap() <= p,
                forall|p: int|
                    0 < p < counts@.len() && #[trigger] counts@[p] is Some && p >= i ==> back@[p].1 < i,
                exists|q: int| i <= q <= n && #[trigger] counts@[q] is Some,
                forall|q: int| 0 <= q < i ==> #[trigger] settled(toks, input@, counts@, q),
            decreases n - i,
        {
            match counts[i] {
                None => {
                    proof {
                        let q = choose|q: int| i <= q <= n && #[trigger] counts@[q] is Some;
                        assert(q != i);
                    }
                },
                Some(c) => {
                    let matches = self.trie.find_matches(input, i);
                    proof {
                        lemma_matches_are_tokens(toks, input@, i as int, matches@);
                    }
                    if matches.len() == 0 {
                        // Fallback: use single byte token
                        let byte_id = input[i] as u32;
                        proof {
                            assert(toks[byte_id as int].bytes@ == seq![input@[i as int]]);
                            assert(seq![input@[i as int]] =~= input@.subrange(i as int, i + 1));
                        }
                        let ghost before = counts@;
                        let ghost before_back = back@;
                        Self::relax_dense(&mut counts, &mut back, c + 1, byte_id, i, i + 1);
                        proof {
                            assert(one_offer(before, before_back, counts@, back@, i as int, i + 1, byte_id));
                            lemma_offer_back_ok(toks, input@, before, before_back, counts@, back@, i as int, i + 1, byte_id);
                            lemma_offer_chain(before, before_back, counts@, back@, i as int, i + 1, byte_id);
                            lemma_offer_bound(before, before_back, counts@, back@, i as int, i + 1, byte_id);
                            assert forall|q: int| 0 <= q < i implies #[trigger] settled(toks, input@, counts@, q) by {
                                assert(settled(toks, input@, before, q));
                                lemma_settled_update(toks, input@, before, counts@, q, i + 1);
                            }
                            assert forall|t: int|
                                0 <= t < toks.len() && 1 <= (#[trigger] toks[t]).bytes@.len() && i + toks[t].bytes@.len()
                                    <= input@.len() && toks[t].bytes@ == input@.subrange(i as int, i + toks[t].bytes@.len())
                                    implies false by {
                                let k = choose|k: int| 0 <= k < matches@.len() && matches@[k].1 == toks[t].bytes@.len();
                            }
                            assert(settled(toks, input@, counts@, i as int));
                        }
                    } else {
                        let mut j: usize = 0;
                        while j < matches.len()
                            invariant
                                n == input@.len(),
                                toks == self.spec_tokens(),
                                numbered(toks),
                                i < n,
                                counts@[i as int] == Some(c),
                                counts@[0] == Some(0usize),
                                c <= i,
                                matches@.len() > 0,
                                forall|k: int|
                                    0 <= k < matches@.len() ==> {
                                        let (t, l) = #[trigger] matches@[k];
                                        &&& 1 <= l <= input@.len() - i
                                        &&& t < toks.len()
                                        &&& toks[t as int].bytes@ == input@.subrange(i as int, i + l)
                                    },
                                j <= matches@.len(),
                                counts@.len() == n + 1,
                                forall|k: int|
                                    0 <= k < j ==> {
                                        let e = i + (#[trigger] matches@[k]).1;
                                        &&& counts@[e] is Some
                                        &&& counts@[e].unwrap() <= c + 1
                                    },
                                back_ok(toks, input@, back@, counts@.map_values(|o: Option<usize>| o is Some)),
                                forall|p: int|
                                    0 < p < counts@.len() && #[trigger] counts@[p] is Some ==> back@[p].1 < p
                                        && counts@[back@[p].1 as int] is Some
                                        && counts@[p].unwrap() == counts@[back@[p].1 as int].unwrap() + 1,
                                forall|p: int| 0 <= p < counts@.len() && #[trigger] counts@[p] is Some ==> counts@[p].unwrap() <= p,
                                forall|p: int|
                                    0 < p < counts@.len() && #[trigger] counts@[p] is Some && p > i ==> back@[p].1 <= i,
                                forall|q: int| 0 <= q < i ==> #[trigger] settled(toks, input@, counts@, q),
                            decreases matches@.len() - j,
                        {
                            let (token_id, length) = matches[j];
                            let ghost before = counts@;
                            let ghost before_back = back@;
                            Self::relax_dense(&mut counts, &mut back, c + 1, token_id, i, i + length);
                            proof {
                                assert(matches@[j as int] == (token_id, length));
                                assert(one_offer(before, before_back, counts@, back@, i as int, i + length, token_id));
                                lemma_offer_back_ok(toks, input@, before, before_back, counts@, back@, i as int, i + length, token_id);
                                lemma_offer_chain(before, before_back, counts@, back@, i as int, i + length, token_id);
                                lemma_offer_bound(before, before_back, counts@, back@, i as int, i + length, token_id);
                                assert forall|q: int| 0 <= q < i implies #[trigger] settled(toks, input@, counts@, q) by {
                                    assert(settled(toks, input@, before, q));
                                    lemma_settled_update(toks, input@, before, counts@, q, i + length);
                                }
                                assert forall|k: int| 0 <= k < j + 1 implies {
                                    let e = i + (#[trigger] matches@[k]).1;
                                    &&& counts@[e] is Some
                                    &&& counts@[e].unwrap() <= c + 1
                                } by {
                                    let e = i + matches@[k].1;
                                    if e != i + length {
                                        assert(counts@[e] == before[e]);
                                    }
                                }
                            }
                            j = j + 1;
                        }
                        proof {
                            let e = i + matches@[0].1;
                            assert(counts@[e] is Some);
                            assert forall|t: int|
                                0 <= t < toks.len() && 1 <= (#[trigger] toks[t]).bytes@.len() && i + toks[t].bytes@.len()
                                    <= input@.len() && toks[t].bytes@ == input@.subrange(i as int, i + toks[t].bytes@.len())
                                    implies {
                                    let e = i + toks[t].bytes@.len();
                                    &&& counts@[e] is Some
                                    &&& counts@[e].unwrap() <= counts@[i as int].unwrap() + 1
                                } by {
                                let k = choose|k: int| 0 <= k < matches@.len() && matches@[k].1 == toks[t].bytes@.len();
                                assert(i + matches@[k].1 == i + toks[t].bytes@.len());
                            }
                            assert(settled(toks, input@, counts@, i as int));
                        }
                    }
                },
            }
            i = i + 1;
        }
        proof {
            let q = choose|q: int| i <= q <= n && #[trigger] counts@[q] is Some;
            assert(q == n);
        }
        let tokens = self.backtrack(input, &back, Ghost(counts@.map_values(|o: Option<usize>| o is Some)));
        proof {
            lemma_counts_are_hops(back@, counts@, n as int);
            assert forall|ids: Seq<u32>|
                valid_ids(toks, ids) && decode_ids(toks, ids) == input@ implies tokens@.len() <= ids.len() by {
                assert(input@.take(n as int) =~= input@);
                lemma_dense_optimal(toks, input@, counts@, ids, n as int);
            }
        }
        tokens
    }

    /// Offer `token`, spanning `input[from..end]` and making `count` tokens in
    /// all, as the way to reach `end`: it is taken if `end` is not reached yet
    /// or needs more tokens so far.
    fn relax_dense(
        counts: &mut Vec<Option<usize>>,
        back: &mut Vec<(u32, usize)>,
        count: usize,
        token: u32,
        from: usize,
        end: usize,
    )
        requires
            from < end < old(counts)@.len(),
            old(back)@.len() == old(counts)@.len(),
        ensures
            final(counts)@.len() == old(counts)@.len(),
            final(back)@.len() == old(back)@.len(),
            forall|p: int|
                0 <= p < old(counts)@.len() && p != end ==> #[trigger] final(counts)@[p] == old(counts)@[p],
            forall|p: int|
                0 <= p < old(back)@.len() && p != end ==> #[trigger] final(back)@[p] == old(back)@[p],
            final(counts)@[end as int] is Some,
            final(counts)@[end as int].unwrap() <= count,
            old(counts)@[end as int] is Some ==> final(counts)@[end as int].unwrap() <= old(counts)@[end as int].unwrap(),
            (final(counts)@[end as int] == old(counts)@[end as int] && final(back)@[end as int] == old(back)@[end as int])
                || (final(counts)@[end as int] == Some(count) && final(back)@[end as int] == (token, from)),
    {
        let better = match counts[end] {
            None => true,
            Some(current) => count < current,
        };
        if better {
            counts.set(end, Some(count));
            back.set(end, (token, from));
        }
    }

    /// Greedy encoding (left-to-right longest match) for speed comparison
    pub fn encode_greedy(&self, input: &[u8]) -> (tokens: Vec<u32>)
        ensures
            tokens@ == greedy_tokens(token_map(self.spec_tokens()), input@),
            valid_ids(self.spec_tokens(), tokens@),
            decode_ids(self.spec_tokens(), tokens@) == input@,
            forall|k: int|
                0 <= k < tokens@.len() ==> longest_token_at(
                    self.spec_tokens(),
                    input@,
                    decode_ids(self.spec_tokens(), tokens@.take(k)).len() as int,
                    #[trigger] tokens@[k],
                ),
    {
        proof {
            use_type_invariant(self);
        }
        let ghost m = token_map(self.spec_tokens());
        let ghost toks = self.spec_tokens();
        let mut tokens: Vec<u32> = Vec::new();
        let mut pos: usize = 0;
        let n = input.len();
        proof {
            assert(input@.skip(0) =~= input@);
            assert(tokens@ + greedy_tokens(m, input@.skip(0)) =~= greedy_tokens(m, input@));
            assert(decode_ids(toks, tokens@) =~= input@.take(0));
        }
        while pos < n
            invariant
                n == input@.len(),
                pos <= n,
                encoder_inv(self.trie, self.vocab),
                m == token_map(self.spec_tokens()),
                toks == self.spec_tokens(),
                tokens@ + greedy_tokens(m, input@.skip(pos as int)) == greedy_tokens(m, input@),
                valid_ids(toks, tokens@),
                decode_ids(toks, tokens@) == input@.take(pos as int),
            decreases n - pos,
        {
            let matches = self.trie.find_matches(input, pos);
            let ghost s = input@.skip(pos as int);
            let ghost old_tokens = tokens@;
            proof {
                lemma_last_match_is_longest(m, s, s.len());
                lemma_longest_prefix_bound(m, s, s.len());
                lemma_prefix_matches_shape(m, s, s.len());
                lemma_token_map(toks);
            }
            let step: usize;
            if matches.len() > 0 {
                let (token_id, length) = matches[matches.len() - 1];
                tokens.push(token_id);
                step = length;
                proof {
                    assert(s.take(length as int) =~= input@.subrange(pos as int, pos + length));
                }
            } else {
                tokens.push(input[pos] as u32);
                step = 1;
                proof {
                    assert(toks[input@[pos as int] as int].bytes@ == seq![input@[pos as int]]);
                    assert(seq![input@[pos as int]] =~= input@.subrange(pos as int, pos + 1));
                }
            }
            proof {
                let t = tokens@.last();
                assert(tokens@ == old_tokens + seq![t]);
                assert(toks[t as int].bytes@ == input@.subrange(pos as int, pos + step));
                assert(greedy_tokens(m, s) == seq![t] + greedy_tokens(m, s.skip(step as int)));
                assert(s.skip(step as int) =~= input@.skip(pos + step));
                assert(old_tokens + greedy_tokens(m, s) =~= tokens@ + greedy_tokens(
                    m,
                    input@.skip(pos + step),
                ));
                lemma_decode_concat(toks, old_tokens, seq![t]);
                lemma_decode_single(toks, t);
                assert(input@.take(pos + step) =~= input@.take(pos as int) + input@.subrange(
                    pos as int,
                    pos + step,
                ));
            }
            pos = pos + step;
        }
        proof {
            assert(input@.skip(pos as int) =~= Seq::<u8>::empty());
            assert(tokens@ + greedy_tokens(m, input@.skip(pos as int)) =~= tokens@);
            assert(input@.take(pos as int) =~= input@);
            lemma_greedy_takes_longest(toks, input@);
        }
        tokens
    }
}


impl Encoder {
    /// The byte span each token covers in what `token_ids` decode to: token
    /// `i` covers `start .. end`, the spans following one another from 0.
    pub fn token_offsets(&self, token_ids: &[u32]) -> (offsets: Vec<(usize, usize)>)
        requires
            valid_ids(self.spec_tokens(), token_ids@),
            decode_ids(self.spec_tokens(), token_ids@).len() <= usize::MAX,
        ensures
            offsets@.len() == token_ids@.len(),
            forall|i: int|
                #![trigger offsets@[i]]
                0 <= i < offsets@.len() ==> {
                    &&& offsets@[i].0 == decode_ids(self.spec_tokens(), token_ids@.take(i)).len()
                    &&& offsets@[i].1 == decode_ids(self.spec_tokens(), token_ids@.take(i + 1)).len()
                    &&& offsets@[i].0 <= offsets@[i].1
                    &&& decode_ids(self.spec_tokens(), token_ids@).subrange(
                        offsets@[i].0 as int,
                        offsets@[i].1 as int,
                    ) == self.spec_tokens()[token_ids@[i] as int].bytes@
                },
    {
        let ghost toks = self.spec_tokens();
        let ghost all = decode_ids(toks, token_ids@);
        let mut offsets: Vec<(usize, usize)> = Vec::with_capacity(token_ids.len());
        let mut pos: usize = 0;
        let mut i: usize = 0;
        proof {
            assert(token_ids@.take(0) =~= Seq::<u32>::empty());
        }
        while i < token_ids.len()
            invariant
                toks == self.spec_tokens(),
                all == decode_ids(toks, token_ids@),
                all.len() <= usize::MAX,
                valid_ids(toks, token_ids@),
                i <= token_ids@.len(),
                offsets@.len() == i,
                pos == decode_ids(toks, token_ids@.take(i as int)).len(),
                forall|j: int|
                    #![trigger offsets@[j]]
                    0 <= j < i ==> {
                        &&& offsets@[j].0 == decode_ids(toks, token_ids@.take(j)).len()
                        &&& offsets@[j].1 == decode_ids(toks, token_ids@.take(j + 1)).len()
                        &&& offsets@[j].0 <= offsets@[j].1
                        &&& all.subrange(offsets@[j].0 as int, offsets@[j].1 as int)
                            == toks[token_ids@[j] as int].bytes@
                    },
            decreases token_ids@.len() - i,
        {
            let id = token_ids[i];
            assert(id < toks.len());
            let len = self.vocab.get_bytes(id).len();
            let ghost pre = decode_ids(toks, token_ids@.take(i as int));
            let ghost cur = decode_ids(toks, token_ids@.take(i + 1));
            proof {
                assert(token_ids@.take(i + 1).drop_last() =~= token_ids@.take(i as int));
                assert(cur == pre + toks[id as int].bytes@);
                assert(token_ids@ =~= token_ids@.take(i + 1) + token_ids@.skip(i + 1));
                lemma_decode_concat(toks, token_ids@.take(i + 1), token_ids@.skip(i + 1));
                assert(all.subrange(pre.len() as int, cur.len() as int) =~= toks[id as int].bytes@);
            }
            let end = pos + len;
            offsets.push((pos, end));
            pos = end;
            i = i + 1;
        }
        offsets
    }
}

} // verus!
