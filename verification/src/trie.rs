use std::collections::HashMap;
use vstd::prelude::*;

verus! {

broadcast use vstd::std_specs::hash::group_hash_axioms;

/// A trie node for fast prefix/token lookup during encoding
#[derive(Debug, Clone)]
struct TrieNode {
    children: HashMap<u8, usize>,
    token_id: Option<u32>,
}

/// Byte-level trie for vocabulary lookup.
/// Supports finding all tokens that match a prefix of the input at any position.
///
/// Abstractly a trie is a finite map from byte strings to token ids (`view`).
/// Each node stands for one byte string (its path from the root); the ghost
/// map `index` sends every such path to its node, and `paths` is its inverse.
#[derive(Clone)]
pub struct Trie {
    nodes: Vec<TrieNode>,
    index: Ghost<Map<Seq<u8>, usize>>,
    paths: Ghost<Seq<Seq<u8>>>,
}

/// The map that inserting `entries` in order into an empty trie produces:
/// a later entry with the same bytes overrides an earlier one.
pub open spec fn entries_map(entries: Seq<(u32, Seq<u8>)>) -> Map<Seq<u8>, u32>
    decreases entries.len(),
{
    if entries.len() == 0 {
        Map::empty()
    } else {
        entries_map(entries.drop_last()).insert(entries.last().1, entries.last().0)
    }
}

/// The entries of a vocabulary given as `(id, bytes)` pairs, by their views.
pub open spec fn entries_view(entries: Seq<(u32, &[u8])>) -> Seq<(u32, Seq<u8>)> {
    entries.map_values(|e: (u32, &[u8])| (e.0, e.1@))
}

/// All tokens of `m` that are a non-empty prefix of `s` of length at most `l`,
/// as `(token_id, length)` pairs by increasing length.
pub open spec fn prefix_matches(m: Map<Seq<u8>, u32>, s: Seq<u8>, l: nat) -> Seq<(u32, usize)>
    decreases l,
{
    if l == 0 {
        Seq::empty()
    } else {
        let rest = prefix_matches(m, s, (l - 1) as nat);
        if m.contains_key(s.take(l as int)) {
            rest.push((m[s.take(l as int)], l as usize))
        } else {
            rest
        }
    }
}

/// Beyond the longest prefix of `s` that the map holds, no longer prefix adds a match.
proof fn lemma_prefix_matches_stable(m: Map<Seq<u8>, u32>, s: Seq<u8>, i: nat, l: nat)
    requires
        i <= l,
        forall|j: int| i < j <= l ==> !m.contains_key(#[trigger] s.take(j)),
    ensures
        prefix_matches(m, s, l) == prefix_matches(m, s, i),
    decreases l,
{
    if l > i {
        lemma_prefix_matches_stable(m, s, i, (l - 1) as nat);
    }
}

/// Every match found has a length in `1..=l` and a token of `m` at that prefix,
/// and lengths strictly increase.
pub proof fn lemma_prefix_matches_shape(m: Map<Seq<u8>, u32>, s: Seq<u8>, l: nat)
    requires
        l <= usize::MAX,
    ensures
        forall|k: int|
            0 <= k < prefix_matches(m, s, l).len() ==> {
                let e = #[trigger] prefix_matches(m, s, l)[k];
                &&& 1 <= e.1 <= l
                &&& m.contains_key(s.take(e.1 as int))
                &&& m[s.take(e.1 as int)] == e.0
            },
        forall|k1: int, k2: int|
            0 <= k1 < k2 < prefix_matches(m, s, l).len() ==> #[trigger] prefix_matches(m, s, l)[k1].1
                < #[trigger] prefix_matches(m, s, l)[k2].1,
        forall|j: int|
            1 <= j <= l && m.contains_key(#[trigger] s.take(j)) ==> exists|k: int|
                0 <= k < prefix_matches(m, s, l).len() && prefix_matches(m, s, l)[k].1 == j,
    decreases l,
{
    if l > 0 {
        lemma_prefix_matches_shape(m, s, (l - 1) as nat);
        let rest = prefix_matches(m, s, (l - 1) as nat);
        if m.contains_key(s.take(l as int)) {
            let cur = prefix_matches(m, s, l);
            assert(cur == rest.push((m[s.take(l as int)], l as usize)));
            assert forall|j: int|
                1 <= j <= l && m.contains_key(#[trigger] s.take(j)) implies exists|k: int|
                    0 <= k < cur.len() && cur[k].1 == j by {
                if j == l {
                    assert(cur[cur.len() - 1].1 == j);
                } else {
                    let k = choose|k: int| 0 <= k < rest.len() && rest[k].1 == j;
                    assert(cur[k] == rest[k]);
                }
            }
        } else {
            let cur = prefix_matches(m, s, l);
            assert(cur == rest);
            assert forall|j: int|
                1 <= j <= l && m.contains_key(#[trigger] s.take(j)) implies exists|k: int|
                    0 <= k < cur.len() && cur[k].1 == j by {
                let k = choose|k: int| 0 <= k < rest.len() && rest[k].1 == j;
                assert(cur[k] == rest[k]);
            }
        }
    }
}

/// The match list `ms` (ordered by length) with the entry of length `e.1`
/// set to `e`: replaced if there is one, added in its place otherwise.
pub open spec fn set_match(ms: Seq<(u32, usize)>, e: (u32, usize)) -> Seq<(u32, usize)>
    decreases ms.len(),
{
    if ms.len() == 0 {
        seq![e]
    } else if ms.last().1 < e.1 {
        ms.push(e)
    } else if ms.last().1 == e.1 {
        ms.drop_last().push(e)
    } else {
        set_match(ms.drop_last(), e).push(ms.last())
    }
}

/// What an insertion does to later searches: once `bytes` is in the map with
/// `id`, a search over `s` (up to length `l`) gives the earlier result with the
/// entry of length `bytes.len()` set to `(id, bytes.len())` if `s` starts with
/// `bytes` within `l`, and the earlier result unchanged otherwise.
pub proof fn lemma_insert_then_match(m: Map<Seq<u8>, u32>, bytes: Seq<u8>, id: u32, s: Seq<u8>, l: nat)
    requires
        l <= s.len(),
        l <= usize::MAX,
    ensures
        1 <= bytes.len() <= l && s.take(bytes.len() as int) == bytes ==> prefix_matches(m.insert(bytes, id), s, l)
            == set_match(prefix_matches(m, s, l), (id, bytes.len() as usize)),
        !(1 <= bytes.len() <= l && s.take(bytes.len() as int) == bytes) ==> prefix_matches(
            m.insert(bytes, id),
            s,
            l,
        ) == prefix_matches(m, s, l),
    decreases l,
{
    let m2 = m.insert(bytes, id);
    let hit = 1 <= bytes.len() <= l && s.take(bytes.len() as int) == bytes;
    if l > 0 {
        lemma_insert_then_match(m, bytes, id, s, (l - 1) as nat);
        let key = s.take(l as int);
        let old_rest = prefix_matches(m, s, (l - 1) as nat);
        let e = (id, bytes.len() as usize);
        if key != bytes {
            assert(m2.contains_key(key) == m.contains_key(key));
            if m.contains_key(key) {
                assert(m2[key] == m[key]);
            }
            if hit {
                assert(bytes.len() != l);
                assert(bytes.len() <= l - 1);
                let new_rest = prefix_matches(m2, s, (l - 1) as nat);
                assert(new_rest == set_match(old_rest, e));
                if m.contains_key(key) {
                    let x = (m[key], l as usize);
                    assert(prefix_matches(m, s, l) == old_rest.push(x));
                    assert(old_rest.push(x).drop_last() =~= old_rest);
                }
            }
        } else {
            // `s` starts with `bytes` exactly at length `l`
            assert(key.len() == l);
            assert(bytes.len() == l);
            lemma_prefix_matches_shape(m, s, (l - 1) as nat);
            if !(1 <= bytes.len() <= (l - 1) && s.take(bytes.len() as int) == bytes) {
                assert(prefix_matches(m2, s, (l - 1) as nat) == old_rest);
            }
            let new_l = prefix_matches(m2, s, l);
            assert(new_l == old_rest.push(e));
            if m.contains_key(key) {
                let x = (m[key], l as usize);
                assert(prefix_matches(m, s, l) == old_rest.push(x));
                assert(old_rest.push(x).drop_last() =~= old_rest);
            } else if old_rest.len() > 0 {
                assert(old_rest.last().1 <= l - 1);
            } else {
                assert(seq![e] =~= old_rest.push(e));
            }
        }
    }
}

impl TrieNode {
    fn empty() -> (node: TrieNode)
        ensures
            node.children@ == Map::<u8, usize>::empty(),
            node.token_id is None,
    {
        TrieNode { children: HashMap::new(), token_id: None }
    }
}

impl Default for Trie {
    fn default() -> (trie: Self)
        ensures
            trie.wf(),
            trie@ == Map::<Seq<u8>, u32>::empty(),
    {
        Self::new()
    }
}

impl Trie {
    /// The well-formedness of the trie: `index` and `paths` are mutually inverse,
    /// the set of paths is closed under taking prefixes, and a node has a child
    /// for byte `b` exactly when its path extended by `b` is a path, namely that
    /// path's node.
    pub closed spec fn wf(&self) -> bool {
        let idx = self.index@;
        let paths = self.paths@;
        let n = self.nodes@.len();
        &&& n >= 1
        &&& paths.len() == n
        &&& idx.contains_key(Seq::<u8>::empty())
        &&& idx[Seq::<u8>::empty()] == 0
        &&& forall|s: Seq<u8>|
            #[trigger] idx.contains_key(s) ==> idx[s] < n && paths[idx[s] as int] == s
        &&& forall|i: int| 0 <= i < n ==> idx.contains_key(#[trigger] paths[i]) && idx[paths[i]] == i
        &&& forall|s: Seq<u8>|
            #[trigger] idx.contains_key(s) && s.len() > 0 ==> idx.contains_key(s.drop_last())
        &&& forall|s: Seq<u8>, b: u8|
            #[trigger] idx.contains_key(s.push(b)) ==> idx.contains_key(s)
        &&& forall|s: Seq<u8>, b: u8|
            idx.contains_key(s) ==> (#[trigger] self.nodes@[idx[s] as int].children@.contains_key(b)
                <==> idx.contains_key(s.push(b)))
        &&& forall|s: Seq<u8>, b: u8|
            idx.contains_key(s) && #[trigger] idx.contains_key(s.push(b))
                ==> self.nodes@[idx[s] as int].children@[b] == idx[s.push(b)]
    }

    /// The token map: byte strings that carry a token id, with that id.
    pub closed spec fn view(&self) -> Map<Seq<u8>, u32> {
        Map::new(
            |s: Seq<u8>|
                self.index@.contains_key(s) && self.nodes@[self.index@[s] as int].token_id is Some,
            |s: Seq<u8>| self.nodes@[self.index@[s] as int].token_id.unwrap(),
        )
    }

    pub fn new() -> (trie: Self)
        ensures
            trie.wf(),
            trie@ == Map::<Seq<u8>, u32>::empty(),
    {
        let mut nodes: Vec<TrieNode> = Vec::new();
        nodes.push(TrieNode::empty());
        let trie = Trie {
            nodes,
            index: Ghost(Map::<Seq<u8>, usize>::empty().insert(Seq::<u8>::empty(), 0usize)),
            paths: Ghost(Seq::<Seq<u8>>::empty().push(Seq::<u8>::empty())),
        };
        proof {
            assert(trie.nodes@.len() == 1);
            assert(trie.paths@[0] == Seq::<u8>::empty());
            assert forall|s: Seq<u8>, b: u8|
                trie.index@.contains_key(s) && #[trigger] trie.index@.contains_key(s.push(b))
                implies trie.nodes@[trie.index@[s] as int].children@[b] == trie.index@[s.push(b)] by {
                assert(s.push(b).len() > 0);
            }
            assert forall|s: Seq<u8>, b: u8| #[trigger] trie.index@.contains_key(s.push(b)) implies
                trie.index@.contains_key(s) by {
                assert(s.push(b).len() > 0);
            }
            assert forall|s: Seq<u8>, b: u8|
                trie.index@.contains_key(s) implies (
                #[trigger] trie.nodes@[trie.index@[s] as int].children@.contains_key(b)
                    <==> trie.index@.contains_key(s.push(b))) by {
                assert(s.push(b).len() > 0);
            }
            assert(trie@ =~= Map::<Seq<u8>, u32>::empty());
        }
        trie
    }

    /// Build a trie from vocabulary (token_id -> bytes mapping)
    pub fn from_vocab(tokens: &[(u32, &[u8])]) -> (trie: Self)
        ensures
            trie.wf(),
            trie@ == entries_map(entries_view(tokens@)),
    {
        let mut trie = Self::new();
        let mut i: usize = 0;
        while i < tokens.len()
            invariant
                i <= tokens@.len(),
                trie.wf(),
                trie@ == entries_map(entries_view(tokens@.take(i as int))),
            decreases tokens@.len() - i,
        {
            let (id, bytes) = tokens[i];
            trie.insert(bytes, id);
            proof {
                let e = entries_view(tokens@.take(i + 1));
                assert(e.drop_last() =~= entries_view(tokens@.take(i as int)));
            }
            i = i + 1;
        }
        assert(tokens@.take(i as int) =~= tokens@);
        trie
    }

    /// Insert a byte sequence with its token ID
    pub fn insert(&mut self, bytes: &[u8], token_id: u32)
        requires
            old(self).wf(),
        ensures
            final(self).wf(),
            final(self)@ == old(self)@.insert(bytes@, token_id),
    {
        let ghost old_view = self@;
        let mut node_idx: usize = 0;
        let mut k: usize = 0;
        assert(bytes@.take(0) =~= Seq::<u8>::empty());
        while k < bytes.len()
            invariant
                k <= bytes@.len(),
                self.wf(),
                self@ == old_view,
                self.index@.contains_key(bytes@.take(k as int)),
                self.index@[bytes@.take(k as int)] == node_idx,
            decreases bytes@.len() - k,
        {
            let b = bytes[k];
            let ghost p = bytes@.take(k as int);
            assert(bytes@.take(k + 1) == p.push(b));
            let found = match self.nodes[node_idx].children.get(&b) {
                Some(c) => Some(*c),
                None => None,
            };
            match found {
                Some(child_idx) => {
                    node_idx = child_idx;
                },
                None => {
                    let new_idx = self.nodes.len();
                    let ghost s = p.push(b);
                    let ghost old_idx = self.index@;
                    let ghost old_nodes = self.nodes@;
                    proof {
                        assert(!old_idx.contains_key(s));
                        assert forall|b2: u8| !old_idx.contains_key(s.push(b2)) by {
                            assert(s.push(b2).drop_last() =~= s);
                        }
                    }
                    self.nodes.push(TrieNode::empty());
                    self.nodes[node_idx].children.insert(b, new_idx);
                    self.index = Ghost(self.index@.insert(s, new_idx));
                    self.paths = Ghost(self.paths@.push(s));
                    proof {
                        let idx = self.index@;
                        assert forall|t: Seq<u8>| #[trigger] idx.contains_key(t) && t.len() > 0 implies
                            idx.contains_key(t.drop_last()) by {
                            if t == s {
                                assert(s.drop_last() =~= p);
                            }
                        }
                        assert forall|t: Seq<u8>, b2: u8| #[trigger] idx.contains_key(t.push(b2)) implies
                            idx.contains_key(t) by {
                            if t.push(b2) == s {
                                assert(t =~= t.push(b2).drop_last());
                                assert(s.drop_last() =~= p);
                            }
                        }
                        assert forall|t: Seq<u8>, b2: u8| idx.contains_key(t) implies (
                            #[trigger] self.nodes@[idx[t] as int].children@.contains_key(b2)
                                <==> idx.contains_key(t.push(b2))) by {
                            if t == s {
                                assert(t.push(b2) != s) by {
                                    assert(t.push(b2).len() != s.len());
                                }
                            } else if t == p {
                                if b2 != b {
                                    assert(t.push(b2) != s) by {
                                        assert(t.push(b2)[p.len() as int] != s[p.len() as int]);
                                    }
                                }
                            } else {
                                assert(idx[t] != node_idx);
                                if t.push(b2) == s {
                                    assert(t =~= p) by {
                                        assert(t =~= t.push(b2).drop_last());
                                        assert(s.drop_last() =~= p);
                                    }
                                }
                            }
                        }
                        assert forall|t: Seq<u8>, b2: u8|
                            idx.contains_key(t) && #[trigger] idx.contains_key(t.push(b2)) implies
                            self.nodes@[idx[t] as int].children@[b2] == idx[t.push(b2)] by {
                            if t == s {
                                assert(t.push(b2).len() != s.len());
                            } else if t == p {
                                if b2 != b {
                                    assert(t.push(b2)[p.len() as int] != s[p.len() as int]);
                                }
                            } else {
                                assert(idx[t] != node_idx);
                                if t.push(b2) == s {
                                    assert(t =~= t.push(b2).drop_last());
                                    assert(s.drop_last() =~= p);
                                }
                            }
                        }
                        assert(self@ =~= old_view);
                    }
                    node_idx = new_idx;
                },
            }
            k = k + 1;
        }
        assert(bytes@.take(k as int) =~= bytes@);
        let ghost idx = self.index@;
        self.nodes[node_idx].token_id = Some(token_id);
        proof {
            assert forall|t: Seq<u8>, b2: u8| idx.contains_key(t) implies (
                #[trigger] self.nodes@[idx[t] as int].children@.contains_key(b2)
                    <==> idx.contains_key(t.push(b2))) by {
            }
            assert(self@ =~= old_view.insert(bytes@, token_id));
        }
    }

    /// Find all tokens that match a prefix of input[start..].
    /// Returns Vec<(token_id, length)> sorted by length ascending.
    pub fn find_matches(&self, input: &[u8], start: usize) -> (matches: Vec<(u32, usize)>)
        requires
            self.wf(),
            start <= input@.len(),
        ensures
            matches@ == prefix_matches(self@, input@.skip(start as int), (input@.len() - start) as nat),
    {
        let ghost s = input@.skip(start as int);
        let ghost m = self@;
        let mut matches: Vec<(u32, usize)> = Vec::new();
        let mut node_idx: usize = 0;
        let mut k: usize = 0;
        let n = input.len();
        assert(s.take(0) =~= Seq::<u8>::empty());
        while start + k < n
            invariant
                n == input@.len(),
                start <= input@.len(),
                s == input@.skip(start as int),
                m == self@,
                self.wf(),
                start + k <= input@.len(),
                self.index@.contains_key(s.take(k as int)),
                self.index@[s.take(k as int)] == node_idx,
                matches@ == prefix_matches(m, s, k as nat),
            decreases input@.len() - start - k,
        {
            let b = input[start + k];
            assert(s.take(k + 1) == s.take(k as int).push(b));
            let found = match self.nodes[node_idx].children.get(&b) {
                Some(c) => Some(*c),
                None => None,
            };
            match found {
                Some(child_idx) => {
                    node_idx = child_idx;
                    match self.nodes[node_idx].token_id {
                        Some(token_id) => {
                            matches.push((token_id, k + 1));
                        },
                        None => {},
                    }
                    k = k + 1;
                },
                None => {
                    proof {
                        let l = (input@.len() - start) as nat;
                        assert forall|j: int| k < j <= l implies !m.contains_key(#[trigger] s.take(j)) by {
                            self.lemma_no_extension(s, k as int, j);
                        }
                        lemma_prefix_matches_stable(m, s, k as nat, l);
                    }
                    return matches;
                },
            }
        }
        matches
    }

    /// The id that the trie holds for exactly `bytes`, if any.
    pub fn get(&self, bytes: &[u8]) -> (id: Option<u32>)
        requires
            self.wf(),
        ensures
            id == (if self@.contains_key(bytes@) {
                Some(self@[bytes@])
            } else {
                None::<u32>
            }),
    {
        let blen = bytes.len();
        let matches = self.find_matches(bytes, 0);
        let ghost m = self@;
        let ghost s = bytes@.skip(0);
        proof {
            assert(s =~= bytes@);
            assert(s.take(bytes@.len() as int) =~= bytes@);
            lemma_prefix_matches_shape(m, s, bytes@.len());
        }
        if matches.len() == 0 {
            proof {
                if m.contains_key(bytes@) && bytes@.len() > 0 {
                    assert(m.contains_key(s.take(bytes@.len() as int)));
                }
                if bytes@.len() == 0 {
                    assert(s.take(0) =~= bytes@);
                    assert(prefix_matches(m, s, 0) =~= Seq::<(u32, usize)>::empty());
                }
            }
            if blen == 0 {
                assert(bytes@ =~= Seq::<u8>::empty());
                return self.get_root();
            }
            None
        } else {
            let (id, len) = matches[matches.len() - 1];
            if len == blen {
                Some(id)
            } else {
                proof {
                    if m.contains_key(bytes@) {
                        assert(m.contains_key(s.take(bytes@.len() as int)));
                        let k = choose|k: int| 0 <= k < matches@.len() && matches@[k].1 == bytes@.len();
                        if k < matches@.len() - 1 {
                            assert(matches@[k].1 < matches@[matches@.len() - 1].1);
                        }
                    }
                }
                None
            }
        }
    }

    /// The id held for the empty byte string, if any.
    fn get_root(&self) -> (id: Option<u32>)
        requires
            self.wf(),
        ensures
            id == (if self@.contains_key(Seq::<u8>::empty()) {
                Some(self@[Seq::<u8>::empty()])
            } else {
                None::<u32>
            }),
    {
        self.nodes[0].token_id
    }

    /// If a path has no child for the next byte of `s`, no longer prefix of `s` is a path.
    proof fn lemma_no_extension(&self, s: Seq<u8>, k: int, j: int)
        requires
            self.wf(),
            0 <= k < j <= s.len(),
            !self.index@.contains_key(s.take(k + 1)),
        ensures
            !self.index@.contains_key(s.take(j)),
        decreases j - k,
    {
        if j > k + 1 {
            self.lemma_no_extension(s, k, j - 1);
            assert(s.take(j).drop_last() =~= s.take(j - 1));
        }
    }
}

} // verus!
