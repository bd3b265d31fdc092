use std::collections::HashMap;
use vstd::prelude::*;

use crate::trie::{entries_map, Trie};

verus! {

broadcast use vstd::std_specs::hash::group_hash_axioms;

/// A single token in the vocabulary
#[derive(Debug, Clone)]
pub struct Token {
    pub id: u32,
    pub bytes: Vec<u8>,
    /// If this token was created by merging two tokens, store their IDs
    pub merge_pair: Option<(u32, u32)>,
}

/// The tokens as `(id, bytes)` entries, in order.
pub open spec fn token_entries(tokens: Seq<Token>) -> Seq<(u32, Seq<u8>)> {
    tokens.map_values(|t: Token| (t.id, t.bytes@))
}

/// The map from byte strings to ids that the tokens define; where two tokens
/// have the same bytes, the later one wins.
pub open spec fn token_map(tokens: Seq<Token>) -> Map<Seq<u8>, u32> {
    entries_map(token_entries(tokens))
}

/// The tokens are numbered by their position.
pub open spec fn numbered(tokens: Seq<Token>) -> bool {
    forall|i: int| 0 <= i < tokens.len() ==> (#[trigger] tokens[i]).id == i
}

/// Every token has at least one byte.
pub open spec fn nonempty_tokens(tokens: Seq<Token>) -> bool {
    forall|i: int| 0 <= i < tokens.len() ==> (#[trigger] tokens[i]).bytes@.len() >= 1
}

/// The first 256 tokens are the single bytes, token `b` being byte `b`.
pub open spec fn byte_level_base(tokens: Seq<Token>) -> bool {
    &&& tokens.len() >= 256
    &&& forall|b: u8| (#[trigger] tokens[b as int]).bytes@ == seq![b]
}

/// The length of the longest token, in bytes (0 for no tokens).
pub open spec fn longest(tokens: Seq<Token>) -> nat
    decreases tokens.len(),
{
    if tokens.len() == 0 {
        0
    } else {
        let rest = longest(tokens.drop_last());
        let l = tokens.last().bytes@.len();
        if l > rest {
            l
        } else {
            rest
        }
    }
}

/// Over numbered tokens, the token map sends each key to a token with exactly those
/// bytes, and holds the bytes of every token.
pub proof fn lemma_token_map(tokens: Seq<Token>)
    requires
        numbered(tokens),
        tokens.len() <= u32::MAX + 1,
    ensures
        forall|k: Seq<u8>|
            #[trigger] token_map(tokens).contains_key(k) ==> token_map(tokens)[k] < tokens.len()
                && tokens[token_map(tokens)[k] as int].bytes@ == k,
        forall|i: int|
            0 <= i < tokens.len() ==> #[trigger] token_map(tokens).contains_key(tokens[i].bytes@),
    decreases tokens.len(),
{
    if tokens.len() > 0 {
        let rest = tokens.drop_last();
        assert(token_entries(tokens).drop_last() =~= token_entries(rest));
        lemma_token_map(rest);
        assert forall|i: int| 0 <= i < tokens.len() implies #[trigger] token_map(
            tokens,
        ).contains_key(tokens[i].bytes@) by {
            if i < tokens.len() - 1 {
                assert(rest[i] == tokens[i]);
                assert(token_map(rest).contains_key(rest[i].bytes@));
            }
        }
        assert forall|k: Seq<u8>| #[trigger] token_map(tokens).contains_key(k) implies token_map(
            tokens,
        )[k] < tokens.len() && tokens[token_map(tokens)[k] as int].bytes@ == k by {
            if k != tokens.last().bytes@ {
                assert(token_map(rest).contains_key(k));
                let j = token_map(rest)[k] as int;
                assert(rest[j] == tokens[j]);
            } else {
                assert(tokens[tokens.len() - 1].id == tokens.len() - 1);
            }
        }
    }
}

/// A token map is unchanged at keys other than the bytes of tokens added to it.
proof fn lemma_token_map_push(tokens: Seq<Token>, t: Token)
    ensures
        token_map(tokens.push(t)) == token_map(tokens).insert(t.bytes@, t.id),
{
    assert(token_entries(tokens.push(t)).drop_last() =~= token_entries(tokens));
}

/// Every byte is a token: in a vocabulary that starts with the 256 single
/// bytes, looking up any single byte finds a token spelled by that byte.
pub proof fn lemma_every_byte_is_a_token(tokens: Seq<Token>, b: u8)
    requires
        numbered(tokens),
        byte_level_base(tokens),
        tokens.len() <= u32::MAX + 1,
    ensures
        token_map(tokens).contains_key(seq![b]),
        tokens[token_map(tokens)[seq![b]] as int].bytes@ == seq![b],
{
    lemma_token_map(tokens);
    assert(token_map(tokens).contains_key(tokens[b as int].bytes@));
}

/// Looking up the bytes of a token just added finds that token; every other
/// lookup is unchanged.
pub proof fn lemma_lookup_after_add(tokens: Seq<Token>, t: Token)
    ensures
        token_map(tokens.push(t)).contains_key(t.bytes@),
        token_map(tokens.push(t))[t.bytes@] == t.id,
        forall|k: Seq<u8>|
            k != t.bytes@ ==> #[trigger] token_map(tokens.push(t)).contains_key(k) == token_map(
                tokens,
            ).contains_key(k) && token_map(tokens.push(t))[k] == token_map(tokens)[k],
{
    lemma_token_map_push(tokens, t);
}

/// The full vocabulary including merge history
pub struct Vocabulary {
    pub tokens: Vec<Token>,
    pub byte_to_id: HashMap<u8, u32>,
    pub bytes_to_id: Trie,
    pub vocab_size: usize,
}

impl Vocabulary {
    /// Well-formedness: the tokens are numbered by position, fit 32-bit ids and
    /// start with the 256 single bytes; the byte-string table is the token map,
    /// and the byte table sends each byte to a token spelled by that byte.
    /// (`vocab_size` is the size recorded with the vocabulary; it counts the
    /// tokens of a vocabulary built here, but need not for one loaded.)
    pub open spec fn wf(&self) -> bool {
        &&& self.tokens@.len() <= u32::MAX
        &&& numbered(self.tokens@)
        &&& byte_level_base(self.tokens@)
        &&& self.bytes_to_id.wf()
        &&& self.bytes_to_id@ == token_map(self.tokens@)
        &&& forall|b: u8|
            #[trigger] self.byte_to_id@.contains_key(b) && self.byte_to_id@[b] < self.tokens@.len()
                && self.tokens@[self.byte_to_id@[b] as int].bytes@ == seq![b]
    }

    /// The bytes of token `id`.
    pub open spec fn spec_bytes(&self, id: u32) -> Seq<u8> {
        self.tokens@[id as int].bytes@
    }

    /// Create a new vocabulary with byte-level base tokens (256 tokens)
    pub fn new_byte_level() -> (vocab: Self)
        ensures
            vocab.wf(),
            vocab.vocab_size == 256,
            vocab.tokens@.len() == 256,
            forall|i: int|
                0 <= i < 256 ==> (#[trigger] vocab.tokens@[i]).merge_pair is None,
    {
        let mut tokens: Vec<Token> = Vec::with_capacity(256);
        let mut byte_to_id: HashMap<u8, u32> = HashMap::new();
        let mut bytes_to_id = Trie::new();
        let mut b: u16 = 0;
        while b < 256
            invariant
                b <= 256,
                tokens@.len() == b,
                forall|i: int|
                    0 <= i < b ==> (#[trigger] tokens@[i]).id == i && tokens@[i].bytes@ == seq![i as u8]
                        && tokens@[i].merge_pair is None,
                bytes_to_id.wf(),
                bytes_to_id@ == token_map(tokens@),
                forall|c: u8| #[trigger]
                    byte_to_id@.contains_key(c) <==> c < b,
                forall|c: u8| c < b ==> #[trigger] byte_to_id@[c] == c as u32,
            decreases 256 - b,
        {
            let byte = b as u8;
            let id = b as u32;
            let bytes = vec![byte];
            bytes_to_id.insert(bytes.as_slice(), id);
            let ghost old_tokens = tokens@;
            let token = Token { id, bytes, merge_pair: None };
            proof {
                lemma_token_map_push(old_tokens, token);
            }
            tokens.push(token);
            byte_to_id.insert(byte, id);
            b = b + 1;
        }
        proof {
            lemma_token_map(tokens@);
            assert forall|c: u8| #[trigger]
                byte_to_id@.contains_key(c) && byte_to_id@[c] < tokens@.len()
                    && tokens@[byte_to_id@[c] as int].bytes@ == seq![c] by {
                assert(tokens@[c as int].bytes@ == seq![(c as int) as u8]);
            }
        }
        Vocabulary { tokens, byte_to_id, bytes_to_id, vocab_size: 256 }
    }

    /// Add a new token formed by merging left_id and right_id
    pub fn add_merge(&mut self, left_id: u32, right_id: u32) -> (new_id: u32)
        requires
            old(self).wf(),
            left_id < old(self).tokens@.len(),
            right_id < old(self).tokens@.len(),
            old(self).tokens@.len() < u32::MAX,
            old(self).vocab_size < usize::MAX,
        ensures
            final(self).wf(),
            new_id == old(self).tokens@.len(),
            final(self).vocab_size == old(self).vocab_size + 1,
            final(self).tokens@.len() == old(self).tokens@.len() + 1,
            forall|i: int|
                0 <= i < old(self).tokens@.len() ==> #[trigger] final(self).tokens@[i] == old(
                    self,
                ).tokens@[i],
            final(self).tokens@[new_id as int].id == new_id,
            final(self).tokens@[new_id as int].bytes@ == old(self).spec_bytes(left_id) + old(
                self,
            ).spec_bytes(right_id),
            final(self).tokens@[new_id as int].merge_pair == Some((left_id, right_id)),
            final(self).byte_to_id@ == old(self).byte_to_id@,
            nonempty_tokens(old(self).tokens@) ==> nonempty_tokens(final(self).tokens@),
    {
        let new_id = self.tokens.len() as u32;
        let mut new_bytes = self.tokens[left_id as usize].bytes.clone();
        new_bytes.extend_from_slice(self.tokens[right_id as usize].bytes.as_slice());
        let ghost left = self.tokens@[left_id as int].bytes@;
        let ghost right = self.tokens@[right_id as int].bytes@;
        proof {
            assert(new_bytes@ =~= left + right);
        }
        self.bytes_to_id.insert(new_bytes.as_slice(), new_id);
        let ghost old_tokens = self.tokens@;
        let token = Token { id: new_id, bytes: new_bytes, merge_pair: Some((left_id, right_id)) };
        proof {
            lemma_token_map_push(old_tokens, token);
        }
        self.tokens.push(token);
        self.vocab_size += 1;
        proof {
            assert forall|b: u8| #[trigger]
                self.byte_to_id@.contains_key(b) && self.byte_to_id@[b] < self.tokens@.len()
                    && self.tokens@[self.byte_to_id@[b] as int].bytes@ == seq![b] by {
                assert(old(self).byte_to_id@.contains_key(b));
                assert(self.tokens@[self.byte_to_id@[b] as int] == old_tokens[self.byte_to_id@[b] as int]);
            }
            assert(numbered(self.tokens@));
            if nonempty_tokens(old_tokens) {
                assert(old_tokens[left_id as int].bytes@.len() >= 1);
                assert forall|i: int| 0 <= i < self.tokens@.len() implies (
                #[trigger] self.tokens@[i]).bytes@.len() >= 1 by {
                    if i < old_tokens.len() {
                        assert(self.tokens@[i] == old_tokens[i]);
                    }
                }
            }
        }
        new_id
    }

    /// Look up token ID by byte sequence
    pub fn lookup(&self, bytes: &[u8]) -> (id: Option<u32>)
        requires
            self.wf(),
        ensures
            id == (if token_map(self.tokens@).contains_key(bytes@) {
                Some(token_map(self.tokens@)[bytes@])
            } else {
                None::<u32>
            }),
    {
        self.bytes_to_id.get(bytes)
    }

    /// Get bytes for a token ID
    pub fn get_bytes(&self, id: u32) -> (bytes: &[u8])
        requires
            id < self.tokens@.len(),
        ensures
            bytes@ == self.spec_bytes(id),
    {
        self.tokens[id as usize].bytes.as_slice()
    }

    /// Get the maximum token length in bytes
    pub fn max_token_len(&self) -> (len: usize)
        ensures
            len == (if self.tokens@.len() == 0 {
                1
            } else {
                longest(self.tokens@)
            }),
    {
        let mut best: usize = 0;
        let mut i: usize = 0;
        while i < self.tokens.len()
            invariant
                i <= self.tokens@.len(),
                best == longest(self.tokens@.take(i as int)),
            decreases self.tokens@.len() - i,
        {
            let l = self.tokens[i].bytes.len();
            assert(self.tokens@.take(i + 1).drop_last() =~= self.tokens@.take(i as int));
            if l > best {
                best = l;
            }
            i = i + 1;
        }
        assert(self.tokens@.take(i as int) =~= self.tokens@);
        if self.tokens.len() == 0 {
            1
        } else {
            best
        }
    }

    /// Build a vocabulary from stored tokens and the size recorded with them
    /// (the form in which a vocabulary is saved). The tokens must be numbered by
    /// position, fit 32-bit ids and start with the 256 single
    /// bytes; otherwise there is no vocabulary.
    pub fn from_tokens(tokens: Vec<Token>, vocab_size: usize) -> (vocab: Option<Self>)
        ensures
            vocab is Some <==> (tokens@.len() <= u32::MAX && numbered(tokens@) && byte_level_base(tokens@)),
            vocab matches Some(v) ==> v.wf() && v.tokens@ == tokens@ && v.vocab_size == vocab_size,
    {
        let n = tokens.len();
        if n > 0xffff_ffffusize || n < 256 {
            return None;
        }
        let mut byte_to_id: HashMap<u8, u32> = HashMap::new();
        let mut bytes_to_id = Trie::new();
        let mut i: usize = 0;
        while i < n
            invariant
                n == tokens@.len(),
                n <= u32::MAX,
                i <= n,
                numbered(tokens@.take(i as int)),
                bytes_to_id.wf(),
                bytes_to_id@ == token_map(tokens@.take(i as int)),
                forall|c: u8| #[trigger]
                    byte_to_id@.contains_key(c) <==> token_map(tokens@.take(i as int)).contains_key(
                        seq![c],
                    ),
                forall|c: u8|
                    #[trigger] byte_to_id@.contains_key(c) ==> byte_to_id@[c] == token_map(
                        tokens@.take(i as int),
                    )[seq![c]],
            decreases n - i,
        {
            let token = &tokens[i];
            if token.id as usize != i {
                proof {
                    assert(tokens@[i as int] == *token);
                }
                return None;
            }
            let ghost pre = tokens@.take(i as int);
            proof {
                assert(tokens@.take(i + 1) =~= pre.push(*token));
                lemma_token_map_push(pre, *token);
            }
            bytes_to_id.insert(token.bytes.as_slice(), token.id);
            if token.bytes.len() == 1 {
                byte_to_id.insert(token.bytes[0], token.id);
                proof {
                    assert(token.bytes@ =~= seq![token.bytes@[0]]);
                }
            }
            proof {
                let cur = tokens@.take(i + 1);
                assert forall|c: u8| #[trigger]
                    byte_to_id@.contains_key(c) <==> token_map(cur).contains_key(seq![c]) by {
                    if token.bytes@.len() != 1 {
                        assert(token.bytes@ != seq![c]);
                    } else if token.bytes@[0] != c {
                        assert(token.bytes@ != seq![c]) by {
                            assert(seq![c][0] == c);
                        }
                    }
                }
                assert forall|c: u8| #[trigger]
                    byte_to_id@.contains_key(c) implies byte_to_id@[c] == token_map(cur)[seq![c]] by {
                    if token.bytes@.len() != 1 {
                        assert(token.bytes@ != seq![c]);
                    } else if token.bytes@[0] != c {
                        assert(token.bytes@ != seq![c]) by {
                            assert(seq![c][0] == c);
                        }
                    }
                }
            }
            i = i + 1;
        }
        assert(tokens@.take(i as int) =~= tokens@);
        let mut b: usize = 0;
        while b < 256
            invariant
                n == tokens@.len(),
                256 <= n,
                b <= 256,
                forall|c: int| 0 <= c < b ==> (#[trigger] tokens@[c]).bytes@ == seq![c as u8],
                n <= u32::MAX,
                numbered(tokens@),
                bytes_to_id.wf(),
                bytes_to_id@ == token_map(tokens@),
                forall|c: u8| #[trigger]
                    byte_to_id@.contains_key(c) <==> token_map(tokens@).contains_key(seq![c]),
                forall|c: u8|
                    #[trigger] byte_to_id@.contains_key(c) ==> byte_to_id@[c] == token_map(tokens@)[seq![c]],
            decreases 256 - b,
        {
            let t = &tokens[b];
            if t.bytes.len() != 1 || t.bytes[0] != b as u8 {
                proof {
                    assert(tokens@[b as int] == *t);
                    let c = b as u8;
                    assert(c as int == b);
                    if t.bytes@ == seq![c] {
                        assert(t.bytes@[0] == c);
                    }
                }
                return None;
            }
            proof {
                assert(t.bytes@ =~= seq![b as u8]);
            }
            b = b + 1;
        }
        proof {
            lemma_token_map(tokens@);
            assert forall|c: u8| #[trigger] tokens@[c as int].bytes@ == seq![c] by {
                assert(tokens@[c as int].bytes@ == seq![(c as int) as u8]);
            }
            assert forall|c: u8| #[trigger]
                byte_to_id@.contains_key(c) && byte_to_id@[c] < tokens@.len()
                    && tokens@[byte_to_id@[c] as int].bytes@ == seq![c] by {
                assert(token_map(tokens@).contains_key(tokens@[c as int].bytes@));
            }
        }
        assert(byte_level_base(tokens@));
        assert(numbered(tokens@));
        let v = Vocabulary { tokens, byte_to_id, bytes_to_id, vocab_size };
        assert(v.bytes_to_id.wf());
        assert(v.bytes_to_id@ == token_map(v.tokens@));
        assert(v.wf());
        Some(v)
    }
}

} // verus!
