use std::collections::HashMap;
use vstd::prelude::*;
use vstd::std_specs::iter::IteratorSpec;

use crate::stats::{
    collect_into_map, lemma_pairs_map_lookup, bigram_occurrences, lemma_bigram_occurrences_bound, lemma_occurrences_bound, occurrences,
};
use crate::encoder::{decode_ids, lemma_decode_concat, lemma_decode_single, valid_ids};
use crate::trie::Trie;
use crate::vocab::{byte_level_base, lemma_token_map, nonempty_tokens, token_map, Token, Vocabulary};

verus! {

broadcast use vstd::std_specs::hash::group_hash_axioms;

/// Words as the trainer sees them: each word's token ids and how often it occurs.
pub type WordsView = Seq<(Seq<u32>, u64)>;

/// Sum over the words of (frequency × number of occurrences of the pair `p` in the word).
pub open spec fn pair_total(ws: WordsView, p: (u32, u32)) -> int
    decreases ws.len(),
{
    if ws.len() == 0 {
        0
    } else {
        pair_total(ws.drop_last(), p) + ws.last().1 * bigram_occurrences(ws.last().0, p)
    }
}

/// Sum over the words of (frequency × number of occurrences of token `t` in the word).
pub open spec fn token_total(ws: WordsView, t: u32) -> int
    decreases ws.len(),
{
    if ws.len() == 0 {
        0
    } else {
        token_total(ws.drop_last(), t) + ws.last().1 * occurrences(ws.last().0, t)
    }
}

/// Sum over the words of (frequency × length): the number of tokens the corpus is made of.
pub open spec fn weight(ws: WordsView) -> int
    decreases ws.len(),
{
    if ws.len() == 0 {
        0
    } else {
        weight(ws.drop_last()) + ws.last().1 * ws.last().0.len()
    }
}

/// Largest corpus (in bytes) whose counts the trainer keeps in 64-bit signed
/// arithmetic with room to spare.
pub open spec fn corpus_limit() -> int {
    0x07ff_ffff_ffff_ffff
}

/// The bytes that start a new word when pre-tokenizing: space, newline, tab, carriage return.
pub open spec fn starts_word(b: u8) -> bool {
    b == 0x20 || b == 0x0a || b == 0x09 || b == 0x0d
}

/// No byte after the first starts a word: whitespace, if any, only leads.
pub open spec fn leads_only(b: Seq<u8>) -> bool {
    forall|k: int| 1 <= k < b.len() ==> !starts_word(#[trigger] b[k])
}

/// The token ids of the word-starting bytes.
pub open spec fn id_starts_word(id: u32) -> bool {
    id == 0x20 || id == 0x0a || id == 0x09 || id == 0x0d
}

/// Pre-tokenization: the corpus cut before every word-starting byte, empty pieces dropped.
/// Each word thus carries its leading whitespace byte.
pub open spec fn segments(corpus: Seq<u8>) -> Seq<Seq<u8>>
    decreases corpus.len(),
{
    if corpus.len() == 0 {
        Seq::empty()
    } else {
        let prev = segments(corpus.drop_last());
        let b = corpus.last();
        if starts_word(b) || prev.len() == 0 {
            prev.push(seq![b])
        } else {
            prev.update(prev.len() - 1, prev.last().push(b))
        }
    }
}

/// The bytes of the pieces, one after another.
pub open spec fn joined(pieces: Seq<Seq<u8>>) -> Seq<u8>
    decreases pieces.len(),
{
    if pieces.len() == 0 {
        Seq::empty()
    } else {
        joined(pieces.drop_last()) + pieces.last()
    }
}

/// Pre-tokenization loses nothing and cuts only before word-starting bytes:
/// the words, joined, are the corpus; each is non-empty; and a word-starting
/// byte only ever begins a word.
pub proof fn lemma_segments_cover(corpus: Seq<u8>)
    ensures
        joined(segments(corpus)) == corpus,
        forall|w: int| 0 <= w < segments(corpus).len() ==> (#[trigger] segments(corpus)[w]).len() >= 1,
        forall|w: int, k: int|
            0 <= w < segments(corpus).len() && 1 <= k < segments(corpus)[w].len() ==> !starts_word(
                #[trigger] segments(corpus)[w][k],
            ),
    decreases corpus.len(),
{
    if corpus.len() > 0 {
        let rest = corpus.drop_last();
        lemma_segments_cover(rest);
        let prev = segments(rest);
        let b = corpus.last();
        let segs = segments(corpus);
        if starts_word(b) || prev.len() == 0 {
            assert(segs.drop_last() == prev);
            assert(corpus =~= rest + seq![b]);
            assert forall|w: int, k: int|
                0 <= w < segs.len() && 1 <= k < segs[w].len() implies !starts_word(#[trigger] segs[w][k]) by {
                if w < prev.len() {
                    assert(segs[w] == prev[w]);
                }
            }
        } else {
            let last = prev.last();
            assert(segs.drop_last() =~= prev.drop_last());
            assert(joined(prev) == joined(prev.drop_last()) + last);
            assert(corpus =~= (joined(prev.drop_last()) + last) + seq![b]);
            assert(joined(segs) =~= joined(prev.drop_last()) + last.push(b));
            assert forall|w: int, k: int|
                0 <= w < segs.len() && 1 <= k < segs[w].len() implies !starts_word(#[trigger] segs[w][k]) by {
                if w < prev.len() - 1 {
                    assert(segs[w] == prev[w]);
                } else if k < last.len() {
                    assert(segs[w][k] == prev[w][k]);
                }
            }
        }
    }
}

/// Pre-tokenization cuts the corpus into whitespace-led words: the words,
/// joined, are the corpus; none is empty; no word has a space, tab, newline or
/// carriage return after its first byte; and every word but the first begins
/// with one of those bytes.
pub proof fn lemma_words_split_at_whitespace(corpus: Seq<u8>)
    ensures
        joined(segments(corpus)) == corpus,
        forall|w: int| 0 <= w < segments(corpus).len() ==> (#[trigger] segments(corpus)[w]).len() >= 1,
        forall|w: int, k: int|
            0 <= w < segments(corpus).len() && 1 <= k < segments(corpus)[w].len() ==> {
                let b = #[trigger] segments(corpus)[w][k];
                b != 0x20u8 && b != 0x09u8 && b != 0x0au8 && b != 0x0du8
            },
        forall|w: int|
            1 <= w < segments(corpus).len() ==> {
                let b = (#[trigger] segments(corpus)[w])[0];
                b == 0x20u8 || b == 0x09u8 || b == 0x0au8 || b == 0x0du8
            },
    decreases corpus.len(),
{
    lemma_segments_cover(corpus);
    if corpus.len() > 0 {
        let rest = corpus.drop_last();
        lemma_words_split_at_whitespace(rest);
        let prev = segments(rest);
        let b = corpus.last();
        let segs = segments(corpus);
        assert forall|w: int, k: int| 0 <= w < segs.len() && 1 <= k < segs[w].len() implies {
            let c = #[trigger] segs[w][k];
            c != 0x20u8 && c != 0x09u8 && c != 0x0au8 && c != 0x0du8
        } by {
            assert(!starts_word(segs[w][k]));
        }
        if starts_word(b) || prev.len() == 0 {
            assert forall|w: int| 1 <= w < segs.len() implies {
                let c = (#[trigger] segs[w])[0];
                c == 0x20u8 || c == 0x09u8 || c == 0x0au8 || c == 0x0du8
            } by {
                if w < prev.len() {
                    assert(segs[w] == prev[w]);
                } else {
                    assert(segs[w] == seq![b]);
                }
            }
        } else {
            assert forall|w: int| 1 <= w < segs.len() implies {
                let c = (#[trigger] segs[w])[0];
                c == 0x20u8 || c == 0x09u8 || c == 0x0au8 || c == 0x0du8
            } by {
                if w < prev.len() - 1 {
                    assert(segs[w] == prev[w]);
                } else {
                    assert(segs[w] == prev.last().push(b));
                    assert(segs[w][0] == prev[w][0]);
                }
            }
        }
    }
}

/// A byte string as a sequence of byte-level token ids.
pub open spec fn byte_ids(bytes: Seq<u8>) -> Seq<u32> {
    bytes.map_values(|b: u8| b as u32)
}

/// How many of the segments are spelled by the ids `ids` (as byte-level tokens).
pub open spec fn segment_count(segs: Seq<Seq<u8>>, ids: Seq<u32>) -> nat
    decreases segs.len(),
{
    if segs.len() == 0 {
        0
    } else {
        segment_count(segs.drop_last(), ids) + if byte_ids(segs.last()) == ids {
            1nat
        } else {
            0nat
        }
    }
}

/// Total frequency of the words spelled `ids`.
pub open spec fn word_count(ws: WordsView, ids: Seq<u32>) -> int
    decreases ws.len(),
{
    if ws.len() == 0 {
        0
    } else {
        word_count(ws.drop_last(), ids) + if ws.last().0 == ids {
            ws.last().1 as int
        } else {
            0
        }
    }
}

/// The count maps hold exactly the positive totals of the words.
pub open spec fn token_counts_exact(ws: WordsView, m: Map<u32, u64>) -> bool {
    forall|t: u32|
        #![trigger m.contains_key(t)]
        #![trigger m[t]]
        (m.contains_key(t) <==> token_total(ws, t) > 0) && (m.contains_key(t) ==> m[t] == token_total(
            ws,
            t,
        ))
}

/// The key under which the trainer counts a pair of ids.
pub open spec fn pair_key(p: (u32, u32)) -> u64 {
    (p.0 as u64 * 0x1_0000_0000 + p.1 as u64) as u64
}

/// The pair that a key stands for.
pub open spec fn key_pair(k: u64) -> (u32, u32) {
    ((k / 0x1_0000_0000) as u32, (k % 0x1_0000_0000) as u32)
}

pub proof fn lemma_pair_key(p: (u32, u32), k: u64)
    ensures
        key_pair(pair_key(p)) == p,
        pair_key(key_pair(k)) == k,
{
    assert(p.0 as int * 0x1_0000_0000 + p.1 as int <= u64::MAX) by (nonlinear_arith)
        requires
            0 <= p.0 < 0x1_0000_0000,
            0 <= p.1 < 0x1_0000_0000,
    ;
    let v = p.0 as int * 0x1_0000_0000 + p.1 as int;
    assert(v / 0x1_0000_0000 == p.0 && v % 0x1_0000_0000 == p.1) by (nonlinear_arith)
        requires
            v == p.0 as int * 0x1_0000_0000 + p.1 as int,
            0 <= p.1 < 0x1_0000_0000,
            0 <= p.0,
    ;
    assert(k / 0x1_0000_0000 < 0x1_0000_0000) by (nonlinear_arith)
        requires
            0 <= k <= u64::MAX,
    ;
    assert((k / 0x1_0000_0000) * 0x1_0000_0000 + k % 0x1_0000_0000 == k) by (nonlinear_arith);
}

/// The pair count map (keyed by `pair_key`) holds exactly the positive totals of the words.
pub open spec fn pair_counts_exact(ws: WordsView, m: Map<u64, i64>) -> bool {
    forall|k: u64|
        #![trigger m.contains_key(k)]
        #![trigger m[k]]
        (m.contains_key(k) <==> pair_total(ws, key_pair(k)) > 0) && (m.contains_key(k) ==> m[k] as int
            == pair_total(ws, key_pair(k)))
}

/// The bigram count map (keyed by `pair_key`) holds exactly the positive totals of the words.
pub open spec fn bigram_counts_exact(ws: WordsView, m: Map<u64, u64>) -> bool {
    forall|k: u64|
        #![trigger m.contains_key(k)]
        #![trigger m[k]]
        (m.contains_key(k) <==> pair_total(ws, key_pair(k)) > 0) && (m.contains_key(k) ==> m[k] as int
            == pair_total(ws, key_pair(k)))
}

pub proof fn lemma_totals_nonneg(ws: WordsView, p: (u32, u32), t: u32)
    ensures
        pair_total(ws, p) >= 0,
        token_total(ws, t) >= 0,
        weight(ws) >= 0,
        pair_total(ws, p) <= weight(ws),
        token_total(ws, t) <= weight(ws),
    decreases ws.len(),
{
    if ws.len() > 0 {
        lemma_totals_nonneg(ws.drop_last(), p, t);
        let (s, c) = ws.last();
        lemma_bigram_occurrences_bound(s, p);
        lemma_occurrences_bound(s, t);
        let b = bigram_occurrences(s, p);
        let o = occurrences(s, t);
        assert(c * b <= c * s.len() && c * o <= c * s.len() && 0 <= c * b && 0 <= c * o) by (nonlinear_arith)
            requires
                0 <= b <= s.len(),
                0 <= o <= s.len(),
                0 <= c,
        ;
    }
}

/// A word with its frequency
#[derive(Debug, Clone)]
struct Word {
    tokens: Vec<u32>,
    count: u64,
}

spec fn words_of(words: Seq<Word>) -> WordsView {
    words.map_values(|w: Word| (w.tokens@, w.count))
}

pub struct Trainer {
    pub vocab: Vocabulary,
    words: Vec<Word>,
    pair_counts: HashMap<u64, i64>,
    token_counts: HashMap<u32, u64>,
    bigram_counts: HashMap<u64, u64>,
    /// Current merge phase: 0 = compression-focused, 1 = entropy-guided
    phase: u8,
}

impl Trainer {
    /// The words of the corpus, each with its token ids and frequency.
    pub closed spec fn words_view(&self) -> WordsView {
        words_of(self.words@)
    }

    /// The vocabulary being trained.
    pub closed spec fn spec_vocab(&self) -> Vocabulary {
        self.vocab
    }

    /// What holds between training steps: a well-formed vocabulary of non-empty
    /// tokens, words of valid token ids with positive frequencies, and
    /// per-token and per-pair counts that are exactly the totals over the words.
    pub closed spec fn wf(&self) -> bool {
        &&& self.core_wf()
        &&& bigram_counts_exact(self.words_view(), self.bigram_counts@)
        &&& spelled_within_words(self.vocab.tokens@, self.words_view())
    }

    /// `wf` without the bigram table, which merging leaves to a final recount.
    closed spec fn core_wf(&self) -> bool {
        &&& self.vocab.wf()
        &&& self.vocab.tokens@.len() == self.vocab.vocab_size
        &&& nonempty_tokens(self.vocab.tokens@)
        &&& words_ok(self.words_view(), self.vocab.tokens@.len())
        &&& token_counts_exact(self.words_view(), self.token_counts@)
        &&& pair_counts_exact(self.words_view(), self.pair_counts@)
    }
}

/// Whitespace leads every word and every merged token, if anywhere: tokens
/// past the 256 single bytes, and what each word spells, have no word-starting
/// byte after their first.
#[verifier::opaque]
pub open spec fn spelled_within_words(tokens: Seq<Token>, ws: WordsView) -> bool {
    &&& forall|i: int| 256 <= i < tokens.len() ==> leads_only(#[trigger] tokens[i].bytes@)
    &&& forall|w: int| 0 <= w < ws.len() ==> leads_only(#[trigger] decode_ids(tokens, ws[w].0))
}

/// Every word is non-empty, of ids below `n`, with a positive frequency, and the
/// corpus is within the limit.
pub open spec fn words_ok(ws: WordsView, n: nat) -> bool {
    &&& forall|w: int| 0 <= w < ws.len() ==> (#[trigger] ws[w]).1 >= 1 && ws[w].0.len() >= 1
    &&& forall|w: int, k: int| 0 <= w < ws.len() && 0 <= k < ws[w].0.len() ==> #[trigger] ws[w].0[k] < n
    &&& weight(ws) <= corpus_limit()
}


/// A prefix of the words weighs no more than all of them.
proof fn lemma_weight_prefix(ws: WordsView, w: int)
    requires
        0 <= w <= ws.len(),
    ensures
        weight(ws.take(w)) <= weight(ws),
    decreases ws.len(),
{
    if w < ws.len() {
        assert(ws.drop_last().take(w) =~= ws.take(w));
        lemma_weight_prefix(ws.drop_last(), w);
        let (s, c) = ws.last();
        assert(0 <= c * s.len()) by (nonlinear_arith)
            requires
                0 <= c,
        ;
    } else {
        assert(ws.take(w) =~= ws);
    }
}

/// Counting one more token of the last word adds its frequency to that token's total.
proof fn lemma_token_step(base: WordsView, s: Seq<u32>, c: u64, i: int, t: u32)
    requires
        0 <= i < s.len(),
    ensures
        token_total(base.push((s.take(i + 1), c)), t) == token_total(base.push((s.take(i), c)), t) + (
        if s[i] == t {
            c as int
        } else {
            0
        }),
{
    assert(base.push((s.take(i + 1), c)).drop_last() =~= base);
    assert(base.push((s.take(i), c)).drop_last() =~= base);
    assert(s.take(i + 1).drop_last() =~= s.take(i));
    let o = occurrences(s.take(i), t);
    assert(c * (o + 1) == c * o + c) by (nonlinear_arith);
}

/// Counting one more token of the last word adds its frequency to the total of
/// the pair it ends.
proof fn lemma_pair_step(base: WordsView, s: Seq<u32>, c: u64, i: int, p: (u32, u32))
    requires
        0 <= i < s.len(),
    ensures
        pair_total(base.push((s.take(i + 1), c)), p) == pair_total(base.push((s.take(i), c)), p) + (
        if i >= 1 && s[i - 1] == p.0 && s[i] == p.1 {
            c as int
        } else {
            0
        }),
{
    assert(base.push((s.take(i + 1), c)).drop_last() =~= base);
    assert(base.push((s.take(i), c)).drop_last() =~= base);
    assert(s.take(i + 1).drop_last() =~= s.take(i));
    let o = bigram_occurrences(s.take(i), p);
    assert(c * (o + 1) == c * o + c) by (nonlinear_arith);
}

/// Weight of the words so far, with the current word counted up to `i` tokens.
proof fn lemma_partial_weight(ws: WordsView, w: int, i: int)
    requires
        0 <= w < ws.len(),
        0 <= i <= ws[w].0.len(),
    ensures
        weight(ws.take(w).push((ws[w].0.take(i), ws[w].1))) <= weight(ws),
        ws[w].1 as int <= weight(ws) || ws[w].0.len() == 0,
{
    let (s, c) = ws[w];
    assert(ws.take(w).push((ws[w].0.take(i), ws[w].1)).drop_last() =~= ws.take(w));
    assert(ws.take(w + 1).drop_last() =~= ws.take(w));
    assert(ws.take(w + 1).last() == ws[w]);
    assert(c * i <= c * s.len()) by (nonlinear_arith)
        requires
            0 <= i <= s.len(),
            0 <= c,
    ;
    assert(s.len() >= 1 ==> c <= c * s.len()) by (nonlinear_arith)
        requires
            0 <= c,
    ;
    lemma_weight_prefix(ws, w + 1);
    lemma_totals_nonneg(ws.take(w), (0, 0), 0);
}

impl Trainer {
    /// Recount the per-token and per-pair totals from the words.
    fn recount_all(&mut self)
        requires
            old(self).vocab.wf(),
            old(self).vocab.tokens@.len() == old(self).vocab.vocab_size,
            nonempty_tokens(old(self).vocab.tokens@),
            words_ok(old(self).words_view(), old(self).vocab.tokens@.len()),
            spelled_within_words(old(self).vocab.tokens@, old(self).words_view()),
        ensures
            final(self).wf(),
            final(self).words == old(self).words,
            final(self).vocab == old(self).vocab,
            final(self).phase == old(self).phase,
    {
        self.pair_counts.clear();
        self.token_counts.clear();
        self.bigram_counts.clear();
        let ghost ws = self.words_view();
        let ghost words0 = self.words;
        let ghost vocab0 = self.vocab;
        let ghost phase0 = self.phase;
        let mut w: usize = 0;
        proof {
            assert(ws.take(0) =~= Seq::<(Seq<u32>, u64)>::empty());
        }
        while w < self.words.len()
            invariant
                ws == self.words_view(),
                self.words == words0,
                self.vocab == vocab0,
                self.phase == phase0,
                words0 == old(self).words,
                vocab0 == old(self).vocab,
                phase0 == old(self).phase,
                self.vocab.wf(),
                words_ok(ws, self.vocab.tokens@.len()),
                w <= ws.len(),
                token_counts_exact(ws.take(w as int), self.token_counts@),
                pair_counts_exact(ws.take(w as int), self.pair_counts@),
                bigram_counts_exact(ws.take(w as int), self.bigram_counts@),
            decreases ws.len() - w,
        {
            let count = self.words[w].count;
            let freq = count as i64;
            let len = self.words[w].tokens.len();
            let ghost s = ws[w as int].0;
            let ghost base = ws.take(w as int);
            proof {
                assert(ws[w as int] == (self.words@[w as int].tokens@, count));
                lemma_partial_weight(ws, w as int, 0);
                assert(base.push((s.take(0), count)).drop_last() =~= base);
                assert(s.take(0) =~= Seq::<u32>::empty());
                assert forall|t: u32| token_total(base.push((s.take(0), count)), t) == token_total(base, t) by {
                    assert(count * occurrences(s.take(0), t) == 0) by (nonlinear_arith)
                        requires occurrences(s.take(0), t) == 0;
                }
                assert forall|p: (u32, u32)| pair_total(base.push((s.take(0), count)), p) == pair_total(base, p) by {
                    assert(count * bigram_occurrences(s.take(0), p) == 0) by (nonlinear_arith)
                        requires bigram_occurrences(s.take(0), p) == 0;
                }
            }
            let mut i: usize = 0;
            while i < len
                invariant
                    ws == self.words_view(),
                    self.words == words0,
                    self.vocab == vocab0,
                    self.phase == phase0,
                    words0 == old(self).words,
                    vocab0 == old(self).vocab,
                    phase0 == old(self).phase,
                    self.vocab.wf(),
                    words_ok(ws, self.vocab.tokens@.len()),
                    w < ws.len(),
                    s == ws[w as int].0,
                    base == ws.take(w as int),
                    count == ws[w as int].1,
                    freq == count,
                    len == s.len(),
                    i <= len,
                    token_counts_exact(base.push((s.take(i as int), count)), self.token_counts@),
                    pair_counts_exact(base.push((s.take(i as int), count)), self.pair_counts@),
                    bigram_counts_exact(base.push((s.take(i as int), count)), self.bigram_counts@),
                decreases len - i,
            {
                let tid = self.words[w].tokens[i];
                let ghost cur = base.push((s.take(i as int), count));
                let ghost next = base.push((s.take(i + 1), count));
                proof {
                    assert(tid == s[i as int]);
                    lemma_partial_weight(ws, w as int, i + 1);
                    lemma_totals_nonneg(next, (0, 0), tid);
                    assert forall|t: u32| token_total(next, t) == token_total(cur, t) + (if s[i as int] == t { count as int } else { 0 }) by {
                        lemma_token_step(base, s, count, i as int, t);
                    }
                    assert forall|p: (u32, u32)| pair_total(next, p) == pair_total(cur, p) + (
                        if i >= 1 && s[i - 1] == p.0 && s[i as int] == p.1 { count as int } else { 0 }) by {
                        lemma_pair_step(base, s, count, i as int, p);
                    }
                }
                let old_t = match self.token_counts.get(&tid) {
                    Some(v) => *v,
                    None => 0u64,
                };
                proof {
                    lemma_totals_nonneg(cur, (0, 0), tid);
                }
                self.token_counts.insert(tid, old_t + count);
                if i >= 1 {
                    let prev = self.words[w].tokens[i - 1];
                    let key = (prev as u64) * 0x1_0000_0000u64 + (tid as u64);
                    let ghost pair = (prev, tid);
                    proof {
                        assert(key == pair_key(pair));
                        lemma_pair_key(pair, key);
                        lemma_totals_nonneg(next, pair, 0);
                        lemma_totals_nonneg(cur, pair, 0);
                        assert(prev == s[i - 1]);
                    }
                    let old_p = match self.pair_counts.get(&key) {
                        Some(v) => *v,
                        None => 0i64,
                    };
                    self.pair_counts.insert(key, old_p + freq);
                    let old_b = match self.bigram_counts.get(&key) {
                        Some(v) => *v,
                        None => 0u64,
                    };
                    self.bigram_counts.insert(key, old_b + count);
                    proof {
                        assert forall|k: u64| k != key implies key_pair(k) != pair by {
                            lemma_pair_key(pair, k);
                        }
                    }
                } else {
                    proof {
                        assert forall|p: (u32, u32)| pair_total(next, p) == pair_total(cur, p) by {}
                    }
                }
                i = i + 1;
            }
            proof {
                assert(s.take(len as int) =~= s);
                assert(ws.take(w + 1) =~= base.push((s, count)));
            }
            w = w + 1;
        }
        proof {
            assert(ws.take(w as int) =~= ws);
        }
    }
}


/// The index of distinct words: each byte string it holds names a word spelled
/// by those bytes.
spec fn index_ok(index: Trie, words: Seq<Word>) -> bool {
    &&& index.wf()
    &&& forall|k: Seq<u8>|
        #[trigger] index@.contains_key(k) ==> index@[k] < words.len() && words[index@[k] as int].tokens@
            == byte_ids(k)
}

/// Byte-level words: non-empty, of ids below 256, with positive frequencies.
spec fn byte_words(ws: WordsView) -> bool {
    &&& forall|w: int| 0 <= w < ws.len() ==> (#[trigger] ws[w]).1 >= 1 && ws[w].0.len() >= 1
    &&& forall|w: int, k: int| 0 <= w < ws.len() && 0 <= k < ws[w].0.len() ==> #[trigger] ws[w].0[k] < 256
    &&& forall|w: int, k: int|
        0 <= w < ws.len() && 1 <= k < ws[w].0.len() ==> !id_starts_word(#[trigger] ws[w].0[k])
}

/// One more occurrence of word `pos` adds to its count and weight.
proof fn lemma_bump(ws: WordsView, pos: int, ids: Seq<u32>)
    requires
        0 <= pos < ws.len(),
        ws[pos].1 < u64::MAX,
    ensures
        word_count(ws.update(pos, (ws[pos].0, (ws[pos].1 + 1) as u64)), ids) == word_count(ws, ids) + if ws[pos].0
            == ids {
            1int
        } else {
            0int
        },
        weight(ws.update(pos, (ws[pos].0, (ws[pos].1 + 1) as u64))) == weight(ws) + ws[pos].0.len(),
    decreases ws.len(),
{
    let ws2 = ws.update(pos, (ws[pos].0, (ws[pos].1 + 1) as u64));
    if pos < ws.len() - 1 {
        assert(ws2.drop_last() =~= ws.drop_last().update(pos, (ws[pos].0, (ws[pos].1 + 1) as u64)));
        lemma_bump(ws.drop_last(), pos, ids);
    } else {
        assert(ws2.drop_last() =~= ws.drop_last());
        let c = ws[pos].1;
        let l = ws[pos].0.len();
        assert((c + 1) * l == c * l + l) by (nonlinear_arith);
    }
}

/// Byte strings as token ids, one id per byte.
fn to_ids(bytes: &[u8]) -> (ids: Vec<u32>)
    ensures
        ids@ == byte_ids(bytes@),
{
    let mut ids: Vec<u32> = Vec::with_capacity(bytes.len());
    let mut i: usize = 0;
    while i < bytes.len()
        invariant
            i <= bytes@.len(),
            ids@ == byte_ids(bytes@.take(i as int)),
        decreases bytes@.len() - i,
    {
        ids.push(bytes[i] as u32);
        assert(byte_ids(bytes@.take(i + 1)) =~= byte_ids(bytes@.take(i as int)).push(bytes@[i as int] as u32));
        i = i + 1;
    }
    assert(bytes@.take(i as int) =~= bytes@);
    ids
}

/// Record one occurrence of the word spelled by `bytes`.
fn tally_word(words: &mut Vec<Word>, index: &mut Trie, bytes: &Vec<u8>)
    requires
        index_ok(*old(index), old(words)@),
        byte_words(words_of(old(words)@)),
        bytes@.len() >= 1,
        leads_only(bytes@),
        weight(words_of(old(words)@)) + bytes@.len() <= corpus_limit(),
    ensures
        index_ok(*final(index), final(words)@),
        byte_words(words_of(final(words)@)),
        weight(words_of(final(words)@)) == weight(words_of(old(words)@)) + bytes@.len(),
        forall|ids: Seq<u32>|
            #[trigger] word_count(words_of(final(words)@), ids) == word_count(words_of(old(words)@), ids) + if byte_ids(
                bytes@,
            ) == ids {
                1int
            } else {
                0int
            },
{
    let ghost ws = words_of(words@);
    match index.get(bytes.as_slice()) {
        Some(pos) => {
            let p = pos as usize;
            proof {
                assert(ws[p as int] == (words@[p as int].tokens@, words@[p as int].count));
                lemma_totals_nonneg(ws, (0, 0), 0);
                let c = ws[p as int].1;
                let l = ws[p as int].0.len();
                lemma_weight_prefix(ws, p + 1);
                assert(ws.take(p + 1).drop_last() =~= ws.take(p as int));
                assert(ws.take(p + 1).last() == ws[p as int]);
                lemma_totals_nonneg(ws.take(p as int), (0, 0), 0);
                assert(c <= c * l) by (nonlinear_arith)
                    requires l >= 1, c >= 0;
            }
            let c = words[p].count;
            words[p].count = c + 1;
            proof {
                assert(words_of(words@) =~= ws.update(p as int, (ws[p as int].0, (ws[p as int].1 + 1) as u64)));
                assert forall|ids: Seq<u32>| #[trigger] word_count(words_of(words@), ids) == word_count(ws, ids) + if byte_ids(bytes@) == ids {
                    1int
                } else {
                    0int
                } by {
                    lemma_bump(ws, p as int, ids);
                }
                lemma_bump(ws, p as int, Seq::empty());
                assert forall|w: int, k: int| 0 <= w < words_of(words@).len() && 0 <= k < words_of(words@)[w].0.len()
                    implies #[trigger] words_of(words@)[w].0[k] < 256 by {
                    assert(words_of(words@)[w].0 == ws[w].0);
                }
                assert forall|w: int, k: int| 0 <= w < words_of(words@).len() && 1 <= k < words_of(words@)[w].0.len()
                    implies !id_starts_word(#[trigger] words_of(words@)[w].0[k]) by {
                    assert(words_of(words@)[w].0 == ws[w].0);
                }
                assert forall|k: Seq<u8>| #[trigger] index@.contains_key(k) implies index@[k] < words@.len()
                    && words@[index@[k] as int].tokens@ == byte_ids(k) by {
                    assert(words@[index@[k] as int].tokens@ == old(words)@[index@[k] as int].tokens@);
                }
            }
        },
        None => {
            let tokens = to_ids(bytes.as_slice());
            let n = words.len();
            if n < 0xffff_ffffusize {
                index.insert(bytes.as_slice(), n as u32);
            }
            words.push(Word { tokens, count: 1 });
            proof {
                let ws2 = words_of(words@);
                assert(ws2.drop_last() =~= ws);
                assert(ws2.last() == (byte_ids(bytes@), 1u64));
                assert forall|k: Seq<u8>| #[trigger] index@.contains_key(k) implies index@[k] < words@.len()
                    && words@[index@[k] as int].tokens@ == byte_ids(k) by {
                    if k != bytes@ {
                        assert(old(index)@.contains_key(k));
                    }
                }
                assert forall|w: int| 0 <= w < ws2.len() implies (#[trigger] ws2[w]).1 >= 1 && ws2[w].0.len() >= 1 by {
                    if w < ws.len() {
                        assert(ws2[w] == ws[w]);
                    }
                }
                assert forall|w: int, k: int| 0 <= w < ws2.len() && 0 <= k < ws2[w].0.len()
                    implies #[trigger] ws2[w].0[k] < 256 by {
                    if w < ws.len() {
                        assert(ws2[w] == ws[w]);
                    }
                }
                assert forall|w: int, k: int| 0 <= w < ws2.len() && 1 <= k < ws2[w].0.len()
                    implies !id_starts_word(#[trigger] ws2[w].0[k]) by {
                    if w < ws.len() {
                        assert(ws2[w] == ws[w]);
                    } else {
                        assert(ws2[w].0[k] == bytes@[k] as u32);
                        assert(!starts_word(bytes@[k]));
                    }
                }
                assert(1 * bytes@.len() == bytes@.len());
            }
        },
    }
}

/// Byte-level ids decode to the bytes they number.
proof fn lemma_decode_byte_ids(tokens: Seq<Token>, ids: Seq<u32>)
    requires
        byte_level_base(tokens),
        forall|k: int| 0 <= k < ids.len() ==> #[trigger] ids[k] < 256,
    ensures
        decode_ids(tokens, ids).len() == ids.len(),
        forall|k: int| 0 <= k < ids.len() ==> #[trigger] decode_ids(tokens, ids)[k] as u32 == ids[k],
    decreases ids.len(),
{
    if ids.len() > 0 {
        let rest = ids.drop_last();
        assert forall|k: int| 0 <= k < rest.len() implies #[trigger] rest[k] < 256 by {
            assert(rest[k] == ids[k]);
        }
        lemma_decode_byte_ids(tokens, rest);
        let t = ids.last();
        let b = t as u8;
        assert(b as int == t as int);
        assert(tokens[b as int].bytes@ == seq![b]);
        let d = decode_ids(tokens, ids);
        assert(d == decode_ids(tokens, rest) + seq![b]);
        assert forall|k: int| 0 <= k < ids.len() implies #[trigger] d[k] as u32 == ids[k] by {
            if k < rest.len() {
                assert(d[k] == decode_ids(tokens, rest)[k]);
                assert(rest[k] == ids[k]);
            }
        }
    }
}

impl Trainer {
    pub fn new(corpus: &[u8]) -> (trainer: Self)
        requires
            corpus@.len() <= corpus_limit(),
        ensures
            trainer.wf(),
            trainer.spec_vocab().wf(),
            trainer.spec_vocab().vocab_size == 256,
            forall|i: int| 0 <= i < 256 ==> (#[trigger] trainer.spec_vocab().tokens@[i]).merge_pair is None,
            forall|ids: Seq<u32>|
                #[trigger] word_count(trainer.words_view(), ids) == segment_count(segments(corpus@), ids),
            weight(trainer.words_view()) == corpus@.len(),
            forall|w: int, k: int|
                0 <= w < trainer.words_view().len() && 1 <= k < trainer.words_view()[w].0.len() ==> {
                    let id = #[trigger] trainer.words_view()[w].0[k];
                    id != 0x20u32 && id != 0x09u32 && id != 0x0au32 && id != 0x0du32
                },
    {
        let vocab = Vocabulary::new_byte_level();

        // Pre-tokenize: split corpus into "words" at whitespace boundaries.
        // Each word includes leading whitespace (like GPT-2 BPE).
        // This focuses merges on within-word patterns for better compression.
        let mut words: Vec<Word> = Vec::new();
        let mut index = Trie::new();
        let mut current_word: Vec<u8> = Vec::new();
        let n = corpus.len();
        let mut i: usize = 0;
        proof {
            assert(corpus@.take(0) =~= Seq::<u8>::empty());
            assert(index@ =~= Map::<Seq<u8>, u32>::empty());
        }
        while i < n
            invariant
                n == corpus@.len(),
                n <= corpus_limit(),
                i <= n,
                index_ok(index, words@),
                byte_words(words_of(words@)),
                weight(words_of(words@)) + current_word@.len() == i,
                leads_only(current_word@),
                (current_word@.len() == 0 && segments(corpus@.take(i as int)).len() == 0) || (current_word@.len() > 0
                    && segments(corpus@.take(i as int)).len() > 0
                    && segments(corpus@.take(i as int)).last() == current_word@),
                forall|ids: Seq<u32>|
                    #[trigger] word_count(words_of(words@), ids) == segment_count(
                        if current_word@.len() == 0 {
                            segments(corpus@.take(i as int))
                        } else {
                            segments(corpus@.take(i as int)).drop_last()
                        },
                        ids,
                    ),
            decreases n - i,
        {
            let b = corpus[i];
            let ghost segs = segments(corpus@.take(i as int));
            proof {
                assert(corpus@.take(i + 1).drop_last() =~= corpus@.take(i as int));
            }
            if b == 0x20u8 || b == 0x0au8 || b == 0x09u8 || b == 0x0du8 {
                if current_word.len() > 0 {
                    tally_word(&mut words, &mut index, &current_word);
                    proof {
                        assert(segs.drop_last().push(current_word@) =~= segs);
                    }
                }
                current_word = Vec::new();
                current_word.push(b);
                proof {
                    let segs2 = segments(corpus@.take(i + 1));
                    assert(segs2 == segs.push(seq![b]));
                    assert(segs2.drop_last() =~= segs);
                    assert(current_word@ =~= seq![b]);
                }
            } else {
                current_word.push(b);
                proof {
                    let segs2 = segments(corpus@.take(i + 1));
                    if segs.len() == 0 {
                        assert(segs2 == segs.push(seq![b]));
                        assert(segs2.drop_last() =~= segs);
                        assert(current_word@ =~= seq![b]);
                    } else {
                        assert(segs2 == segs.update(segs.len() - 1, segs.last().push(b)));
                        assert(segs2.drop_last() =~= segs.drop_last());
                    }
                }
            }
            i = i + 1;
        }
        proof {
            assert(corpus@.take(i as int) =~= corpus@);
        }
        if current_word.len() > 0 {
            tally_word(&mut words, &mut index, &current_word);
            proof {
                let segs = segments(corpus@);
                assert(segs.drop_last().push(current_word@) =~= segs);
            }
        }
        proof {
            reveal(spelled_within_words);
            let ws = words_of(words@);
            assert forall|w: int, k: int| 0 <= w < ws.len() && 1 <= k < ws[w].0.len() implies {
                let id = #[trigger] ws[w].0[k];
                id != 0x20u32 && id != 0x09u32 && id != 0x0au32 && id != 0x0du32
            } by {
                assert(!id_starts_word(ws[w].0[k]));
            }
            assert forall|w: int| 0 <= w < ws.len() implies leads_only(
                #[trigger] decode_ids(vocab.tokens@, ws[w].0),
            ) by {
                let ids = ws[w].0;
                assert forall|k: int| 0 <= k < ids.len() implies #[trigger] ids[k] < 256 by {}
                lemma_decode_byte_ids(vocab.tokens@, ids);
                let d = decode_ids(vocab.tokens@, ids);
                assert forall|k: int| 1 <= k < d.len() implies !starts_word(#[trigger] d[k]) by {
                    assert(d[k] as u32 == ids[k]);
                    assert(!id_starts_word(ids[k]));
                }
            }
        }
        let mut trainer = Trainer {
            vocab,
            words,
            pair_counts: HashMap::new(),
            token_counts: HashMap::new(),
            bigram_counts: HashMap::new(),
            phase: 0,
        };
        proof {
            let ws = trainer.words_view();
            assert forall|w: int, k: int| 0 <= w < ws.len() && 0 <= k < ws[w].0.len() implies #[trigger] ws[w].0[k]
                < trainer.vocab.tokens@.len() by {}
        }
        trainer.recount_all();
        trainer
    }
}


/// Replace, left to right, each non-overlapping occurrence of `l` directly
/// followed by `r` with the single id `x`.
pub open spec fn merge_word(s: Seq<u32>, l: u32, r: u32, x: u32) -> Seq<u32>
    decreases s.len(),
{
    if s.len() == 0 {
        Seq::empty()
    } else if s.len() >= 2 && s[0] == l && s[1] == r {
        seq![x] + merge_word(s.skip(2), l, r, x)
    } else {
        seq![s[0]] + merge_word(s.skip(1), l, r, x)
    }
}

/// Every word with the merge applied; frequencies unchanged.
pub open spec fn merge_words(ws: WordsView, l: u32, r: u32, x: u32) -> WordsView {
    ws.map_values(|e: (Seq<u32>, u64)| (merge_word(e.0, l, r, x), e.1))
}

/// The value a delta map holds for a key, 0 where it holds none.
spec fn delta_of<K>(m: Map<K, i64>, k: K) -> int {
    if m.contains_key(k) {
        m[k] as int
    } else {
        0
    }
}

/// Change in the number of occurrences of pair `p` when, in `prev? l r next?`,
/// `l r` becomes `x`.
spec fn pair_change(p: (u32, u32), prev: Option<u32>, next: Option<u32>, l: u32, r: u32, x: u32) -> int {
    (if prev is Some && (prev.unwrap(), x) == p { 1int } else { 0 })
    - (if prev is Some && (prev.unwrap(), l) == p { 1int } else { 0 })
    + (if next is Some && (x, next.unwrap()) == p { 1int } else { 0 })
    - (if next is Some && (r, next.unwrap()) == p { 1int } else { 0 })
    - (if (l, r) == p { 1int } else { 0 })
}

/// Change in the number of occurrences of token `t` when `l r` becomes `x`.
spec fn token_change(t: u32, l: u32, r: u32, x: u32) -> int {
    (if t == x { 1int } else { 0 }) - (if t == l { 1int } else { 0 }) - (if t == r { 1int } else { 0 })
}

/// Pairs in a concatenation: those of each part and the one across the seam.
proof fn lemma_bigram_concat(a: Seq<u32>, b: Seq<u32>, p: (u32, u32))
    ensures
        bigram_occurrences(a + b, p) == bigram_occurrences(a, p) + bigram_occurrences(b, p) + if a.len() > 0
            && b.len() > 0 && a.last() == p.0 && b[0] == p.1 {
            1int
        } else {
            0int
        },
    decreases b.len(),
{
    if b.len() == 0 {
        assert(a + b =~= a);
    } else if b.len() == 1 {
        assert((a + b).drop_last() =~= a);
        assert(b.drop_last().len() == 0);
    } else {
        lemma_bigram_concat(a, b.drop_last(), p);
        assert((a + b).drop_last() =~= a + b.drop_last());
    }
}

/// Occurrences in a concatenation add up.
proof fn lemma_occurrences_concat(a: Seq<u32>, b: Seq<u32>, t: u32)
    ensures
        occurrences(a + b, t) == occurrences(a, t) + occurrences(b, t),
    decreases b.len(),
{
    if b.len() == 0 {
        assert(a + b =~= a);
    } else {
        lemma_occurrences_concat(a, b.drop_last(), t);
        assert((a + b).drop_last() =~= a + b.drop_last());
    }
}

/// Replacing one word changes each total by that word's frequency times the
/// change in its own counts.
proof fn lemma_totals_update(ws: WordsView, w: int, e: (Seq<u32>, u64), p: (u32, u32), t: u32)
    requires
        0 <= w < ws.len(),
    ensures
        pair_total(ws.update(w, e), p) == pair_total(ws, p) - ws[w].1 * bigram_occurrences(ws[w].0, p)
            + e.1 * bigram_occurrences(e.0, p),
        token_total(ws.update(w, e), t) == token_total(ws, t) - ws[w].1 * occurrences(ws[w].0, t) + e.1
            * occurrences(e.0, t),
        weight(ws.update(w, e)) == weight(ws) - ws[w].1 * ws[w].0.len() + e.1 * e.0.len(),
    decreases ws.len(),
{
    if w < ws.len() - 1 {
        assert(ws.update(w, e).drop_last() =~= ws.drop_last().update(w, e));
        lemma_totals_update(ws.drop_last(), w, e, p, t);
    } else {
        assert(ws.update(w, e).drop_last() =~= ws.drop_last());
    }
}

/// One left-to-right step of the merge scan, where `l r` starts at `i`.
proof fn lemma_merge_step_counts(n: Seq<u32>, s: Seq<u32>, i: int, l: u32, r: u32, x: u32, p: (u32, u32), t: u32)
    requires
        0 <= i,
        i + 1 < s.len(),
        s[i] == l,
        s[i + 1] == r,
    ensures
        bigram_occurrences(n.push(x) + s.skip(i + 2), p) == bigram_occurrences(n + s.skip(i), p) + pair_change(
            p,
            if n.len() > 0 { Some(n.last()) } else { None },
            if i + 2 < s.len() { Some(s[i + 2]) } else { None },
            l,
            r,
            x,
        ),
        occurrences(n.push(x) + s.skip(i + 2), t) == occurrences(n + s.skip(i), t) + token_change(t, l, r, x),
{
    let rest = s.skip(i + 2);
    let lr = seq![l, r];
    assert(s.skip(i) =~= lr + rest);
    assert(n.push(x) + rest =~= n + (seq![x] + rest));
    lemma_bigram_concat(n, lr + rest, p);
    lemma_bigram_concat(lr, rest, p);
    lemma_bigram_concat(n, seq![x] + rest, p);
    lemma_bigram_concat(seq![x], rest, p);
    assert(lr.drop_last() =~= seq![l]);
    assert(seq![l].drop_last().len() == 0);
    assert(bigram_occurrences(seq![x], p) == 0);
    assert(lr[0] == l && lr[1] == r);
    assert(bigram_occurrences(seq![l], p) == 0);
    assert(bigram_occurrences(lr, p) == bigram_occurrences(seq![l], p) + if lr[0] == p.0 && lr[1] == p.1 { 1int } else { 0int });
    assert(bigram_occurrences(lr, p) == if (l, r) == p { 1int } else { 0int });
    assert((lr + rest)[0] == l);
    assert((seq![x] + rest)[0] == x);
    if rest.len() > 0 {
        assert(rest[0] == s[i + 2]);
    }
    lemma_occurrences_concat(n, lr + rest, t);
    lemma_occurrences_concat(lr, rest, t);
    lemma_occurrences_concat(n, seq![x] + rest, t);
    lemma_occurrences_concat(seq![x], rest, t);
    assert(seq![l].drop_last() =~= Seq::<u32>::empty());
    assert(seq![x].drop_last() =~= Seq::<u32>::empty());
    assert(occurrences(Seq::<u32>::empty(), t) == 0);
    assert(occurrences(seq![l], t) == if l == t { 1int } else { 0int });
    assert(occurrences(seq![x], t) == if x == t { 1int } else { 0int });
    assert(occurrences(lr, t) == occurrences(seq![l], t) + if r == t { 1int } else { 0int });
}

/// The merge never lengthens a word, keeps it non-empty, and uses only its ids and `x`.
proof fn lemma_merge_word_shape(s: Seq<u32>, l: u32, r: u32, x: u32, bound: nat)
    requires
        forall|k: int| 0 <= k < s.len() ==> #[trigger] s[k] < bound,
        x < bound,
    ensures
        merge_word(s, l, r, x).len() <= s.len(),
        s.len() > 0 ==> merge_word(s, l, r, x).len() > 0,
        forall|k: int| 0 <= k < merge_word(s, l, r, x).len() ==> #[trigger] merge_word(s, l, r, x)[k] < bound,
    decreases s.len(),
{
    if s.len() >= 2 && s[0] == l && s[1] == r {
        lemma_merge_word_shape(s.skip(2), l, r, x, bound);
        let m = merge_word(s, l, r, x);
        assert forall|k: int| 0 <= k < m.len() implies #[trigger] m[k] < bound by {
            if k > 0 {
                assert(m[k] == merge_word(s.skip(2), l, r, x)[k - 1]);
            }
        }
    } else if s.len() > 0 {
        lemma_merge_word_shape(s.skip(1), l, r, x, bound);
        let m = merge_word(s, l, r, x);
        assert forall|k: int| 0 <= k < m.len() implies #[trigger] m[k] < bound by {
            if k > 0 {
                assert(m[k] == merge_word(s.skip(1), l, r, x)[k - 1]);
            }
        }
    }
}


/// Add `d` to the delta held for `key` (0 where none is held yet).
fn add_delta<K: Eq + std::hash::Hash + Copy>(deltas: &mut HashMap<K, i64>, key: K, d: i64)
    requires
        vstd::std_specs::hash::obeys_key_model::<K>(),
        -0x4000_0000_0000_0000 <= delta_of(old(deltas)@, key) + d <= 0x4000_0000_0000_0000,
    ensures
        forall|k: K|
            #[trigger] delta_of(final(deltas)@, k) == delta_of(old(deltas)@, k) + if k == key {
                d as int
            } else {
                0
            },
{
    let cur = match deltas.get(&key) {
        Some(v) => *v,
        None => 0i64,
    };
    deltas.insert(key, cur + d);
}

/// The key of a pair of ids, computed.
fn key_of(a: u32, b: u32) -> (k: u64)
    ensures
        k == pair_key((a, b)),
        key_pair(k) == (a, b),
{
    proof {
        lemma_pair_key((a, b), 0);
    }
    (a as u64) * 0x1_0000_0000u64 + (b as u64)
}

/// Record in the pair deltas what turning `prev? l r next?` into `prev? x next?`
/// does, for a word of frequency `f`.
fn record_pair_changes(
    deltas: &mut HashMap<u64, i64>,
    prev: Option<u32>,
    next: Option<u32>,
    l: u32,
    r: u32,
    x: u32,
    f: i64,
)
    requires
        0 < f <= corpus_limit(),
        forall|k: u64| -corpus_limit() <= #[trigger] delta_of(old(deltas)@, k) <= corpus_limit(),
    ensures
        forall|k: u64|
            #[trigger] delta_of(final(deltas)@, k) == delta_of(old(deltas)@, k) + f * pair_change(
                key_pair(k),
                prev,
                next,
                l,
                r,
                x,
            ),
{
    let ghost d0 = deltas@;
    let ghost mut a1: Map<u64, int> = Map::new(|k: u64| true, |k: u64| 0int);
    match prev {
        Some(pv) => {
            add_delta(deltas, key_of(pv, l), -f);
            add_delta(deltas, key_of(pv, x), f);
        },
        None => {},
    }
    let ghost d1 = deltas@;
    proof {
        assert forall|k: u64| #[trigger] delta_of(d1, k) == delta_of(d0, k)
            - (if prev is Some && key_pair(k) == (prev.unwrap(), l) { f as int } else { 0 })
            + (if prev is Some && key_pair(k) == (prev.unwrap(), x) { f as int } else { 0 }) by {
            if prev is Some {
                lemma_pair_key((prev.unwrap(), l), k);
                lemma_pair_key((prev.unwrap(), x), k);
            }
        }
    }
    match next {
        Some(nx) => {
            add_delta(deltas, key_of(r, nx), -f);
            add_delta(deltas, key_of(x, nx), f);
        },
        None => {},
    }
    let ghost d2 = deltas@;
    proof {
        assert forall|k: u64| #[trigger] delta_of(d2, k) == delta_of(d1, k)
            - (if next is Some && key_pair(k) == (r, next.unwrap()) { f as int } else { 0 })
            + (if next is Some && key_pair(k) == (x, next.unwrap()) { f as int } else { 0 }) by {
            if next is Some {
                lemma_pair_key((r, next.unwrap()), k);
                lemma_pair_key((x, next.unwrap()), k);
            }
        }
    }
    add_delta(deltas, key_of(l, r), -f);
    proof {
        assert forall|k: u64| #[trigger] delta_of(deltas@, k) == delta_of(d0, k) + f * pair_change(
            key_pair(k),
            prev,
            next,
            l,
            r,
            x,
        ) by {
            lemma_pair_key((l, r), k);
            let p = key_pair(k);
            let a = if prev is Some && (prev.unwrap(), x) == p { 1int } else { 0 };
            let b = if prev is Some && (prev.unwrap(), l) == p { 1int } else { 0 };
            let c = if next is Some && (x, next.unwrap()) == p { 1int } else { 0 };
            let d = if next is Some && (r, next.unwrap()) == p { 1int } else { 0 };
            let e = if (l, r) == p { 1int } else { 0 };
            assert(f * (a - b + c - d - e) == f * a - f * b + f * c - f * d - f * e) by (nonlinear_arith);
            assert(f * a == if a == 1 { f as int } else { 0 }) by (nonlinear_arith)
                requires a == 0 || a == 1;
            assert(f * b == if b == 1 { f as int } else { 0 }) by (nonlinear_arith)
                requires b == 0 || b == 1;
            assert(f * c == if c == 1 { f as int } else { 0 }) by (nonlinear_arith)
                requires c == 0 || c == 1;
            assert(f * d == if d == 1 { f as int } else { 0 }) by (nonlinear_arith)
                requires d == 0 || d == 1;
            assert(f * e == if e == 1 { f as int } else { 0 }) by (nonlinear_arith)
                requires e == 0 || e == 1;
        }
    }
}

/// Record in the token deltas what turning `l r` into `x` does, for a word of
/// frequency `f`.
fn record_token_changes(deltas: &mut HashMap<u32, i64>, l: u32, r: u32, x: u32, f: i64)
    requires
        0 < f <= corpus_limit(),
        forall|t: u32| -corpus_limit() <= #[trigger] delta_of(old(deltas)@, t) <= corpus_limit(),
    ensures
        forall|t: u32|
            #[trigger] delta_of(final(deltas)@, t) == delta_of(old(deltas)@, t) + f * token_change(t, l, r, x),
{
    let ghost d0 = deltas@;
    add_delta(deltas, l, -f);
    add_delta(deltas, r, -f);
    add_delta(deltas, x, f);
    proof {
        assert forall|t: u32| #[trigger] delta_of(deltas@, t) == delta_of(d0, t) + f * token_change(t, l, r, x) by {
            let a = if t == x { 1int } else { 0 };
            let b = if t == l { 1int } else { 0 };
            let c = if t == r { 1int } else { 0 };
            assert(f * (a - b - c) == f * a - f * b - f * c) by (nonlinear_arith);
            assert(f * a == if a == 1 { f as int } else { 0 }) by (nonlinear_arith)
                requires a == 0 || a == 1;
            assert(f * b == if b == 1 { f as int } else { 0 }) by (nonlinear_arith)
                requires b == 0 || b == 1;
            assert(f * c == if c == 1 { f as int } else { 0 }) by (nonlinear_arith)
                requires c == 0 || c == 1;
        }
    }
}


/// Bring pair counts exact for `ws0` to counts exact for `ws1`, given the
/// per-pair differences of their totals.
fn apply_pair_deltas(
    counts: &mut HashMap<u64, i64>,
    deltas: &HashMap<u64, i64>,
    ws0: Ghost<WordsView>,
    ws1: Ghost<WordsView>,
)
    requires
        pair_counts_exact(ws0@, old(counts)@),
        forall|p: (u32, u32)|
            #[trigger] pair_total(ws1@, p) == pair_total(ws0@, p) + delta_of(deltas@, pair_key(p)),
        weight(ws0@) <= corpus_limit(),
        weight(ws1@) <= corpus_limit(),
    ensures
        pair_counts_exact(ws1@, final(counts)@),
{
    let ghost pairs = vstd::std_specs::hash::spec_hash_map_iter(deltas).remaining();
    let ghost mut cnt: int = 0;
    let ghost mut done: Set<u64> = Set::empty();
    proof {
        vstd::std_specs::hash::axiom_spec_hash_map_iter(deltas);
    }
    for (k, d) in it: deltas.iter()
        invariant
            it.seq() == pairs,
            cnt == it.index(),
            pairs.len() == deltas@.dom().len(),
            forall|i: int|
                #![trigger deltas@.contains_key(*pairs[i].0)]
                #![trigger deltas@[*pairs[i].0]]
                0 <= i < pairs.len() ==> deltas@.contains_key(*pairs[i].0) && deltas@[*pairs[i].0] == *pairs[i].1,
            forall|key: u64| #[trigger] deltas@.contains_key(key) ==> pairs.contains((&key, &deltas@[key])),
            pairs.no_duplicates(),
            forall|j: int| 0 <= j < cnt ==> #[trigger] done.contains(*pairs[j].0),
            forall|key: u64| #[trigger] done.contains(key) ==> exists|j: int| 0 <= j < cnt && *pairs[j].0 == key,
            forall|p: (u32, u32)|
                #[trigger] pair_total(ws1@, p) == pair_total(ws0@, p) + delta_of(deltas@, pair_key(p)),
            weight(ws0@) <= corpus_limit(),
            weight(ws1@) <= corpus_limit(),
            forall|key: u64|
                #![trigger counts@.contains_key(key)]
                #![trigger counts@[key]]
                (counts@.contains_key(key) <==> pair_total(if done.contains(key) { ws1@ } else { ws0@ }, key_pair(key)) > 0)
                    && (counts@.contains_key(key) ==> counts@[key] as int == pair_total(
                    if done.contains(key) { ws1@ } else { ws0@ },
                    key_pair(key),
                )),
    {
        let key = *k;
        let dv = *d;
        let ghost p = key_pair(key);
        proof {
            assert(pairs[cnt] == (k, d));
            assert(deltas@.contains_key(key) && deltas@[key] == dv);
            if done.contains(key) {
                let j = choose|j: int| 0 <= j < cnt && *pairs[j].0 == key;
                assert(deltas@[*pairs[j].0] == *pairs[j].1);
                assert(pairs[j] == pairs[cnt]);
                assert(false);
            }
            lemma_pair_key(p, key);
            lemma_totals_nonneg(ws0@, p, 0);
            lemma_totals_nonneg(ws1@, p, 0);
            assert(pair_total(ws1@, p) == pair_total(ws0@, p) + dv);
        }
        let cur = match counts.get(&key) {
            Some(v) => *v,
            None => 0i64,
        };
        let nv = cur + dv;
        if nv <= 0 {
            counts.remove(&key);
        } else {
            counts.insert(key, nv);
        }
        proof {
            done = done.insert(key);
            cnt = cnt + 1;
            assert forall|key2: u64| #[trigger] done.contains(key2) implies exists|j: int| 0 <= j < cnt && *pairs[j].0 == key2 by {
                if key2 == key {
                    assert(*pairs[cnt - 1].0 == key2);
                } else {
                    let j = choose|j: int| 0 <= j < cnt - 1 && *pairs[j].0 == key2;
                    assert(*pairs[j].0 == key2);
                }
            }
        }
    }
    proof {
        assert forall|key: u64|
            #![trigger counts@.contains_key(key)]
            #![trigger counts@[key]]
            (counts@.contains_key(key) <==> pair_total(ws1@, key_pair(key)) > 0) && (counts@.contains_key(key)
                ==> counts@[key] as int == pair_total(ws1@, key_pair(key))) by {
            if !done.contains(key) {
                if deltas@.contains_key(key) {
                    assert(pairs.contains((&key, &deltas@[key])));
                    let j = choose|j: int| 0 <= j < pairs.len() && pairs[j] == (&key, &deltas@[key]);
                    assert(done.contains(*pairs[j].0));
                }
                lemma_pair_key(key_pair(key), key);
                assert(pair_total(ws1@, key_pair(key)) == pair_total(ws0@, key_pair(key)) + delta_of(deltas@, pair_key(key_pair(key))));
            }
        }
    }
}

/// Bring token counts exact for `ws0` to counts exact for `ws1`, given the
/// per-token differences of their totals.
fn apply_token_deltas(
    counts: &mut HashMap<u32, u64>,
    deltas: &HashMap<u32, i64>,
    ws0: Ghost<WordsView>,
    ws1: Ghost<WordsView>,
)
    requires
        token_counts_exact(ws0@, old(counts)@),
        forall|t: u32| #[trigger] token_total(ws1@, t) == token_total(ws0@, t) + delta_of(deltas@, t),
        weight(ws0@) <= corpus_limit(),
        weight(ws1@) <= corpus_limit(),
    ensures
        token_counts_exact(ws1@, final(counts)@),
{
    let ghost pairs = vstd::std_specs::hash::spec_hash_map_iter(deltas).remaining();
    let ghost mut cnt: int = 0;
    let ghost mut done: Set<u32> = Set::empty();
    proof {
        vstd::std_specs::hash::axiom_spec_hash_map_iter(deltas);
    }
    for (k, d) in it: deltas.iter()
        invariant
            it.seq() == pairs,
            cnt == it.index(),
            pairs.len() == deltas@.dom().len(),
            forall|i: int|
                #![trigger deltas@.contains_key(*pairs[i].0)]
                #![trigger deltas@[*pairs[i].0]]
                0 <= i < pairs.len() ==> deltas@.contains_key(*pairs[i].0) && deltas@[*pairs[i].0] == *pairs[i].1,
            forall|key: u32| #[trigger] deltas@.contains_key(key) ==> pairs.contains((&key, &deltas@[key])),
            pairs.no_duplicates(),
            forall|j: int| 0 <= j < cnt ==> #[trigger] done.contains(*pairs[j].0),
            forall|key: u32| #[trigger] done.contains(key) ==> exists|j: int| 0 <= j < cnt && *pairs[j].0 == key,
            forall|t: u32| #[trigger] token_total(ws1@, t) == token_total(ws0@, t) + delta_of(deltas@, t),
            weight(ws0@) <= corpus_limit(),
            weight(ws1@) <= corpus_limit(),
            forall|key: u32|
                #![trigger counts@.contains_key(key)]
                #![trigger counts@[key]]
                (counts@.contains_key(key) <==> token_total(if done.contains(key) { ws1@ } else { ws0@ }, key) > 0)
                    && (counts@.contains_key(key) ==> counts@[key] as int == token_total(
                    if done.contains(key) { ws1@ } else { ws0@ },
                    key,
                )),
    {
        let tid = *k;
        let delta = *d;
        proof {
            assert(pairs[cnt] == (k, d));
            assert(deltas@.contains_key(tid) && deltas@[tid] == delta);
            if done.contains(tid) {
                let j = choose|j: int| 0 <= j < cnt && *pairs[j].0 == tid;
                assert(deltas@[*pairs[j].0] == *pairs[j].1);
                assert(pairs[j] == pairs[cnt]);
                assert(false);
            }
            lemma_totals_nonneg(ws0@, (0, 0), tid);
            lemma_totals_nonneg(ws1@, (0, 0), tid);
            assert(token_total(ws1@, tid) == token_total(ws0@, tid) + delta);
        }
        let cur = match counts.get(&tid) {
            Some(v) => *v,
            None => 0u64,
        };
        if delta > 0 {
            counts.insert(tid, cur + delta as u64);
        } else {
            let sub = (-delta) as u64;
            if cur <= sub {
                counts.remove(&tid);
            } else {
                counts.insert(tid, cur - sub);
            }
        }
        proof {
            done = done.insert(tid);
            cnt = cnt + 1;
            assert forall|key2: u32| #[trigger] done.contains(key2) implies exists|j: int| 0 <= j < cnt && *pairs[j].0 == key2 by {
                if key2 == tid {
                    assert(*pairs[cnt - 1].0 == key2);
                } else {
                    let j = choose|j: int| 0 <= j < cnt - 1 && *pairs[j].0 == key2;
                    assert(*pairs[j].0 == key2);
                }
            }
        }
    }
    proof {
        assert forall|key: u32|
            (counts@.contains_key(key) <==> token_total(ws1@, key) > 0) && (counts@.contains_key(key)
                ==> counts@[key] as int == token_total(ws1@, key)) by {
            if !done.contains(key) {
                if deltas@.contains_key(key) {
                    assert(pairs.contains((&key, &deltas@[key])));
                    let j = choose|j: int| 0 <= j < pairs.len() && pairs[j] == (&key, &deltas@[key]);
                    assert(done.contains(*pairs[j].0));
                }
            }
        }
    }
}


impl Trainer {
    /// Merge every occurrence of `left_id` followed by `right_id` into `new_id`,
    /// in every word, and update the counts by the changes alone.
    fn apply_merge(&mut self, left_id: u32, right_id: u32, new_id: u32)
        requires
            old(self).core_wf(),
            left_id < new_id,
            right_id < new_id,
            new_id < old(self).vocab.tokens@.len(),
            forall|w: int, k: int|
                0 <= w < old(self).words_view().len() && 0 <= k < old(self).words_view()[w].0.len()
                    ==> #[trigger] old(self).words_view()[w].0[k] < new_id,
        ensures
            final(self).core_wf(),
            final(self).words_view() == merge_words(old(self).words_view(), left_id, right_id, new_id),
            final(self).vocab == old(self).vocab,
            final(self).phase == old(self).phase,
            final(self).bigram_counts == old(self).bigram_counts,
    {
        let ghost ws0 = self.words_view();
        let ghost vocab0 = self.vocab;
        let ghost phase0 = self.phase;
        let ghost bigram0 = self.bigram_counts;
        let ghost n_ids = self.vocab.tokens@.len();
        let mut pair_deltas: HashMap<u64, i64> = HashMap::new();
        let mut token_deltas: HashMap<u32, i64> = HashMap::new();
        let mut w: usize = 0;
        proof {
            lemma_totals_nonneg(ws0, (0, 0), 0);
        }
        while w < self.words.len()
            invariant
                self.vocab == vocab0,
                self.phase == phase0,
                self.bigram_counts == bigram0,
                vocab0 == old(self).vocab,
                phase0 == old(self).phase,
                bigram0 == old(self).bigram_counts,
                ws0 == old(self).words_view(),
                self.words@.len() == ws0.len(),
                w <= ws0.len(),
                words_ok(ws0, n_ids),
                n_ids == self.vocab.tokens@.len(),
                left_id < new_id,
                right_id < new_id,
                new_id < n_ids,
                token_counts_exact(ws0, self.token_counts@),
                pair_counts_exact(ws0, self.pair_counts@),
                forall|j: int| 0 <= j < w ==> #[trigger] self.words_view()[j] == (merge_word(ws0[j].0, left_id, right_id, new_id), ws0[j].1),
                forall|j: int| w <= j < ws0.len() ==> #[trigger] self.words_view()[j] == ws0[j],
                weight(self.words_view()) <= weight(ws0),
                forall|p: (u32, u32)| #[trigger] pair_total(self.words_view(), p) == pair_total(ws0, p) + delta_of(pair_deltas@, pair_key(p)),
                forall|t: u32| #[trigger] token_total(self.words_view(), t) == token_total(ws0, t) + delta_of(token_deltas@, t),
                forall|k: u64| -corpus_limit() <= #[trigger] delta_of(pair_deltas@, k) <= corpus_limit(),
                forall|t: u32| -corpus_limit() <= #[trigger] delta_of(token_deltas@, t) <= corpus_limit(),
            decreases ws0.len() - w,
        {
            let ghost wv = self.words_view();
            let ghost s = ws0[w as int].0;
            let count = self.words[w].count;
            proof {
                assert(wv[w as int] == ws0[w as int]);
                assert(wv[w as int] == (self.words@[w as int].tokens@, count));
                lemma_partial_weight(ws0, w as int, 0);
                assert(count <= corpus_limit());
            }
            let freq = count as i64;
            let len = self.words[w].tokens.len();
            let mut new_tokens: Vec<u32> = Vec::with_capacity(len);
            proof {
                assert(new_tokens@ + s.skip(0) =~= s);
                assert(wv.update(w as int, (s, count)) =~= wv);
                assert(s.skip(0) =~= s);
            }
            let mut i: usize = 0;
            let mut had_merge = false;
            while i < len
                invariant
                    self.vocab == vocab0,
                    self.phase == phase0,
                    self.bigram_counts == bigram0,
                    self.words_view() == wv,
                    wv.len() == ws0.len(),
                    w < ws0.len(),
                    wv[w as int] == ws0[w as int],
                    s == ws0[w as int].0,
                    len == s.len(),
                    count == ws0[w as int].1,
                    freq == count,
                    0 < count <= corpus_limit(),
                    left_id < new_id,
                    right_id < new_id,
                    i <= len,
                    new_tokens@.len() <= i,
                    new_tokens@ + merge_word(s.skip(i as int), left_id, right_id, new_id) == merge_word(s, left_id, right_id, new_id),
                    !had_merge ==> new_tokens@ == s.take(i as int),
                    weight(wv) <= weight(ws0),
                    weight(ws0) <= corpus_limit(),
                    forall|p: (u32, u32)| #[trigger] pair_total(wv.update(w as int, (new_tokens@ + s.skip(i as int), count)), p) == pair_total(ws0, p) + delta_of(pair_deltas@, pair_key(p)),
                    forall|t: u32| #[trigger] token_total(wv.update(w as int, (new_tokens@ + s.skip(i as int), count)), t) == token_total(ws0, t) + delta_of(token_deltas@, t),
                    forall|k: u64| -corpus_limit() <= #[trigger] delta_of(pair_deltas@, k) <= corpus_limit(),
                    forall|t: u32| -corpus_limit() <= #[trigger] delta_of(token_deltas@, t) <= corpus_limit(),
                decreases len - i,
            {
                let ghost h = new_tokens@ + s.skip(i as int);
                let ghost wh = wv.update(w as int, (h, count));
                let ti = self.words[w].tokens[i];
                assert(ti == s[i as int]);
                if i + 1 < len && ti == left_id && self.words[w].tokens[i + 1] == right_id {
                    had_merge = true;
                    let prev: Option<u32> = if new_tokens.len() > 0 {
                        Some(new_tokens[new_tokens.len() - 1])
                    } else {
                        None
                    };
                    let next: Option<u32> = if i + 2 < len {
                        Some(self.words[w].tokens[i + 2])
                    } else {
                        None
                    };
                    record_pair_changes(&mut pair_deltas, prev, next, left_id, right_id, new_id, freq);
                    record_token_changes(&mut token_deltas, left_id, right_id, new_id, freq);
                    let ghost old_new = new_tokens@;
                    new_tokens.push(new_id);
                    proof {
                        assert(s[i + 1] == right_id);
                        let h2 = new_tokens@ + s.skip(i + 2);
                        let wh2 = wv.update(w as int, (h2, count));
                        assert(wh2 =~= wh.update(w as int, (h2, count)));
                        assert(s.skip(i as int).skip(2) =~= s.skip(i + 2));
                        assert(s.skip(i as int)[0] == left_id && s.skip(i as int)[1] == right_id);
                        assert(merge_word(s.skip(i as int), left_id, right_id, new_id) == seq![new_id] + merge_word(s.skip(i + 2), left_id, right_id, new_id));
                        assert(old_new + (seq![new_id] + merge_word(s.skip(i + 2), left_id, right_id, new_id)) =~= new_tokens@ + merge_word(s.skip(i + 2), left_id, right_id, new_id));
                        if i + 2 < len {
                            assert(next == Some(s[i + 2]));
                        }
                        assert forall|p: (u32, u32)| #[trigger] pair_total(wh2, p) == pair_total(ws0, p) + delta_of(pair_deltas@, pair_key(p)) by {
                            lemma_merge_step_counts(old_new, s, i as int, left_id, right_id, new_id, p, 0);
                            lemma_totals_update(wh, w as int, (h2, count), p, 0);
                            lemma_pair_key(p, 0);
                            let b1 = bigram_occurrences(h, p);
                            let b2 = bigram_occurrences(h2, p);
                            let c = pair_change(p, prev, next, left_id, right_id, new_id);
                            assert(count * b2 == count * b1 + count * c) by (nonlinear_arith)
                                requires b2 == b1 + c;
                        }
                        assert forall|t: u32| #[trigger] token_total(wh2, t) == token_total(ws0, t) + delta_of(token_deltas@, t) by {
                            lemma_merge_step_counts(old_new, s, i as int, left_id, right_id, new_id, (0, 0), t);
                            lemma_totals_update(wh, w as int, (h2, count), (0, 0), t);
                            let o1 = occurrences(h, t);
                            let o2 = occurrences(h2, t);
                            let c = token_change(t, left_id, right_id, new_id);
                            assert(count * o2 == count * o1 + count * c) by (nonlinear_arith)
                                requires o2 == o1 + c;
                        }
                        // the deltas stay within the corpus weight
                        lemma_totals_update(wv, w as int, (h2, count), (0, 0), 0);
                        assert(h2.len() <= s.len());
                        assert(count * h2.len() <= count * s.len()) by (nonlinear_arith)
                            requires h2.len() <= s.len(), count >= 0;
                        assert(wv.update(w as int, (s, count)) =~= wv);
                        assert forall|k: u64| -corpus_limit() <= #[trigger] delta_of(pair_deltas@, k) <= corpus_limit() by {
                            let p = key_pair(k);
                            lemma_pair_key(p, k);
                            lemma_totals_nonneg(wh2, p, 0);
                            lemma_totals_nonneg(ws0, p, 0);
                            assert(pair_total(wh2, p) == pair_total(ws0, p) + delta_of(pair_deltas@, pair_key(p)));
                        }
                        assert forall|t: u32| -corpus_limit() <= #[trigger] delta_of(token_deltas@, t) <= corpus_limit() by {
                            lemma_totals_nonneg(wh2, (0, 0), t);
                            lemma_totals_nonneg(ws0, (0, 0), t);
                            assert(token_total(wh2, t) == token_total(ws0, t) + delta_of(token_deltas@, t));
                        }
                    }
                    i = i + 2;
                } else {
                    let ghost old_new = new_tokens@;
                    new_tokens.push(ti);
                    proof {
                        assert(new_tokens@ + s.skip(i + 1) =~= h);
                        assert(s.skip(i as int).skip(1) =~= s.skip(i + 1));
                        assert(!(s.skip(i as int).len() >= 2 && s.skip(i as int)[0] == left_id && s.skip(i as int)[1] == right_id));
                        assert(merge_word(s.skip(i as int), left_id, right_id, new_id) == seq![ti] + merge_word(s.skip(i + 1), left_id, right_id, new_id));
                        assert(old_new + (seq![ti] + merge_word(s.skip(i + 1), left_id, right_id, new_id)) =~= new_tokens@ + merge_word(s.skip(i + 1), left_id, right_id, new_id));
                        if !had_merge {
                            assert(new_tokens@ =~= s.take(i + 1));
                        }
                    }
                    i = i + 1;
                }
            }
            proof {
                assert(s.skip(i as int) =~= Seq::<u32>::empty());
                assert(new_tokens@ + s.skip(i as int) =~= new_tokens@);
                assert(merge_word(s.skip(i as int), left_id, right_id, new_id) =~= Seq::<u32>::empty());
                assert(new_tokens@ + Seq::<u32>::empty() =~= new_tokens@);
                assert(new_tokens@ == merge_word(s, left_id, right_id, new_id));
            }
            if had_merge {
                self.words[w].tokens = new_tokens;
                proof {
                    assert(self.words_view() =~= wv.update(w as int, (merge_word(s, left_id, right_id, new_id), count)));
                }
            } else {
                proof {
                    assert(new_tokens@ =~= s);
                    assert(wv.update(w as int, (new_tokens@, count)) =~= wv);
                }
            }
            proof {
                let cur = self.words_view();
                assert(cur =~= wv.update(w as int, (merge_word(s, left_id, right_id, new_id), count)));
                lemma_totals_update(wv, w as int, (merge_word(s, left_id, right_id, new_id), count), (0, 0), 0);
                lemma_merge_word_shape(s, left_id, right_id, new_id, n_ids);
                let m = merge_word(s, left_id, right_id, new_id);
                assert(count * m.len() <= count * s.len()) by (nonlinear_arith)
                    requires m.len() <= s.len(), count >= 0;
                assert(wv.update(w as int, (s, count)) =~= wv);
            }
            w = w + 1;
        }
        let ghost ws1 = self.words_view();
        proof {
            assert(ws1 =~= merge_words(ws0, left_id, right_id, new_id));
            lemma_totals_nonneg(ws1, (0, 0), 0);
        }
        apply_pair_deltas(&mut self.pair_counts, &pair_deltas, Ghost(ws0), Ghost(ws1));
        apply_token_deltas(&mut self.token_counts, &token_deltas, Ghost(ws0), Ghost(ws1));
        proof {
            assert forall|w2: int| 0 <= w2 < ws1.len() implies (#[trigger] ws1[w2]).1 >= 1 && ws1[w2].0.len() >= 1 by {
                lemma_merge_word_shape(ws0[w2].0, left_id, right_id, new_id, n_ids);
            }
            assert forall|w2: int, k: int| 0 <= w2 < ws1.len() && 0 <= k < ws1[w2].0.len() implies #[trigger] ws1[w2].0[k] < n_ids by {
                assert forall|k2: int| 0 <= k2 < ws0[w2].0.len() implies #[trigger] ws0[w2].0[k2] < n_ids by {
                    assert(ws0[w2].0[k2] == ws0[w2].0[k2]);
                }
                lemma_merge_word_shape(ws0[w2].0, left_id, right_id, new_id, n_ids);
            }
        }
    }
}


/// Scoring of candidate merges, for `Trainer::train`: `score` rates merging
/// `left_id` and `right_id` into `next_id`, given how many tokens the corpus
/// takes, how often each id and the pair occur, and the training phase (0
/// while compressing, 1 while refining); `improves` tells whether a candidate
/// score beats the best one so far. Each agrees with its `spec_` function.
pub trait MergeScorer {
    type Score: Copy;

    /// The score of merging `left_id` and `right_id` into `next_id`, given the
    /// corpus's token total, the counts of both ids and of the pair, and the phase.
    spec fn spec_score(
        &self,
        total_tokens: u64,
        left_count: u64,
        right_count: u64,
        left_id: u32,
        right_id: u32,
        pair_count: u64,
        next_id: u32,
        phase: u8,
    ) -> Self::Score;

    /// Whether `candidate` beats `best`.
    spec fn spec_improves(&self, candidate: Self::Score, best: Self::Score) -> bool;

    fn score(
        &self,
        total_tokens: u64,
        left_count: u64,
        right_count: u64,
        left_id: u32,
        right_id: u32,
        pair_count: u64,
        next_id: u32,
        phase: u8,
    ) -> (score: Self::Score)
        ensures
            score == self.spec_score(
                total_tokens,
                left_count,
                right_count,
                left_id,
                right_id,
                pair_count,
                next_id,
                phase,
            ),
    ;

    fn improves(&self, candidate: &Self::Score, best: &Self::Score) -> (better: bool)
        ensures
            better == self.spec_improves(*candidate, *best),
    ;
}

/// Scores a merge by how often its pair occurs; more is better (byte-pair
/// encoding's rule).
pub struct MostFrequent;

impl MergeScorer for MostFrequent {
    type Score = u64;

    open spec fn spec_score(
        &self,
        total_tokens: u64,
        left_count: u64,
        right_count: u64,
        left_id: u32,
        right_id: u32,
        pair_count: u64,
        next_id: u32,
        phase: u8,
    ) -> u64 {
        pair_count
    }

    open spec fn spec_improves(&self, candidate: u64, best: u64) -> bool {
        candidate > best
    }

    fn score(
        &self,
        total_tokens: u64,
        left_count: u64,
        right_count: u64,
        left_id: u32,
        right_id: u32,
        pair_count: u64,
        next_id: u32,
        phase: u8,
    ) -> (score: u64) {
        pair_count
    }

    fn improves(&self, candidate: &u64, best: &u64) -> (better: bool) {
        *candidate > *best
    }
}

/// The score `scorer` gives to merging pair `p` of the words `ws` into `next_id` in `phase`.
pub open spec fn merge_score<S: MergeScorer>(scorer: S, ws: WordsView, p: (u32, u32), next_id: u32, phase: u8) -> S::Score {
    scorer.spec_score(
        weight(ws) as u64,
        token_total(ws, p.0) as u64,
        token_total(ws, p.1) as u64,
        p.0,
        p.1,
        pair_total(ws, p) as u64,
        next_id,
        phase,
    )
}

/// `improves` orders scores: no score beats itself, and a score that does not
/// beat `b` does not beat anything that beats `b` either.
pub open spec fn merge_order<S: MergeScorer>(scorer: S) -> bool {
    &&& forall|a: S::Score| !#[trigger] scorer.spec_improves(a, a)
    &&& forall|a: S::Score, b: S::Score, c: S::Score|
        #![trigger scorer.spec_improves(a, b), scorer.spec_improves(c, b)]
        !scorer.spec_improves(a, b) && scorer.spec_improves(c, b) ==> !scorer.spec_improves(a, c)
}

/// `p` is a merge the scorer likes best among the pairs of `ws` that occur at
/// least twice: when the scores are ordered, no such pair scores better.
pub open spec fn best_merge<S: MergeScorer>(scorer: S, ws: WordsView, p: (u32, u32), next_id: u32, phase: u8) -> bool {
    &&& pair_total(ws, p) >= 2
    &&& merge_order(scorer) ==> forall|q: (u32, u32)|
        #[trigger] pair_total(ws, q) >= 2 ==> !scorer.spec_improves(
            merge_score(scorer, ws, q, next_id, phase),
            merge_score(scorer, ws, p, next_id, phase),
        )
}

/// Counting scores are ordered, so training with `MostFrequent` merges a most
/// frequent pair at each step.
pub proof fn lemma_most_frequent_ordered()
    ensures
        merge_order(MostFrequent),
{
}

/// A pair that occurs somewhere in the words is made of ids the words use.
proof fn lemma_pair_in_words(ws: WordsView, p: (u32, u32), n: nat)
    requires
        pair_total(ws, p) > 0,
        forall|w: int, k: int| 0 <= w < ws.len() && 0 <= k < ws[w].0.len() ==> #[trigger] ws[w].0[k] < n,
    ensures
        p.0 < n,
        p.1 < n,
    decreases ws.len(),
{
    let (s, c) = ws.last();
    if pair_total(ws.drop_last(), p) > 0 {
        assert forall|w: int, k: int| 0 <= w < ws.drop_last().len() && 0 <= k < ws.drop_last()[w].0.len()
            implies #[trigger] ws.drop_last()[w].0[k] < n by {
            assert(ws.drop_last()[w] == ws[w]);
        }
        lemma_pair_in_words(ws.drop_last(), p, n);
    } else {
        assert(c * bigram_occurrences(s, p) > 0);
        assert(bigram_occurrences(s, p) > 0) by (nonlinear_arith)
            requires c * bigram_occurrences(s, p) > 0, c >= 0;
        lemma_bigram_witness(s, p);
        let i = choose|i: int| 0 <= i && i + 1 < s.len() && #[trigger] s[i] == p.0 && s[i + 1] == p.1;
        assert(ws[ws.len() - 1].0[i] < n);
        assert(ws[ws.len() - 1].0[i + 1] < n);
    }
}

/// A pair that occurs in a sequence occurs at some position.
proof fn lemma_bigram_witness(s: Seq<u32>, p: (u32, u32))
    requires
        bigram_occurrences(s, p) > 0,
    ensures
        exists|i: int| 0 <= i && i + 1 < s.len() && #[trigger] s[i] == p.0 && s[i + 1] == p.1,
    decreases s.len(),
{
    if bigram_occurrences(s.drop_last(), p) > 0 {
        lemma_bigram_witness(s.drop_last(), p);
        let i = choose|i: int| 0 <= i && i + 1 < s.drop_last().len() && #[trigger] s.drop_last()[i] == p.0 && s.drop_last()[i + 1] == p.1;
        assert(s[i] == p.0 && s[i + 1] == p.1);
    } else {
        let i = s.len() - 2;
        assert(s[i] == p.0 && s[i + 1] == p.1);
    }
}

impl Trainer {
    /// The candidate merge the scorer likes best among the pairs that occur at
    /// least twice, with its count and score; `None` when no pair does.
    fn find_best_merge<S: MergeScorer>(&self, scorer: &S) -> (best: Option<((u32, u32), u64, S::Score)>)
        requires
            self.core_wf(),
        ensures
            best is None <==> forall|p: (u32, u32)| #[trigger] pair_total(self.words_view(), p) < 2,
            best matches Some((p, c, _)) ==> c >= 2 && pair_total(self.words_view(), p) == c,
            best matches Some((p, c, sc)) ==> sc == merge_score(
                *scorer,
                self.words_view(),
                p,
                self.vocab.tokens@.len() as u32,
                self.phase,
            ) && best_merge(*scorer, self.words_view(), p, self.vocab.tokens@.len() as u32, self.phase),
    {
        let next_id = self.vocab.tokens.len() as u32;
        let total = self.words_weight();
        let mut best: Option<((u32, u32), u64, S::Score)> = None;
        let ghost ws = self.words_view();
        let ghost pairs = vstd::std_specs::hash::spec_hash_map_iter(&self.pair_counts).remaining();
        let ghost mut cnt: int = 0;
        proof {
            vstd::std_specs::hash::axiom_spec_hash_map_iter(&self.pair_counts);
        }
        for (k, v) in it: self.pair_counts.iter()
            invariant
                it.seq() == pairs,
                cnt == it.index(),
                ws == self.words_view(),
                self.core_wf(),
                pairs.len() == self.pair_counts@.dom().len(),
                forall|i: int|
                    #![trigger self.pair_counts@.contains_key(*pairs[i].0)]
                    #![trigger self.pair_counts@[*pairs[i].0]]
                    0 <= i < pairs.len() ==> self.pair_counts@.contains_key(*pairs[i].0)
                        && self.pair_counts@[*pairs[i].0] == *pairs[i].1,
                forall|key: u64| #[trigger]
                    self.pair_counts@.contains_key(key) ==> pairs.contains(
                        (&key, &self.pair_counts@[key]),
                    ),
                best is None ==> forall|j: int| 0 <= j < cnt ==> *(#[trigger] pairs[j]).1 < 2,
                best matches Some((p, c, _)) ==> c >= 2 && pair_total(ws, p) == c,
                next_id == self.vocab.tokens@.len() as u32,
                total == weight(ws),
                best matches Some((p, c, sc)) ==> sc == merge_score(*scorer, ws, p, next_id, self.phase),
                best matches Some((p, c, sc)) ==> (merge_order(*scorer) ==> forall|j: int|
                    0 <= j < cnt && *(#[trigger] pairs[j]).1 >= 2 ==> !scorer.spec_improves(
                        merge_score(*scorer, ws, key_pair(*pairs[j].0), next_id, self.phase),
                        sc,
                    )),
        {
            let key = *k;
            let count = *v;
            proof {
                assert(pairs[cnt] == (k, v));
                assert(self.pair_counts@.contains_key(key) && self.pair_counts@[key] == count);
                lemma_pair_key(key_pair(key), key);
                cnt = cnt + 1;
            }
            if count >= 2 {
                let left = (key / 0x1_0000_0000u64) as u32;
                let right = (key % 0x1_0000_0000u64) as u32;
                let pair_count = count as u64;
                proof {
                    assert((left, right) == key_pair(key));
                    assert(pair_total(ws, (left, right)) == count);
                    lemma_totals_nonneg(ws, (left, right), left);
                    lemma_totals_nonneg(ws, (left, right), right);
                }
                let left_count = match self.token_counts.get(&left) {
                    Some(c) => *c,
                    None => 0u64,
                };
                let right_count = match self.token_counts.get(&right) {
                    Some(c) => *c,
                    None => 0u64,
                };
                let score = scorer.score(total, left_count, right_count, left, right, pair_count, next_id, self.phase);
                let ghost old_best = best;
                proof {
                    assert(score == merge_score(*scorer, ws, (left, right), next_id, self.phase));
                }
                match best {
                    Some((_, _, best_score)) => {
                        if scorer.improves(&score, &best_score) {
                            best = Some(((left, right), pair_count, score));
                        }
                    },
                    None => {
                        best = Some(((left, right), pair_count, score));
                    },
                }
                proof {
                    let kp = key_pair(key);
                    assert(*pairs[cnt - 1].0 == key);
                    if merge_order(*scorer) {
                        let sc = best->Some_0.2;
                        assert(!scorer.spec_improves(score, sc)) by {
                            if old_best is Some && sc == old_best->Some_0.2 {
                            } else {
                                assert(sc == score);
                            }
                        }
                        assert forall|j: int|
                            0 <= j < cnt && *(#[trigger] pairs[j]).1 >= 2 implies !scorer.spec_improves(
                            merge_score(*scorer, ws, key_pair(*pairs[j].0), next_id, self.phase),
                            sc,
                        ) by {
                            if j < cnt - 1 {
                                let sj = merge_score(*scorer, ws, key_pair(*pairs[j].0), next_id, self.phase);
                                let ob = old_best->Some_0.2;
                                if sc != ob {
                                    assert(scorer.spec_improves(sc, ob));
                                    assert(!scorer.spec_improves(sj, ob));
                                }
                            }
                        }
                    }
                }
            }
        }
        proof {
            if best is Some && merge_order(*scorer) {
                let (bp, bc, bs) = best->Some_0;
                assert forall|q: (u32, u32)| #[trigger] pair_total(ws, q) >= 2 implies !scorer.spec_improves(
                    merge_score(*scorer, ws, q, next_id, self.phase),
                    merge_score(*scorer, ws, bp, next_id, self.phase),
                ) by {
                    let key = pair_key(q);
                    lemma_pair_key(q, key);
                    assert(self.pair_counts@.contains_key(key));
                    assert(pairs.contains((&key, &self.pair_counts@[key])));
                    let j = choose|j: int| 0 <= j < pairs.len() && pairs[j] == (&key, &self.pair_counts@[key]);
                    assert(*pairs[j].1 >= 2);
                }
            }
            if best is None {
                assert forall|p: (u32, u32)| #[trigger] pair_total(ws, p) < 2 by {
                    let key = pair_key(p);
                    lemma_pair_key(p, key);
                    if pair_total(ws, p) >= 2 {
                        assert(self.pair_counts@.contains_key(key));
                        assert(pairs.contains((&key, &self.pair_counts@[key])));
                        let j = choose|j: int| 0 <= j < pairs.len() && pairs[j] == (&key, &self.pair_counts@[key]);
                        assert(*pairs[j].1 < 2);
                    }
                }
            }
        }
        best
    }
}


/// The words after the merges `merges` were applied in turn, the `i`-th
/// merge making the id `base + i`.
pub open spec fn apply_merges(ws: WordsView, merges: Seq<(u32, u32)>, base: nat) -> WordsView
    decreases merges.len(),
{
    if merges.len() == 0 {
        ws
    } else {
        merge_words(
            apply_merges(ws, merges.drop_last(), base),
            merges.last().0,
            merges.last().1,
            (base + merges.len() - 1) as u32,
        )
    }
}

/// Each merge of the list joined a pair that occurred at least twice when it was made.
pub open spec fn merges_justified(ws: WordsView, merges: Seq<(u32, u32)>, base: nat) -> bool {
    forall|i: int|
        0 <= i < merges.len() ==> pair_total(apply_merges(ws, merges.take(i), base), #[trigger] merges[i])
            >= 2
}

/// The training phase of merge step `step` out of `num_merges`: the first
/// four fifths of the steps compress (0), the rest refine (1).
pub open spec fn merge_phase(step: int, num_merges: int) -> u8 {
    if step < num_merges * 4 / 5 {
        0
    } else {
        1
    }
}

/// The phase schedule of training: of `n` merge steps, step `i` runs in
/// phase 0 (compression first) exactly when it is among the first four fifths,
/// `i < 4n/5`, and in phase 1 otherwise.
pub proof fn lemma_phase_schedule(i: int, n: int)
    requires
        0 <= i < n,
    ensures
        merge_phase(i, n) == 0u8 <==> i < (4 * n) / 5,
        merge_phase(i, n) == 1u8 <==> i >= (4 * n) / 5,
{
    assert(n * 4 == 4 * n);
}

/// A token or word whose whitespace only leads has no space, tab, newline or
/// carriage return after its first byte.
pub proof fn lemma_leads_only_bytes(b: Seq<u8>)
    requires
        leads_only(b),
    ensures
        forall|k: int| 1 <= k < b.len() ==> {
            let c = #[trigger] b[k];
            c != 0x20u8 && c != 0x09u8 && c != 0x0au8 && c != 0x0du8
        },
{
    assert forall|k: int| 1 <= k < b.len() implies {
        let c = #[trigger] b[k];
        c != 0x20u8 && c != 0x09u8 && c != 0x0au8 && c != 0x0du8
    } by {
        assert(!starts_word(b[k]));
    }
}

/// Decoding ids of a vocabulary with a vocabulary that extends it gives the same bytes.
pub proof fn lemma_decode_extend(tokens: Seq<Token>, more: Seq<Token>, s: Seq<u32>)
    requires
        valid_ids(tokens, s),
        tokens.len() <= more.len(),
        forall|i: int| 0 <= i < tokens.len() ==> #[trigger] more[i] == tokens[i],
    ensures
        decode_ids(more, s) == decode_ids(tokens, s),
    decreases s.len(),
{
    if s.len() > 0 {
        assert(s[s.len() - 1] < tokens.len());
        lemma_decode_extend(tokens, more, s.drop_last());
    }
}

/// Merging `l r` into a token spelled as `l` then `r` keeps what a word spells.
pub proof fn lemma_merge_preserves_spelling(tokens: Seq<Token>, s: Seq<u32>, l: u32, r: u32, x: u32)
    requires
        tokens[x as int].bytes@ == tokens[l as int].bytes@ + tokens[r as int].bytes@,
    ensures
        decode_ids(tokens, merge_word(s, l, r, x)) == decode_ids(tokens, s),
    decreases s.len(),
{
    if s.len() >= 2 && s[0] == l && s[1] == r {
        lemma_merge_preserves_spelling(tokens, s.skip(2), l, r, x);
        lemma_decode_concat(tokens, seq![x], merge_word(s.skip(2), l, r, x));
        assert(s =~= seq![l, r] + s.skip(2));
        lemma_decode_concat(tokens, seq![l, r], s.skip(2));
        lemma_decode_concat(tokens, seq![l], seq![r]);
        assert(seq![l] + seq![r] =~= seq![l, r]);
        lemma_decode_single(tokens, x);
        lemma_decode_single(tokens, l);
        lemma_decode_single(tokens, r);
    } else if s.len() > 0 {
        lemma_merge_preserves_spelling(tokens, s.skip(1), l, r, x);
        lemma_decode_concat(tokens, seq![s[0]], merge_word(s.skip(1), l, r, x));
        assert(s =~= seq![s[0]] + s.skip(1));
        lemma_decode_concat(tokens, seq![s[0]], s.skip(1));
    } else {
        assert(merge_word(s, l, r, x) =~= s);
    }
}

/// A word where `l r` occurs gets shorter by the merge.
proof fn lemma_merge_word_shrinks(s: Seq<u32>, l: u32, r: u32, x: u32)
    ensures
        merge_word(s, l, r, x).len() <= s.len(),
        bigram_occurrences(s, (l, r)) > 0 ==> merge_word(s, l, r, x).len() < s.len(),
    decreases s.len(),
{
    if s.len() >= 2 && s[0] == l && s[1] == r {
        lemma_merge_word_shrinks(s.skip(2), l, r, x);
    } else if s.len() > 0 {
        lemma_merge_word_shrinks(s.skip(1), l, r, x);
        assert(s =~= seq![s[0]] + s.skip(1));
        lemma_bigram_concat(seq![s[0]], s.skip(1), (l, r));
        assert(seq![s[0]].drop_last().len() == 0);
    }
}

/// Merging a pair that occurs in the words lowers their weight (the number
/// of tokens the corpus takes).
pub proof fn lemma_merge_reduces_weight(ws: WordsView, l: u32, r: u32, x: u32)
    ensures
        weight(merge_words(ws, l, r, x)) <= weight(ws),
        pair_total(ws, (l, r)) > 0 ==> weight(merge_words(ws, l, r, x)) < weight(ws),
    decreases ws.len(),
{
    if ws.len() > 0 {
        let m = merge_words(ws, l, r, x);
        assert(m.drop_last() =~= merge_words(ws.drop_last(), l, r, x));
        lemma_merge_reduces_weight(ws.drop_last(), l, r, x);
        let (s, c) = ws.last();
        lemma_merge_word_shrinks(s, l, r, x);
        let a = merge_word(s, l, r, x).len();
        let o = bigram_occurrences(s, (l, r));
        assert(c * a <= c * s.len()) by (nonlinear_arith)
            requires a <= s.len(), c >= 0;
        assert(c * o > 0 ==> c * a < c * s.len()) by (nonlinear_arith)
            requires a <= s.len(), c >= 0, o > 0 ==> a < s.len(), o >= 0;
    }
}


/// Where a pair occurs in the words: a word and the position of its left id.
proof fn lemma_pair_occurs(ws: WordsView, p: (u32, u32)) -> (at: (int, int))
    requires
        pair_total(ws, p) > 0,
    ensures
        0 <= at.0 < ws.len(),
        0 <= at.1,
        at.1 + 1 < ws[at.0].0.len(),
        ws[at.0].0[at.1] == p.0,
        ws[at.0].0[at.1 + 1] == p.1,
    decreases ws.len(),
{
    let (s, c) = ws.last();
    if pair_total(ws.drop_last(), p) > 0 {
        let at = lemma_pair_occurs(ws.drop_last(), p);
        assert(ws.drop_last()[at.0] == ws[at.0]);
        at
    } else {
        assert(c * bigram_occurrences(s, p) > 0);
        assert(bigram_occurrences(s, p) > 0) by (nonlinear_arith)
            requires c * bigram_occurrences(s, p) > 0, c >= 0;
        lemma_bigram_witness(s, p);
        let i = choose|i: int| 0 <= i && i + 1 < s.len() && #[trigger] s[i] == p.0 && s[i + 1] == p.1;
        (ws.len() - 1, i)
    }
}

/// Two tokens side by side in a word whose spelling has whitespace only in
/// the lead join into bytes with whitespace only in the lead.
proof fn lemma_merged_leads_only(toks: Seq<Token>, s: Seq<u32>, i: int)
    requires
        0 <= i,
        i + 1 < s.len(),
        toks[s[i] as int].bytes@.len() >= 1,
        leads_only(decode_ids(toks, s)),
    ensures
        leads_only(toks[s[i] as int].bytes@ + toks[s[i + 1] as int].bytes@),
{
    let a = s.take(i);
    let mid = seq![s[i], s[i + 1]];
    let c = s.skip(i + 2);
    assert(s =~= (a + mid) + c);
    lemma_decode_concat(toks, a + mid, c);
    lemma_decode_concat(toks, a, mid);
    assert(mid =~= seq![s[i]] + seq![s[i + 1]]);
    lemma_decode_concat(toks, seq![s[i]], seq![s[i + 1]]);
    lemma_decode_single(toks, s[i]);
    lemma_decode_single(toks, s[i + 1]);
    let lr = toks[s[i] as int].bytes@ + toks[s[i + 1] as int].bytes@;
    let big = decode_ids(toks, s);
    let pre = decode_ids(toks, a);
    assert(big == (pre + lr) + decode_ids(toks, c));
    assert forall|k: int| 1 <= k < lr.len() implies !starts_word(#[trigger] lr[k]) by {
        assert(lr[k] == big[pre.len() + k]);
    }
}

/// How many merges training towards `target` asks for, from `size` tokens.
pub open spec fn merges_wanted(target: usize, size: usize) -> int {
    if target > size {
        target - size
    } else {
        0
    }
}

/// One step of training: the pair merged, how often it occurred and how it
/// scored when it was chosen, and how many tokens the corpus had after it.
pub struct MergeStep<T> {
    pub pair: (u32, u32),
    pub count: u64,
    pub score: T,
    pub total_tokens: u64,
}

/// The pairs merged by the steps, in order.
pub open spec fn merge_pairs<T>(steps: Seq<MergeStep<T>>) -> Seq<(u32, u32)> {
    steps.map_values(|st: MergeStep<T>| st.pair)
}

impl Trainer {
    /// The phase the last merge step ran in.
    pub closed spec fn spec_phase(&self) -> u8 {
        self.phase
    }

    /// Train up to `target_vocab_size` tokens: repeatedly merge the pair the
    /// scorer likes best among those occurring at least twice, until the
    /// vocabulary has that many tokens or no pair occurs twice. The first four
    /// fifths of the steps run in phase 0, the rest in phase 1. Returns the
    /// steps made, in order, each with the pair merged, its count and score
    /// when chosen, and the corpus size after it; the counts are recounted at
    /// the end.
    #[verifier::rlimit(50)]
    pub fn train<S: MergeScorer>(&mut self, target_vocab_size: usize, scorer: &S) -> (steps: Vec<MergeStep<S::Score>>)
        requires
            old(self).wf(),
            merges_wanted(target_vocab_size, old(self).spec_vocab().vocab_size) * 4 <= usize::MAX,
        ensures
            final(self).wf(),
            final(self).spec_vocab().wf(),
            merge_pairs(steps@).len() <= merges_wanted(target_vocab_size, old(self).spec_vocab().vocab_size),
            final(self).spec_vocab().vocab_size == old(self).spec_vocab().vocab_size + merge_pairs(steps@).len(),
            forall|i: int|
                0 <= i < old(self).spec_vocab().vocab_size ==> #[trigger] final(self).spec_vocab().tokens@[i] == old(self).spec_vocab().tokens@[i],
            forall|i: int|
                #![trigger merge_pairs(steps@)[i]]
                0 <= i < merge_pairs(steps@).len() ==> {
                    let id = old(self).spec_vocab().vocab_size + i;
                    &&& merge_pairs(steps@)[i].0 < id
                    &&& merge_pairs(steps@)[i].1 < id
                    &&& final(self).spec_vocab().tokens@[id].merge_pair == Some(merge_pairs(steps@)[i])
                    &&& final(self).spec_vocab().tokens@[id].bytes@ == final(self).spec_vocab().tokens@[merge_pairs(steps@)[i].0 as int].bytes@
                        + final(self).spec_vocab().tokens@[merge_pairs(steps@)[i].1 as int].bytes@
                    &&& token_map(final(self).spec_vocab().tokens@).contains_key(
                        final(self).spec_vocab().tokens@[id].bytes@,
                    )
                },
            forall|i: int|
                256 <= i < final(self).spec_vocab().tokens@.len() ==> leads_only(
                    #[trigger] final(self).spec_vocab().tokens@[i].bytes@,
                ),
            final(self).words_view() == apply_merges(old(self).words_view(), merge_pairs(steps@), old(self).spec_vocab().vocab_size as nat),
            merges_justified(old(self).words_view(), merge_pairs(steps@), old(self).spec_vocab().vocab_size as nat),
            forall|i: int|
                0 <= i < merge_pairs(steps@).len() ==> best_merge(
                    *scorer,
                    apply_merges(old(self).words_view(), merge_pairs(steps@).take(i), old(self).spec_vocab().vocab_size as nat),
                    #[trigger] merge_pairs(steps@)[i],
                    (old(self).spec_vocab().vocab_size + i) as u32,
                    merge_phase(i, merges_wanted(target_vocab_size, old(self).spec_vocab().vocab_size)),
                ),
            forall|i: int|
                0 <= i < merge_pairs(steps@).len() ==> best_merge(
                    *scorer,
                    apply_merges(old(self).words_view(), merge_pairs(steps@).take(i), old(self).spec_vocab().vocab_size as nat),
                    #[trigger] merge_pairs(steps@)[i],
                    (old(self).spec_vocab().vocab_size + i) as u32,
                    if i < (4 * merges_wanted(target_vocab_size, old(self).spec_vocab().vocab_size)) / 5 {
                        0u8
                    } else {
                        1u8
                    },
                ),
            weight(final(self).words_view()) + merge_pairs(steps@).len() <= weight(old(self).words_view()),
            forall|w: int|
                0 <= w < old(self).words_view().len() ==> #[trigger] decode_ids(
                    final(self).spec_vocab().tokens@,
                    final(self).words_view()[w].0,
                ) == decode_ids(old(self).spec_vocab().tokens@, old(self).words_view()[w].0),
            merge_pairs(steps@).len() < merges_wanted(target_vocab_size, old(self).spec_vocab().vocab_size) ==> (forall|p: (u32, u32)|
                #[trigger] pair_total(final(self).words_view(), p) < 2) || final(self).spec_vocab().vocab_size == u32::MAX,
            merges_wanted(target_vocab_size, old(self).spec_vocab().vocab_size) > 0 ==> final(self).spec_phase()
                == merge_phase(
                if merge_pairs(steps@).len() < merges_wanted(target_vocab_size, old(self).spec_vocab().vocab_size) {
                    merge_pairs(steps@).len() as int
                } else {
                    merge_pairs(steps@).len() - 1
                },
                merges_wanted(target_vocab_size, old(self).spec_vocab().vocab_size),
            ),
            merges_wanted(target_vocab_size, old(self).spec_vocab().vocab_size) == 0 ==> final(self).spec_phase()
                == old(self).spec_phase(),
            forall|i: int|
                #![trigger steps@[i]]
                0 <= i < steps@.len() ==> {
                    let before = apply_merges(
                        old(self).words_view(),
                        merge_pairs(steps@).take(i),
                        old(self).spec_vocab().vocab_size as nat,
                    );
                    &&& steps@[i].count == pair_total(before, steps@[i].pair)
                    &&& steps@[i].score == merge_score(
                        *scorer,
                        before,
                        steps@[i].pair,
                        (old(self).spec_vocab().vocab_size + i) as u32,
                        merge_phase(i, merges_wanted(target_vocab_size, old(self).spec_vocab().vocab_size)),
                    )
                    &&& steps@[i].total_tokens == weight(
                        apply_merges(
                            old(self).words_view(),
                            merge_pairs(steps@).take(i + 1),
                            old(self).spec_vocab().vocab_size as nat,
                        ),
                    )
                },
    {
        let start_size = self.vocab.vocab_size;
        let num_merges = target_vocab_size.saturating_sub(start_size);
        let ghost ws0 = self.words_view();
        let ghost tokens0 = self.vocab.tokens@;
        let ghost base = start_size as nat;
        let ghost phase0 = self.phase;
        let mut merges: Vec<(u32, u32)> = Vec::new();
        let mut steps: Vec<MergeStep<S::Score>> = Vec::new();
        let mut step: usize = 0;
        let mut stopped = false;
        proof {
            assert(merges@.take(0) =~= merges@);
            reveal(spelled_within_words);
        }
        while step < num_merges && !stopped
            invariant
                num_merges == merges_wanted(target_vocab_size, base as usize),
                num_merges * 4 <= usize::MAX,
                base == start_size,
                tokens0.len() == base,
                ws0.len() == self.words_view().len(),
                self.core_wf(),
                merges@.len() == step,
                steps@.len() == step,
                forall|i: int|
                    #![trigger steps@[i]]
                    0 <= i < step ==> {
                        let before = apply_merges(ws0, merges@.take(i), base);
                        &&& steps@[i].pair == merges@[i]
                        &&& steps@[i].count == pair_total(before, merges@[i])
                        &&& steps@[i].score == merge_score(
                            *scorer,
                            before,
                            merges@[i],
                            (base + i) as u32,
                            merge_phase(i, num_merges as int),
                        )
                        &&& steps@[i].total_tokens == weight(apply_merges(ws0, merges@.take(i + 1), base))
                    },
                step <= num_merges,
                self.vocab.vocab_size == base + step,
                self.vocab.tokens@.len() == base + step,
                forall|i: int| 0 <= i < base ==> #[trigger] self.vocab.tokens@[i] == tokens0[i],
                forall|i: int|
                    #![trigger merges@[i]]
                    0 <= i < step ==> {
                        let id = base + i;
                        &&& merges@[i].0 < id
                        &&& merges@[i].1 < id
                        &&& self.vocab.tokens@[id].merge_pair == Some(merges@[i])
                        &&& self.vocab.tokens@[id].bytes@ == self.vocab.tokens@[merges@[i].0 as int].bytes@
                            + self.vocab.tokens@[merges@[i].1 as int].bytes@
                    },
                self.words_view() == apply_merges(ws0, merges@, base),
                merges_justified(ws0, merges@, base),
                forall|i: int|
                    0 <= i < merges@.len() ==> best_merge(
                        *scorer,
                        apply_merges(ws0, merges@.take(i), base),
                        #[trigger] merges@[i],
                        (base + i) as u32,
                        merge_phase(i, num_merges as int),
                    ),
                weight(self.words_view()) + step <= weight(ws0),
                forall|w: int|
                    0 <= w < ws0.len() ==> #[trigger] decode_ids(self.vocab.tokens@, self.words_view()[w].0)
                        == decode_ids(tokens0, ws0[w].0),
                stopped ==> (forall|p: (u32, u32)| #[trigger] pair_total(self.words_view(), p) < 2)
                    || self.vocab.vocab_size == u32::MAX,
                stopped ==> step < num_merges,
                (step > 0 || stopped) ==> self.phase == merge_phase(
                    if stopped { step as int } else { step - 1 },
                    num_merges as int,
                ),
                step == 0 && !stopped ==> self.phase == phase0,
                spelled_within_words(tokens0, ws0),
                forall|i: int|
                    256 <= i < self.vocab.tokens@.len() ==> leads_only(#[trigger] self.vocab.tokens@[i].bytes@),
            decreases num_merges - step + if stopped { 0int } else { 1int },
        {
            // Phase transition: first 80% compression-focused, last 20% entropy-guided
            let phase_boundary = (num_merges * 4) / 5;
            if step < phase_boundary {
                self.phase = 0;
            } else {
                self.phase = 1;
            }
            let best = self.find_best_merge(scorer);
            match best {
                None => {
                    stopped = true;
                },
                Some((pair, pair_count, score)) => {
                    if self.vocab.vocab_size >= 0xffff_ffffusize {
                        stopped = true;
                    } else {
                        let ghost ws = self.words_view();
                        let ghost toks = self.vocab.tokens@;
                        let ghost old_merges = merges@;
                        proof {
                            lemma_pair_in_words(ws, pair, toks.len());
                            reveal(spelled_within_words);
                            let (w, k) = lemma_pair_occurs(ws, pair);
                            assert(decode_ids(toks, ws[w].0) == decode_ids(tokens0, ws0[w].0));
                            assert(toks[pair.0 as int].bytes@.len() >= 1);
                            lemma_merged_leads_only(toks, ws[w].0, k);
                        }
                        let new_id = self.vocab.add_merge(pair.0, pair.1);
                        proof {
                            let toks1 = self.vocab.tokens@;
                            assert(toks1.len() == self.vocab.vocab_size);
                            assert forall|i: int| 256 <= i < toks1.len() implies leads_only(
                                #[trigger] toks1[i].bytes@,
                            ) by {
                                if i < toks.len() {
                                    assert(toks1[i] == toks[i]);
                                }
                            }
                        }
                        proof {
                            let ws1 = self.words_view();
                            assert forall|w: int, k: int|
                                0 <= w < ws1.len() && 0 <= k < ws1[w].0.len() implies #[trigger] ws1[w].0[k]
                                < new_id by {}
                        }
                        self.apply_merge(pair.0, pair.1, new_id);
                        merges.push(pair);
                        proof {
                            let ws2 = self.words_view();
                            let toks2 = self.vocab.tokens@;
                            assert(merges@.drop_last() =~= old_merges);
                            assert(ws2 == apply_merges(ws0, merges@, base));
                            assert forall|i: int| 0 <= i < merges@.len() implies pair_total(
                                apply_merges(ws0, merges@.take(i), base),
                                #[trigger] merges@[i],
                            ) >= 2 by {
                                if i < old_merges.len() {
                                    assert(merges@.take(i) =~= old_merges.take(i));
                                    assert(merges@[i] == old_merges[i]);
                                } else {
                                    assert(merges@.take(i) =~= old_merges);
                                }
                            }
                            assert forall|i: int| 0 <= i < merges@.len() implies best_merge(
                                *scorer,
                                apply_merges(ws0, merges@.take(i), base),
                                #[trigger] merges@[i],
                                (base + i) as u32,
                                merge_phase(i, num_merges as int),
                            ) by {
                                if i < old_merges.len() {
                                    assert(merges@.take(i) =~= old_merges.take(i));
                                    assert(merges@[i] == old_merges[i]);
                                } else {
                                    assert(merges@.take(i) =~= old_merges);
                                    assert(toks.len() == base + step);
                                }
                            }
                            lemma_merge_reduces_weight(ws, pair.0, pair.1, new_id);
                            assert forall|i: int| 0 <= i < base implies #[trigger] toks2[i] == tokens0[i] by {
                                assert(toks2[i] == toks[i]);
                            }
                            assert(toks2[pair.0 as int] == toks[pair.0 as int]);
                            assert(toks2[pair.1 as int] == toks[pair.1 as int]);
                            assert forall|i: int|
                                #![trigger merges@[i]]
                                0 <= i < step + 1 implies {
                                    let id = base + i;
                                    &&& merges@[i].0 < id
                                    &&& merges@[i].1 < id
                                    &&& toks2[id].merge_pair == Some(merges@[i])
                                    &&& toks2[id].bytes@ == toks2[merges@[i].0 as int].bytes@
                                        + toks2[merges@[i].1 as int].bytes@
                                } by {
                                if i < step {
                                    assert(merges@[i] == old_merges[i]);
                                    assert(toks2[base + i] == toks[base + i]);
                                    assert(toks2[merges@[i].0 as int] == toks[merges@[i].0 as int]);
                                    assert(toks2[merges@[i].1 as int] == toks[merges@[i].1 as int]);
                                }
                            }
                            assert forall|w: int| 0 <= w < ws0.len() implies #[trigger] decode_ids(
                                toks2,
                                ws2[w].0,
                            ) == decode_ids(tokens0, ws0[w].0) by {
                                assert(ws2[w].0 == merge_word(ws[w].0, pair.0, pair.1, new_id));
                                lemma_merge_preserves_spelling(toks2, ws[w].0, pair.0, pair.1, new_id);
                                assert forall|k: int| 0 <= k < ws[w].0.len() implies #[trigger] ws[w].0[k]
                                    < toks.len() by {}
                                lemma_decode_extend(toks, toks2, ws[w].0);
                            }
                        }
                        let total_tokens = self.words_weight();
                        let ghost old_steps = steps@;
                        steps.push(MergeStep { pair, count: pair_count, score, total_tokens });
                        proof {
                            assert forall|i: int|
                                #![trigger steps@[i]]
                                0 <= i < step + 1 implies {
                                    let before = apply_merges(ws0, merges@.take(i), base);
                                    &&& steps@[i].pair == merges@[i]
                                    &&& steps@[i].count == pair_total(before, merges@[i])
                                    &&& steps@[i].score == merge_score(
                                        *scorer,
                                        before,
                                        merges@[i],
                                        (base + i) as u32,
                                        merge_phase(i, num_merges as int),
                                    )
                                    &&& steps@[i].total_tokens == weight(apply_merges(ws0, merges@.take(i + 1), base))
                                } by {
                                if i < step {
                                    assert(steps@[i] == old_steps[i]);
                                    assert(merges@[i] == old_merges[i]);
                                    assert(merges@.take(i) =~= old_merges.take(i));
                                    assert(merges@.take(i + 1) =~= old_merges.take(i + 1));
                                } else {
                                    assert(merges@.take(i) =~= old_merges);
                                    assert(merges@.take(i + 1) =~= merges@);
                                }
                            }
                        }
                        step = step + 1;
                    }
                },
            }
        }
        proof {
            reveal(spelled_within_words);
            let ws1 = self.words_view();
            assert forall|w: int| 0 <= w < ws1.len() implies leads_only(
                #[trigger] decode_ids(self.vocab.tokens@, ws1[w].0),
            ) by {
                assert(decode_ids(self.vocab.tokens@, ws1[w].0) == decode_ids(tokens0, ws0[w].0));
            }
        }
        self.recount_all();
        proof {
            lemma_token_map(self.vocab.tokens@);
            assert(merge_pairs(steps@) =~= merges@);
        }
        steps
    }
}


impl Trainer {
    /// The vocabulary being trained (the `vocab` field, for verified callers,
    /// which cannot read a field of this type directly).
    pub fn vocab(&self) -> (vocab: &Vocabulary)
        ensures
            *vocab == self.spec_vocab(),
            self.wf() ==> vocab.wf() && vocab.tokens@.len() == vocab.vocab_size,
    {
        &self.vocab
    }

    /// Give up the trainer for its vocabulary.
    pub fn into_vocab(self) -> (vocab: Vocabulary)
        requires
            self.wf(),
        ensures
            vocab == self.spec_vocab(),
            vocab.wf(),
    {
        self.vocab
    }

    /// How often each token occurs in the corpus as currently segmented
    /// (tokens that do not occur are absent).
    pub fn token_counts(&self) -> (counts: &HashMap<u32, u64>)
        requires
            self.wf(),
        ensures
            token_counts_exact(self.words_view(), counts@),
    {
        &self.token_counts
    }

    /// How often each pair of adjacent tokens occurs within the words of the
    /// corpus as currently segmented (pairs that do not occur are absent).
    pub fn bigram_counts(&self) -> (counts: HashMap<(u32, u32), u64>)
        requires
            self.wf(),
        ensures
            forall|p: (u32, u32)|
                #![trigger counts@.contains_key(p)]
                #![trigger counts@[p]]
                (counts@.contains_key(p) <==> pair_total(self.words_view(), p) > 0) && (counts@.contains_key(p)
                    ==> counts@[p] == pair_total(self.words_view(), p)),
    {
        let ghost entries = vstd::std_specs::hash::spec_hash_map_iter(&self.bigram_counts).remaining();
        let ghost ws = self.words_view();
        let mut pairs: Vec<((u32, u32), u64)> = Vec::new();
        proof {
            vstd::std_specs::hash::axiom_spec_hash_map_iter(&self.bigram_counts);
        }
        for (k, v) in it: self.bigram_counts.iter()
            invariant
                it.seq() == entries,
                pairs@.len() == it.index(),
                ws == self.words_view(),
                self.wf(),
                forall|i: int|
                    #![trigger self.bigram_counts@.contains_key(*entries[i].0)]
                    #![trigger self.bigram_counts@[*entries[i].0]]
                    0 <= i < entries.len() ==> self.bigram_counts@.contains_key(*entries[i].0)
                        && self.bigram_counts@[*entries[i].0] == *entries[i].1,
                forall|key: u64| #[trigger]
                    self.bigram_counts@.contains_key(key) ==> entries.contains(
                        (&key, &self.bigram_counts@[key]),
                    ),
                entries.no_duplicates(),
                forall|i: int|
                    0 <= i < pairs@.len() ==> #[trigger] pairs@[i] == (key_pair(*entries[i].0), *entries[i].1),
        {
            let key = *k;
            let pair = ((key / 0x1_0000_0000u64) as u32, (key % 0x1_0000_0000u64) as u32);
            proof {
                assert(pairs@.len() < entries.len());
                assert(entries[pairs@.len() as int] == (k, v));
                lemma_pair_key(key_pair(key), key);
            }
            pairs.push((pair, *v));
        }
        proof {
            assert forall|i: int, j: int| 0 <= i < j < pairs@.len() implies pairs@[i].0 != pairs@[j].0 by {
                let ki = *entries[i].0;
                let kj = *entries[j].0;
                lemma_pair_key(key_pair(ki), ki);
                lemma_pair_key(key_pair(kj), kj);
                if ki == kj {
                    assert(*entries[i].1 == self.bigram_counts@[ki]);
                    assert(*entries[j].1 == self.bigram_counts@[kj]);
                    assert(entries[i] == entries[j]);
                }
            }
        }
        let counts = collect_into_map(pairs);
        proof {
            lemma_pairs_map_lookup(pairs@);
            assert forall|p: (u32, u32)|
                (counts@.contains_key(p) <==> pair_total(ws, p) > 0) && (counts@.contains_key(p) ==> counts@[p]
                    == pair_total(ws, p)) by {
                let key = pair_key(p);
                lemma_pair_key(p, key);
                if counts@.contains_key(p) {
                    let i = choose|i: int| 0 <= i < pairs@.len() && pairs@[i].0 == p;
                    let ki = *entries[i].0;
                    lemma_pair_key(key_pair(ki), ki);
                    assert(ki == key);
                    assert(counts@[p] == pairs@[i].1);
                }
                if pair_total(ws, p) > 0 {
                    assert(self.bigram_counts@.contains_key(key));
                    assert(entries.contains((&key, &self.bigram_counts@[key])));
                    let j = choose|j: int| 0 <= j < entries.len() && entries[j] == (&key, &self.bigram_counts@[key]);
                    assert(pairs@[j].0 == p);
                }
            }
        }
        counts
    }

    /// The number of tokens the corpus takes as currently segmented.
    pub fn total_tokens(&self) -> (total: u64)
        requires
            self.wf(),
        ensures
            total == weight(self.words_view()),
    {
        self.words_weight()
    }

    /// The number of tokens the words take, counted over the words.
    fn words_weight(&self) -> (total: u64)
        requires
            self.core_wf(),
        ensures
            total == weight(self.words_view()),
    {
        let ghost ws = self.words_view();
        let mut total: u64 = 0;
        let mut w: usize = 0;
        proof {
            assert(ws.take(0) =~= Seq::<(Seq<u32>, u64)>::empty());
        }
        while w < self.words.len()
            invariant
                ws == self.words_view(),
                self.core_wf(),
                w <= ws.len(),
                total == weight(ws.take(w as int)),
            decreases ws.len() - w,
        {
            let count = self.words[w].count;
            let len = self.words[w].tokens.len();
            proof {
                assert(ws[w as int] == (self.words@[w as int].tokens@, count));
                assert(ws.take(w + 1).drop_last() =~= ws.take(w as int));
                assert(ws.take(w + 1).last() == ws[w as int]);
                lemma_weight_prefix(ws, w + 1);
                lemma_totals_nonneg(ws.take(w as int), (0, 0), 0);
                assert(count * len <= weight(ws));
            }
            total = total + count * (len as u64);
            w = w + 1;
        }
        proof {
            assert(ws.take(w as int) =~= ws);
        }
        total
    }
}

} // verus!
