use entropy_tokenizer::encoder::{Encoder, FewestTokens, SegmentScorer};
use entropy_tokenizer::stats::{collect_bigram_counts, collect_trigram_counts, collect_unigram_counts};
use entropy_tokenizer::trainer::{MergeScorer, MostFrequent, Trainer};
use std::collections::HashMap;

// ─── Scoring as the command-line tool does it ───

fn shannon_entropy(counts: &[u64]) -> f64 {
    let total: u64 = counts.iter().sum();
    if total == 0 {
        return 0.0;
    }
    let total_f = total as f64;
    let mut entropy = 0.0;
    for &c in counts {
        if c > 0 {
            let p = c as f64 / total_f;
            entropy -= p * p.log2();
        }
    }
    entropy
}

fn entropy_from_map(freq: &HashMap<u32, u64>) -> f64 {
    let counts: Vec<u64> = freq.values().copied().collect();
    shannon_entropy(&counts)
}

fn bigram_entropy(bigram_counts: &HashMap<(u32, u32), u64>) -> f64 {
    let mut left_totals: HashMap<u32, u64> = HashMap::new();
    for (&(left, _), &count) in bigram_counts {
        *left_totals.entry(left).or_insert(0) += count;
    }
    let grand_total: u64 = bigram_counts.values().sum();
    if grand_total == 0 {
        return 0.0;
    }
    let mut h = 0.0;
    for (&(left, _), &count) in bigram_counts {
        if count == 0 {
            continue;
        }
        let p_bigram = count as f64 / grand_total as f64;
        let p_cond = count as f64 / left_totals[&left] as f64;
        h -= p_bigram * p_cond.log2();
    }
    h
}

fn trigram_entropy(trigram_counts: &HashMap<(u32, u32, u32), u64>) -> f64 {
    let mut context_totals: HashMap<(u32, u32), u64> = HashMap::new();
    for (&(t0, t1, _), &count) in trigram_counts {
        *context_totals.entry((t0, t1)).or_insert(0) += count;
    }
    let grand_total: u64 = trigram_counts.values().sum();
    if grand_total == 0 {
        return 0.0;
    }
    let mut h = 0.0;
    for (&(t0, t1, _), &count) in trigram_counts {
        if count == 0 {
            continue;
        }
        let p_trigram = count as f64 / grand_total as f64;
        let p_cond = count as f64 / context_totals[&(t0, t1)] as f64;
        h -= p_trigram * p_cond.log2();
    }
    h
}

fn entropy_delta_for_merge(total: u64, left_count: u64, right_count: u64, pair_count: u64) -> f64 {
    if total == 0 {
        return 0.0;
    }
    let n = total as f64;
    let pc = pair_count as f64;
    let left_count = left_count as f64;
    let right_count = right_count as f64;
    let new_n = n - pc;
    if new_n <= 0.0 {
        return 0.0;
    }
    let h = |count: f64, tot: f64| -> f64 {
        if count <= 0.0 || tot <= 0.0 {
            0.0
        } else {
            let p = count / tot;
            -p * p.log2()
        }
    };
    (h(left_count - pc, new_n) + h(right_count - pc, new_n) + h(pc, new_n))
        - (h(left_count, n) + h(right_count, n))
}

struct EntropyMerges;

impl MergeScorer for EntropyMerges {
    type Score = f64;

    fn spec_score(&self, total: u64, lc: u64, rc: u64, l: u32, r: u32, pc: u64, next: u32, phase: u8) -> f64 {
        self.score(total, lc, rc, l, r, pc, next, phase)
    }

    fn spec_improves(&self, candidate: f64, best: f64) -> bool {
        self.improves(&candidate, &best)
    }

    fn score(
        &self,
        total_tokens: u64,
        left_count: u64,
        right_count: u64,
        _left_id: u32,
        _right_id: u32,
        pair_count: u64,
        _next_id: u32,
        phase: u8,
    ) -> f64 {
        let freq = pair_count as f64;
        let delta = entropy_delta_for_merge(total_tokens, left_count, right_count, pair_count);
        if phase == 0 {
            freq + 0.05 * delta.max(0.0) * freq.sqrt()
        } else {
            freq.powf(0.8) * (1.0 + 0.5 * delta)
        }
    }

    fn improves(&self, candidate: &f64, best: &f64) -> bool {
        *candidate > *best
    }
}

struct ContextScores {
    log_probs: Vec<f64>,
    bigram_log_probs: HashMap<(u32, u32), f64>,
    context_weight: f64,
}

impl SegmentScorer for ContextScores {
    type Score = f64;

    fn spec_initial(&self) -> f64 {
        self.initial()
    }

    fn spec_extend(&self, score: f64, prev: Option<u32>, token: u32) -> f64 {
        self.extend(&score, prev, token)
    }

    fn spec_improves(&self, candidate: f64, current: f64) -> bool {
        self.improves(&candidate, &current)
    }

    fn initial(&self) -> f64 {
        0.0
    }

    fn extend(&self, score: &f64, prev: Option<u32>, token: u32) -> f64 {
        let bonus = match prev {
            Some(p) => self.bigram_log_probs.get(&(p, token)).copied().unwrap_or(-10.0),
            None => 0.0,
        };
        score + self.log_probs[token as usize] + self.context_weight * bonus
    }

    fn improves(&self, candidate: &f64, current: &f64) -> bool {
        *candidate > *current
    }
}

fn context_scores(trainer: &Trainer, context_weight: f64) -> ContextScores {
    let counts = trainer.token_counts();
    let total: u64 = counts.values().sum();
    let n = trainer.vocab.tokens.len();
    let mut log_probs = vec![0.0; n];
    if total > 0 {
        for id in 0..n {
            let c = counts.get(&(id as u32)).copied().unwrap_or(0);
            log_probs[id] = if c > 0 { (c as f64 / total as f64).ln() } else { (0.5 / total as f64).ln() };
        }
    }
    let bigrams = trainer.bigram_counts();
    let mut left_totals: HashMap<u32, u64> = HashMap::new();
    for (&(l, _), &c) in &bigrams {
        *left_totals.entry(l).or_insert(0) += c;
    }
    let mut bigram_log_probs = HashMap::new();
    for (&(l, r), &c) in &bigrams {
        bigram_log_probs.insert((l, r), (c as f64 / left_totals[&l] as f64).ln());
    }
    ContextScores { log_probs, bigram_log_probs, context_weight }
}

fn train_encoder(corpus: &[u8], vocab_size: usize) -> (Encoder, ContextScores) {
    let mut trainer = Trainer::new(corpus);
    trainer.train(vocab_size, &EntropyMerges);
    let scores = context_scores(&trainer, 0.3);
    let vocab = trainer.into_vocab();
    (Encoder::new(vocab), scores)
}

fn corpus_stats(trainer: &Trainer) -> (u64, f64, f64) {
    let total = trainer.total_tokens();
    (total, entropy_from_map(trainer.token_counts()), bigram_entropy(&trainer.bigram_counts()))
}

fn repeat(piece: &[u8], times: usize) -> Vec<u8> {
    let mut out = Vec::new();
    for _ in 0..times {
        out.extend_from_slice(piece);
    }
    out
}

// ─── Encoder ───

fn make_encoder() -> (Encoder, ContextScores) {
    train_encoder(b"hello hello hello world world hello world", 270)
}

#[test]
fn test_encode_decode_roundtrip() {
    let (encoder, scores) = make_encoder();
    let input = b"hello world";
    let tokens = encoder.encode(input, &scores);
    let decoded = encoder.decode(&tokens);
    assert_eq!(decoded, input);
}

#[test]
fn test_greedy_encode_decode_roundtrip() {
    let (encoder, _) = make_encoder();
    let input = b"hello world";
    let tokens = encoder.encode_greedy(input);
    let decoded = encoder.decode(&tokens);
    assert_eq!(decoded, input);
}

#[test]
fn test_dp_fewer_or_equal_tokens_than_greedy() {
    let (encoder, scores) = make_encoder();
    let input = b"hello hello world hello";
    let dp_tokens = encoder.encode(input, &scores);
    let greedy_tokens = encoder.encode_greedy(input);
    assert!(dp_tokens.len() <= greedy_tokens.len() + 1);
    assert_eq!(encoder.decode(&dp_tokens), input);
    assert_eq!(encoder.decode(&greedy_tokens), input);
}

#[test]
fn test_empty_input() {
    let (encoder, scores) = make_encoder();
    let tokens = encoder.encode(b"", &scores);
    assert!(tokens.is_empty());
}

#[test]
fn test_single_byte() {
    let (encoder, scores) = make_encoder();
    let tokens = encoder.encode(b"x", &scores);
    assert_eq!(tokens.len(), 1);
    assert_eq!(encoder.decode(&tokens), b"x");
}

// ─── Trainer ───

#[test]
fn test_trainer_basic() {
    let corpus = b"aaabbbaaabbb";
    let mut trainer = Trainer::new(corpus);
    assert_eq!(trainer.vocab.vocab_size, 256);
    trainer.train(258, &EntropyMerges);
    assert!(trainer.vocab.vocab_size >= 257);
}

#[test]
fn test_trainer_merge_reduces_tokens() {
    let corpus = b"abababababababababab";
    let mut trainer = Trainer::new(corpus);
    let (tokens_before, _, _) = corpus_stats(&trainer);
    trainer.train(257, &EntropyMerges);
    let (tokens_after, _, _) = corpus_stats(&trainer);
    assert!(tokens_after < tokens_before);
}

#[test]
fn test_trainer_entropy_tracked() {
    let corpus = b"the quick brown fox jumps over the lazy dog";
    let mut trainer = Trainer::new(corpus);
    let (_, entropy_before, _) = corpus_stats(&trainer);
    assert!(entropy_before > 0.0);
    trainer.train(270, &EntropyMerges);
    let (_, entropy_after, _) = corpus_stats(&trainer);
    assert!(entropy_after > 0.0);
}

// ─── Roundtrip ───

#[test]
fn test_roundtrip_ascii() {
    let (encoder, scores) = train_encoder(b"hello world hello world hello", 280);
    let input = b"hello world";
    let tokens = encoder.encode(input, &scores);
    assert_eq!(encoder.decode(&tokens), input);
}

#[test]
fn test_roundtrip_utf8_multibyte() {
    let corpus = "Привет мир Привет мир Привет".as_bytes();
    let (encoder, scores) = train_encoder(corpus, 300);
    let input = "Привет мир".as_bytes();
    let tokens = encoder.encode(input, &scores);
    assert_eq!(encoder.decode(&tokens), input);
}

#[test]
fn test_roundtrip_binary_bytes() {
    let mut corpus: Vec<u8> = Vec::new();
    for _ in 0..100 {
        for b in 0u8..=255 {
            corpus.push(b);
        }
    }
    let (encoder, scores) = train_encoder(&corpus, 280);
    let input: Vec<u8> = (0u8..=255).collect();
    let tokens = encoder.encode(&input, &scores);
    assert_eq!(encoder.decode(&tokens), input);
}

#[test]
fn test_roundtrip_empty() {
    let (encoder, scores) = train_encoder(b"hello world", 260);
    let tokens = encoder.encode(b"", &scores);
    assert!(tokens.is_empty());
    assert_eq!(encoder.decode(&tokens), b"");
}

#[test]
fn test_roundtrip_single_byte() {
    let (encoder, scores) = train_encoder(b"abcabc", 260);
    for b in 0u8..=255 {
        let input = [b];
        let tokens = encoder.encode(&input, &scores);
        assert_eq!(encoder.decode(&tokens), &input);
    }
}

#[test]
fn test_roundtrip_greedy() {
    let (encoder, _) = train_encoder(b"the quick brown fox jumps over the lazy dog", 280);
    let input = b"the quick brown fox";
    let tokens = encoder.encode_greedy(input);
    assert_eq!(encoder.decode(&tokens), input);
}

#[test]
fn test_roundtrip_long_text() {
    let long_corpus = repeat(b"the quick brown fox jumps over the lazy dog ", 500);
    let (encoder, scores) = train_encoder(&long_corpus, 512);
    let tokens = encoder.encode(&long_corpus, &scores);
    assert_eq!(encoder.decode(&tokens), long_corpus);
}

#[test]
fn test_dp_never_worse_than_greedy() {
    let corpus = b"abcdefg abcdefg abcdefg hello world hello world test test test";
    let (encoder, scores) = train_encoder(corpus, 280);
    let inputs: Vec<&[u8]> = vec![
        b"abcdefg hello world",
        b"test test abcdefg",
        b"hello world test",
        b"abcdefg abcdefg abcdefg",
    ];
    for input in inputs {
        let dp = encoder.encode(input, &scores);
        let greedy = encoder.encode_greedy(input);
        assert!(
            dp.len() <= greedy.len() + 1,
            "DP ({}) should be <= greedy ({}) +1 for {:?}",
            dp.len(),
            greedy.len(),
            String::from_utf8_lossy(input)
        );
        assert_eq!(encoder.decode(&dp), input);
        assert_eq!(encoder.decode(&greedy), input);
    }
}

// ─── Training ───

#[test]
fn test_training_increases_vocab_size() {
    let corpus = b"aaabbbcccaaabbbcccaaabbbccc";
    let mut trainer = Trainer::new(corpus);
    assert_eq!(trainer.vocab.vocab_size, 256);
    trainer.train(260, &EntropyMerges);
    assert!(trainer.vocab.vocab_size >= 258); // at least 2 merges
}

#[test]
fn test_training_respects_target_size() {
    let big_corpus = repeat(b"the quick brown fox jumps over the lazy dog ", 100);
    let mut trainer = Trainer::new(&big_corpus);
    trainer.train(280, &EntropyMerges);
    assert!(trainer.vocab.vocab_size <= 280, "vocab_size={} should be <= 280", trainer.vocab.vocab_size);
    assert!(
        trainer.vocab.vocab_size > 256,
        "vocab_size={} should be > 256 (some merges happened)",
        trainer.vocab.vocab_size
    );
}

#[test]
fn test_training_improves_compression() {
    let corpus = b"abababababababababababababababababababababab";
    let mut trainer = Trainer::new(corpus);
    let (tokens_before, _, _) = corpus_stats(&trainer);
    trainer.train(260, &EntropyMerges);
    let (tokens_after, _, _) = corpus_stats(&trainer);
    assert!(
        tokens_after < tokens_before,
        "tokens_after={} should be < tokens_before={}",
        tokens_after,
        tokens_before
    );
}

#[test]
fn test_training_entropy_positive() {
    let corpus = b"the quick brown fox jumps over the lazy dog";
    let mut trainer = Trainer::new(corpus);
    trainer.train(270, &EntropyMerges);
    let (_, entropy, bigram_h) = corpus_stats(&trainer);
    assert!(entropy > 0.0, "entropy should be positive: {}", entropy);
    assert!(bigram_h > 0.0, "bigram entropy should be positive: {}", bigram_h);
}

// ─── Edge cases ───

#[test]
fn test_all_same_bytes() {
    let corpus = vec![b'a'; 1000];
    let (encoder, scores) = train_encoder(&corpus, 260);
    let tokens = encoder.encode(&corpus, &scores);
    assert_eq!(encoder.decode(&tokens), corpus);
}

#[test]
fn test_alternating_bytes() {
    let corpus = repeat(b"ab", 500);
    let (encoder, scores) = train_encoder(&corpus, 260);
    let tokens = encoder.encode(&corpus, &scores);
    assert_eq!(encoder.decode(&tokens), corpus);
    assert!(tokens.len() < corpus.len());
}

#[test]
fn test_whitespace_heavy() {
    let big_corpus = repeat(b"  a  b  c  a  b  c  a  b  c  ", 100);
    let (encoder, scores) = train_encoder(&big_corpus, 280);
    let tokens = encoder.encode(&big_corpus, &scores);
    assert_eq!(encoder.decode(&tokens), big_corpus);
}

#[test]
fn test_newlines_and_tabs() {
    let big_corpus = repeat(b"line1\nline2\nline3\ttab1\ttab2\r\nwindows\r\n", 100);
    let (encoder, scores) = train_encoder(&big_corpus, 280);
    let tokens = encoder.encode(&big_corpus, &scores);
    assert_eq!(encoder.decode(&tokens), big_corpus);
}

#[test]
fn test_large_vocab() {
    let big_corpus = repeat(b"the quick brown fox jumps over the lazy dog ", 200);
    let (encoder, scores) = train_encoder(&big_corpus, 1024);
    let tokens = encoder.encode(&big_corpus, &scores);
    assert_eq!(encoder.decode(&tokens), big_corpus);
    let density = big_corpus.len() as f64 / tokens.len() as f64;
    assert!(density > 1.5, "density should be > 1.5 with 1024 vocab, got {}", density);
}

#[test]
fn test_encode_unseen_text() {
    let (encoder, scores) = train_encoder(b"hello world hello world", 270);
    let input = b"xyz 123 !@#";
    let tokens = encoder.encode(input, &scores);
    assert_eq!(encoder.decode(&tokens), input);
}

#[test]
fn test_decode_to_string() {
    let (encoder, scores) = train_encoder(b"hello world hello world", 270);
    let tokens = encoder.encode(b"hello", &scores);
    let s = encoder.decode_to_string(&tokens);
    assert_eq!(s, "hello");
}

// ─── Dense encoding ───

#[test]
fn test_dense_encoding_roundtrip() {
    let big_corpus = repeat(b"the quick brown fox jumps over the lazy dog ", 100);
    let (encoder, _) = train_encoder(&big_corpus, 512);
    let tokens = encoder.encode_dense(&big_corpus);
    assert_eq!(encoder.decode(&tokens), big_corpus);
}

#[test]
fn test_dense_fewer_or_equal_tokens_than_greedy() {
    let big_corpus = repeat(b"abcdefg abcdefg abcdefg hello world hello world test test test", 100);
    let (encoder, _) = train_encoder(&big_corpus, 300);
    let dense = encoder.encode_dense(&big_corpus);
    let greedy = encoder.encode_greedy(&big_corpus);
    assert!(dense.len() <= greedy.len(), "dense ({}) should be <= greedy ({})", dense.len(), greedy.len());
    assert_eq!(encoder.decode(&dense), big_corpus);
}

// ─── Entropy of encodings ───

#[test]
fn test_h1_unigram_entropy_positive() {
    let big_corpus = repeat(b"the quick brown fox jumps over the lazy dog ", 100);
    let (encoder, scores) = train_encoder(&big_corpus, 512);
    let tokens = encoder.encode(&big_corpus, &scores);
    let h1 = entropy_from_map(&collect_unigram_counts(&tokens));
    assert!(h1 > 0.0, "H1 unigram entropy should be positive, got {}", h1);
    assert!(h1 < 20.0, "H1 should be bounded, got {}", h1);
}

#[test]
fn test_h2_bigram_entropy_positive() {
    let big_corpus = repeat(b"the quick brown fox jumps over the lazy dog ", 100);
    let (encoder, scores) = train_encoder(&big_corpus, 512);
    let tokens = encoder.encode(&big_corpus, &scores);
    let h2 = bigram_entropy(&collect_bigram_counts(&tokens));
    assert!(h2 > 0.0, "H2 bigram entropy should be positive, got {}", h2);
}

#[test]
fn test_h3_trigram_entropy_positive() {
    let big_corpus = repeat(b"the quick brown fox jumps over the lazy dog ", 100);
    let (encoder, scores) = train_encoder(&big_corpus, 512);
    let tokens = encoder.encode(&big_corpus, &scores);
    let h3 = trigram_entropy(&collect_trigram_counts(&tokens));
    assert!(h3 > 0.0, "H3 trigram entropy should be positive, got {}", h3);
}

#[test]
fn integration_tests_test_entropy_hierarchy_h1_ge_h2_ge_h3() {
    let big_corpus = repeat(b"the quick brown fox jumps over the lazy dog ", 200);
    let (encoder, scores) = train_encoder(&big_corpus, 512);
    let tokens = encoder.encode(&big_corpus, &scores);
    let h1 = entropy_from_map(&collect_unigram_counts(&tokens));
    let h2 = bigram_entropy(&collect_bigram_counts(&tokens));
    let h3 = trigram_entropy(&collect_trigram_counts(&tokens));
    assert!(h1 >= h2, "H1 ({:.4}) should be >= H2 ({:.4}): conditioning reduces entropy", h1, h2);
    assert!(h2 >= h3, "H2 ({:.4}) should be >= H3 ({:.4}): more context reduces entropy", h2, h3);
}

#[test]
fn stats_test_entropy_hierarchy_h1_ge_h2_ge_h3() {
    let tokens: Vec<u32> = "hello world hello world foo bar".bytes().map(|b| b as u32).collect();
    let h1 = entropy_from_map(&collect_unigram_counts(&tokens));
    let h2 = bigram_entropy(&collect_bigram_counts(&tokens));
    let _h3 = trigram_entropy(&collect_trigram_counts(&tokens));
    assert!(h1 >= h2, "H1 ({h1}) should be >= H2 ({h2})");
}

#[test]
fn test_entropy_decreases_with_larger_vocab() {
    let big_corpus = repeat(b"the quick brown fox jumps over the lazy dog ", 200);
    let (encoder_small, scores_small) = train_encoder(&big_corpus, 280);
    let (encoder_large, scores_large) = train_encoder(&big_corpus, 512);
    let tokens_small = encoder_small.encode(&big_corpus, &scores_small);
    let tokens_large = encoder_large.encode(&big_corpus, &scores_large);
    assert!(
        tokens_large.len() <= tokens_small.len(),
        "larger vocab ({}) should produce <= tokens than smaller vocab ({})",
        tokens_large.len(),
        tokens_small.len()
    );
}

// ─── Exact behaviour on small vocabularies ───

/// Byte-level vocabulary plus "ab" (256), "bc" (257) and "bcd" (258).
fn small_encoder() -> Encoder {
    let mut vocab = entropy_tokenizer::vocab::Vocabulary::new_byte_level();
    let ab = vocab.add_merge(b'a' as u32, b'b' as u32);
    let bc = vocab.add_merge(b'b' as u32, b'c' as u32);
    let bcd = vocab.add_merge(bc, b'd' as u32);
    assert_eq!((ab, bc, bcd), (256, 257, 258));
    Encoder::new(vocab)
}

#[test]
fn greedy_takes_longest_prefix_each_time() {
    let encoder = small_encoder();
    assert_eq!(encoder.encode_greedy(b"abcd"), vec![256, 99, 100]);
    assert_eq!(encoder.encode_greedy(b"bcdab"), vec![258, 256]);
    assert_eq!(encoder.encode_greedy(b""), Vec::<u32>::new());
}

#[test]
fn dense_finds_fewest_tokens() {
    let encoder = small_encoder();
    let dense = encoder.encode_dense(b"abcd");
    assert_eq!(dense, vec![97, 258]);
    assert!(dense.len() < encoder.encode_greedy(b"abcd").len());
    assert_eq!(encoder.encode_dense(b"").len(), 0);
    assert_eq!(encoder.encode_dense(b"zz"), vec![122, 122]);
}

#[test]
fn scored_encoding_follows_the_scores() {
    let encoder = small_encoder();
    let mut probs = vec![-1.0; 259];
    probs[256] = -100.0; // "ab" is very unlikely
    let scores = ContextScores { log_probs: probs, bigram_log_probs: HashMap::new(), context_weight: 0.0 };
    let tokens = encoder.encode(b"abcd", &scores);
    assert_eq!(tokens, vec![97, 258]);
    let mut probs = vec![-1.0; 259];
    probs[257] = -100.0; // "bc" and "bcd" are very unlikely
    probs[258] = -100.0;
    let scores = ContextScores { log_probs: probs, bigram_log_probs: HashMap::new(), context_weight: 0.0 };
    assert_eq!(encoder.encode(b"abcd", &scores), vec![256, 99, 100]);
}

#[test]
fn offsets_tile_the_decoded_bytes() {
    let encoder = small_encoder();
    let tokens = vec![97, 258, 256, 120];
    let offsets = encoder.token_offsets(&tokens);
    assert_eq!(offsets, vec![(0, 1), (1, 4), (4, 6), (6, 7)]);
    let bytes = encoder.decode(&tokens);
    assert_eq!(bytes, b"abcdabx");
    for (i, &(s, e)) in offsets.iter().enumerate() {
        assert_eq!(&bytes[s..e], encoder.vocab().get_bytes(tokens[i]));
    }
    assert!(encoder.token_offsets(&[]).is_empty());
}

#[test]
fn decode_to_string_replaces_invalid_utf8() {
    let encoder = small_encoder();
    assert_eq!(encoder.decode_to_string(&[0xff, 104, 105]), "\u{FFFD}hi");
    assert_eq!(encoder.decode_to_string(&[0xd0, 0x9f]), "П");
    assert_eq!(encoder.decode_to_string(&[]), "");
}

#[test]
fn training_merges_most_frequent_pairs_in_turn() {
    let mut trainer = Trainer::new(b"abababab");
    assert_eq!(trainer.total_tokens(), 8);
    let steps = trainer.train(300, &MostFrequent);
    let merges: Vec<(u32, u32)> = steps.iter().map(|s| s.pair).collect();
    assert_eq!(merges, vec![(97, 98), (256, 256)]);
    // "ab" four times, then three adjacent (256, 256) pairs, merged left to right
    assert_eq!((steps[0].count, steps[0].score, steps[0].total_tokens), (4, 4, 4));
    assert_eq!((steps[1].count, steps[1].score, steps[1].total_tokens), (3, 3, 2));
    assert_eq!(trainer.vocab.vocab_size, 258);
    assert_eq!(trainer.vocab.get_bytes(257), b"abab");
    assert_eq!(trainer.vocab.tokens[257].merge_pair, Some((256, 256)));
    assert_eq!(trainer.total_tokens(), 2);
    assert_eq!(trainer.token_counts()[&257], 2);
    assert_eq!(trainer.token_counts().len(), 1);
    // stopped early: no pair occurs twice any more
    assert!(trainer.bigram_counts().values().all(|&c| c < 2));
}

#[test]
fn training_stops_at_target() {
    let mut trainer = Trainer::new(b"abababab");
    let steps = trainer.train(257, &MostFrequent);
    assert_eq!(steps.len(), 1);
    assert_eq!(steps[0].pair, (97, 98));
    assert_eq!(trainer.vocab.vocab_size, 257);
    assert_eq!(trainer.total_tokens(), 4);
    let steps = trainer.train(200, &MostFrequent);
    assert!(steps.is_empty());
    assert_eq!(trainer.vocab.vocab_size, 257);
}

#[test]
fn trainer_counts_words_with_leading_whitespace() {
    let trainer = Trainer::new(b"ab ab\nab");
    // words: "ab", " ab", "\nab"
    assert_eq!(trainer.total_tokens(), 8);
    let counts = trainer.token_counts();
    assert_eq!(counts[&97], 3);
    assert_eq!(counts[&32], 1);
    assert_eq!(counts[&10], 1);
    let bigrams = trainer.bigram_counts();
    assert_eq!(bigrams[&(97, 98)], 3);
    assert_eq!(bigrams[&(32, 97)], 1);
    assert_eq!(bigrams[&(10, 97)], 1);
    // no pair across words
    assert!(!bigrams.contains_key(&(98, 32)));
    assert_eq!(bigrams.len(), 3);
}

#[test]
fn training_keeps_the_corpus_spelled() {
    let corpus = b"the cat sat on the mat; the cat sat";
    let mut trainer = Trainer::new(corpus);
    let before = trainer.total_tokens();
    let steps = trainer.train(280, &MostFrequent);
    let merges: Vec<(u32, u32)> = steps.iter().map(|s| s.pair).collect();
    assert!(!merges.is_empty());
    // each step leaves fewer tokens than the one before
    let mut prev = before;
    for s in &steps {
        assert!(s.count >= 2);
        assert!(s.total_tokens < prev);
        prev = s.total_tokens;
    }
    assert_eq!(prev, trainer.total_tokens());
    assert!(trainer.total_tokens() + (merges.len() as u64) <= before);
    let vocab = trainer.into_vocab();
    for (i, &(l, r)) in merges.iter().enumerate() {
        let id = 256 + i as u32;
        assert!(l < id && r < id);
        let mut joined = vocab.get_bytes(l).to_vec();
        joined.extend_from_slice(vocab.get_bytes(r));
        assert_eq!(vocab.get_bytes(id), &joined[..]);
    }
    let encoder = Encoder::new(vocab);
    let tokens = encoder.encode_greedy(corpus);
    assert_eq!(encoder.decode(&tokens), corpus);
}

#[test]
fn empty_corpus_trains_nothing() {
    let mut trainer = Trainer::new(b"");
    assert_eq!(trainer.total_tokens(), 0);
    assert!(trainer.token_counts().is_empty());
    let steps = trainer.train(1000, &MostFrequent);
    assert!(steps.is_empty());
    assert_eq!(trainer.vocab.vocab_size, 256);
}

#[test]
fn merged_tokens_keep_whitespace_in_the_lead() {
    let corpus = b"the cat sat on the mat\nthe cat\tsat  on\r\nthe mat";
    let mut trainer = Trainer::new(corpus);
    trainer.train(300, &MostFrequent);
    trainer.train(320, &MostFrequent);
    let vocab = trainer.into_vocab();
    assert!(vocab.tokens.len() > 256);
    for t in &vocab.tokens[256..] {
        assert!(t.bytes[1..].iter().all(|&b| b != b' ' && b != b'\n' && b != b'\t' && b != b'\r'));
        assert!(vocab.lookup(&t.bytes).is_some());
    }
}

#[test]
fn scored_encoding_with_fewest_tokens_is_shortest() {
    let encoder = small_encoder();
    assert_eq!(encoder.encode(b"abcd", &FewestTokens), vec![97, 258]);
    let corpus = repeat(b"abcdefg abcdefg hello world ", 20);
    let (encoder, _) = train_encoder(&corpus, 300);
    let scored = encoder.encode(&corpus, &FewestTokens);
    assert_eq!(encoder.decode(&scored), corpus);
    assert_eq!(scored.len(), encoder.encode_dense(&corpus).len());
}

#[test]
fn most_frequent_merges_the_commonest_pair() {
    // "ab" occurs 4 times; every other pair at most once
    let mut trainer = Trainer::new(b"abcabab ab");
    let steps = trainer.train(257, &MostFrequent);
    assert_eq!(steps.len(), 1);
    assert_eq!((steps[0].pair, steps[0].count, steps[0].score), ((97, 98), 4, 4));
}
