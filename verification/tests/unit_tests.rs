use entropy_tokenizer::filters::{
    FilterPipeline, LowercaseAscii, NormalizeWhitespace, PreTokenFilter, StripNonPrintable,
};
use entropy_tokenizer::encoder::{Encoder, FewestTokens};
use entropy_tokenizer::micromodel::{next_seed, param_count, training_sequences};
use entropy_tokenizer::stats::{collect_bigram_counts, collect_trigram_counts, collect_unigram_counts};
use entropy_tokenizer::trie::Trie;
use entropy_tokenizer::vocab::{Token, Vocabulary};

// ─── Filters ───

#[test]
fn test_normalize_whitespace() {
    let f = NormalizeWhitespace;
    assert_eq!(f.apply(b"hello   world"), b"hello world");
    assert_eq!(f.apply(b"a\t\tb"), b"a b");
}

#[test]
fn test_lowercase_ascii() {
    let f = LowercaseAscii;
    assert_eq!(f.apply(b"Hello WORLD"), b"hello world");
    assert_eq!(f.apply(b"123"), b"123");
}

#[test]
fn test_strip_non_printable() {
    let f = StripNonPrintable;
    assert_eq!(f.apply(b"hello\x00world\x01!"), b"helloworld!");
    assert_eq!(f.apply(b"keep\nnewlines\ttabs"), b"keep\nnewlines\ttabs");
}

#[test]
fn test_pipeline() {
    let mut pipeline = FilterPipeline::new();
    pipeline.add(Box::new(LowercaseAscii));
    pipeline.add(Box::new(NormalizeWhitespace));
    assert_eq!(pipeline.apply(b"Hello   WORLD"), b"hello world");
    assert_eq!(pipeline.filter_names(), vec!["lowercase_ascii", "normalize_whitespace"]);
}

#[test]
fn test_empty_pipeline() {
    let pipeline = FilterPipeline::new();
    assert!(pipeline.is_empty());
    assert_eq!(pipeline.apply(b"unchanged"), b"unchanged");
}

#[test]
fn normalize_whitespace_edges() {
    let f = NormalizeWhitespace;
    assert_eq!(f.apply(b""), b"");
    assert_eq!(f.apply(b"   "), b" ");
    assert_eq!(f.apply(b"\r\n\t x"), b" \n x");
    assert_eq!(f.apply(b"\x0b\x0cy"), b" y");
    assert_eq!(f.apply(b"a b"), b"a b");
    assert_eq!(f.name(), "normalize_whitespace");
}

#[test]
fn normalize_unicode_whitespace() {
    let f = NormalizeWhitespace;
    assert_eq!(f.apply("a\u{3000}b".as_bytes()), b"a b");
    assert_eq!(f.apply("a \u{a0}\u{2003}\tb".as_bytes()), b"a b");
    assert_eq!(f.apply("x\u{85}y\u{1680}z\u{2028}w\u{2029}v\u{202f}u\u{205f}t\u{200a}s".as_bytes()), b"x y z w v u t s");
    assert_eq!(f.apply("\u{2000}".as_bytes()), b" ");
    // newline stays; other characters and stray bytes pass through
    assert_eq!(f.apply("a\u{3000}\n\u{3000}b".as_bytes()), b"a \n b");
    assert_eq!(f.apply("\u{e9}\u{2010}".as_bytes()), "\u{e9}\u{2010}".as_bytes());
    assert_eq!(f.apply(b"\xc2x\xe2\x80"), b"\xc2x\xe2\x80");
}

#[test]
fn normalize_is_idempotent_and_never_longer() {
    let f = NormalizeWhitespace;
    let inputs: Vec<&[u8]> = vec![
        b"  a \t\r b\x0b\x0cc  ",
        "x\u{a0}\u{3000} y\n\u{2028}z".as_bytes(),
        b"\xc2\xc2\xa0\xe3\x80 \x80",
        b"",
    ];
    for input in inputs {
        let once = f.apply(input);
        assert!(once.len() <= input.len());
        assert!(!once.windows(2).any(|w| w == b"  "));
        assert_eq!(f.apply(&once), once);
    }
}

#[test]
fn lowercase_and_strip_edges() {
    assert_eq!(LowercaseAscii.apply(b"AZaz@[`{"), b"azaz@[`{");
    assert_eq!(LowercaseAscii.apply(&[0xC3u8, 0x89]), vec![0xC3u8, 0x89]);
    assert_eq!(StripNonPrintable.apply(b"\x7f\x1f\r ok\x80\xff~"), b" ok~");
    assert_eq!(StripNonPrintable.apply("caf\u{e9}".as_bytes()), b"caf");
    assert_eq!(StripNonPrintable.name(), "strip_non_printable");
    assert_eq!(LowercaseAscii.name(), "lowercase_ascii");
}

#[test]
fn pipeline_runs_filters_in_order() {
    // stripping first joins the words; normalizing first keeps a space
    let mut strip_first = FilterPipeline::default();
    strip_first.add(Box::new(StripNonPrintable));
    strip_first.add(Box::new(NormalizeWhitespace));
    assert_eq!(strip_first.apply(b"a\x00\x00 \x01 b"), b"a b");
    assert!(!strip_first.is_empty());
    let mut lower_only = FilterPipeline::new();
    lower_only.add(Box::new(LowercaseAscii));
    assert_eq!(lower_only.apply(b"ABC  D"), b"abc  d");
    assert_eq!(lower_only.filter_names(), vec!["lowercase_ascii"]);
}

// ─── Counting ───

#[test]
fn test_collect_unigram_counts() {
    let tokens = vec![0, 1, 0, 1, 0];
    let counts = collect_unigram_counts(&tokens);
    assert_eq!(counts[&0], 3);
    assert_eq!(counts[&1], 2);
}

#[test]
fn test_collect_bigram_counts() {
    let tokens = vec![0, 1, 0, 1, 0];
    let counts = collect_bigram_counts(&tokens);
    assert_eq!(counts[&(0, 1)], 2);
    assert_eq!(counts[&(1, 0)], 2);
}

#[test]
fn test_collect_trigram_counts() {
    let tokens = vec![0, 1, 2, 0, 1, 2];
    let counts = collect_trigram_counts(&tokens);
    assert_eq!(counts[&(0, 1, 2)], 2);
    assert_eq!(counts[&(1, 2, 0)], 1);
    assert_eq!(counts[&(2, 0, 1)], 1);
}

#[test]
fn counts_of_short_sequences() {
    let empty: Vec<u32> = vec![];
    assert!(collect_unigram_counts(&empty).is_empty());
    assert!(collect_bigram_counts(&[7]).is_empty());
    assert!(collect_trigram_counts(&[7, 8]).is_empty());
    let bi = collect_bigram_counts(&[7, 8]);
    assert_eq!(bi.len(), 1);
    assert_eq!(bi[&(7, 8)], 1);
    let tri = collect_trigram_counts(&[5, 5, 5, 5]);
    assert_eq!(tri.len(), 1);
    assert_eq!(tri[&(5, 5, 5)], 2);
}

#[test]
fn unigram_counts_sum_to_length() {
    let tokens: Vec<u32> = b"mississippi".iter().map(|&b| b as u32).collect();
    let counts = collect_unigram_counts(&tokens);
    let total: u64 = counts.values().sum();
    assert_eq!(total, tokens.len() as u64);
    assert_eq!(counts[&(b's' as u32)], 4);
    assert_eq!(counts[&(b'm' as u32)], 1);
    let bi = collect_bigram_counts(&tokens);
    let bi_total: u64 = bi.values().sum();
    assert_eq!(bi_total, tokens.len() as u64 - 1);
    assert_eq!(bi[&(b's' as u32, b's' as u32)], 2);
}

// ─── Trie ───

#[test]
fn test_trie_insert_and_find() {
    let tokens: Vec<(u32, &[u8])> = vec![(0, b"h"), (1, b"he"), (2, b"hel"), (3, b"hello"), (4, b"e")];
    let trie = Trie::from_vocab(&tokens);

    let input = b"hello world";
    let matches = trie.find_matches(input, 0);
    assert_eq!(matches, vec![(0, 1), (1, 2), (2, 3), (3, 5)]);

    let matches = trie.find_matches(input, 1);
    assert_eq!(matches, vec![(4, 1)]);
}

#[test]
fn test_trie_no_match() {
    let tokens: Vec<(u32, &[u8])> = vec![(0, b"x")];
    let trie = Trie::from_vocab(&tokens);
    let matches = trie.find_matches(b"abc", 0);
    assert!(matches.is_empty());
}

#[test]
fn test_trie_single_byte() {
    let mut trie = Trie::new();
    for b in 0u16..256u16 {
        trie.insert(&[b as u8], b as u32);
    }
    let matches = trie.find_matches(b"A", 0);
    assert_eq!(matches, vec![(65, 1)]);
}

#[test]
fn trie_get_after_insert() {
    let mut trie = Trie::default();
    assert_eq!(trie.get(b"ab"), None);
    trie.insert(b"ab", 7);
    assert_eq!(trie.get(b"ab"), Some(7));
    assert_eq!(trie.get(b"a"), None);
    trie.insert(b"ab", 9);
    assert_eq!(trie.get(b"ab"), Some(9));
    assert_eq!(trie.find_matches(b"abab", 2), vec![(9, 2)]);
    assert_eq!(trie.find_matches(b"abab", 4), vec![]);
}

#[test]
fn trie_insert_sets_one_match() {
    let tokens: Vec<(u32, &[u8])> = vec![(1, b"a"), (3, b"abc")];
    let mut trie = Trie::from_vocab(&tokens);
    assert_eq!(trie.find_matches(b"abcd", 0), vec![(1, 1), (3, 3)]);
    trie.insert(b"ab", 2);
    assert_eq!(trie.find_matches(b"abcd", 0), vec![(1, 1), (2, 2), (3, 3)]);
    trie.insert(b"abc", 9);
    assert_eq!(trie.find_matches(b"abcd", 0), vec![(1, 1), (2, 2), (9, 3)]);
    trie.insert(b"x", 5);
    assert_eq!(trie.find_matches(b"abcd", 0), vec![(1, 1), (2, 2), (9, 3)]);
    trie.insert(b"abcde", 7);
    assert_eq!(trie.find_matches(b"abcd", 0), vec![(1, 1), (2, 2), (9, 3)]);
}

#[test]
fn trie_later_entry_wins() {
    let tokens: Vec<(u32, &[u8])> = vec![(1, b"ab"), (2, b"ab"), (3, b"abc")];
    let trie = Trie::from_vocab(&tokens);
    assert_eq!(trie.find_matches(b"abcd", 0), vec![(2, 2), (3, 3)]);
    assert_eq!(trie.get(b"ab"), Some(2));
}

// ─── Vocabulary ───

#[test]
fn test_byte_level_vocab() {
    let vocab = Vocabulary::new_byte_level();
    assert_eq!(vocab.vocab_size, 256);
    assert_eq!(vocab.tokens.len(), 256);
    assert_eq!(vocab.lookup(&[b'A']), Some(65));
    assert_eq!(vocab.get_bytes(65), &[b'A']);
}

#[test]
fn test_add_merge() {
    let mut vocab = Vocabulary::new_byte_level();
    let new_id = vocab.add_merge(b'h' as u32, b'e' as u32);
    assert_eq!(new_id, 256);
    assert_eq!(vocab.get_bytes(new_id), b"he");
    assert_eq!(vocab.lookup(b"he"), Some(256));
    assert_eq!(vocab.vocab_size, 257);
}

#[test]
fn test_max_token_len() {
    let mut vocab = Vocabulary::new_byte_level();
    assert_eq!(vocab.max_token_len(), 1);
    vocab.add_merge(b'a' as u32, b'b' as u32);
    assert_eq!(vocab.max_token_len(), 2);
}

#[test]
fn test_vocab_byte_level_coverage() {
    let vocab = Vocabulary::new_byte_level();
    assert_eq!(vocab.vocab_size, 256);
    // Every byte 0-255 has a token
    for b in 0u8..=255 {
        assert_eq!(vocab.lookup(&[b]), Some(b as u32));
        assert_eq!(vocab.get_bytes(b as u32), &[b]);
    }
}

#[test]
fn test_vocab_merge_chain() {
    let mut vocab = Vocabulary::new_byte_level();
    // Merge 'h' + 'e' -> "he" (id=256)
    let he = vocab.add_merge(b'h' as u32, b'e' as u32);
    assert_eq!(he, 256);
    assert_eq!(vocab.get_bytes(he), b"he");

    // Merge "he" + 'l' -> "hel" (id=257)
    let hel = vocab.add_merge(he, b'l' as u32);
    assert_eq!(hel, 257);
    assert_eq!(vocab.get_bytes(hel), b"hel");

    // Merge "hel" + 'l' -> "hell" (id=258)
    let hell = vocab.add_merge(hel, b'l' as u32);
    assert_eq!(hell, 258);
    assert_eq!(vocab.get_bytes(hell), b"hell");
}

#[test]
fn vocab_merge_records_history() {
    let mut vocab = Vocabulary::new_byte_level();
    let ab = vocab.add_merge(b'a' as u32, b'b' as u32);
    let abab = vocab.add_merge(ab, ab);
    assert_eq!(vocab.tokens[abab as usize].merge_pair, Some((ab, ab)));
    assert_eq!(vocab.tokens[abab as usize].id, abab);
    assert_eq!(vocab.tokens[65].merge_pair, None);
    assert_eq!(vocab.lookup(b"abab"), Some(257));
    assert_eq!(vocab.lookup(b"aba"), None);
    assert_eq!(vocab.byte_to_id[&b'a'], 97);
    assert_eq!(vocab.max_token_len(), 4);
}

#[test]
fn vocab_from_tokens_accepts_saved_form() {
    let mut vocab = Vocabulary::new_byte_level();
    vocab.add_merge(b'x' as u32, b'y' as u32);
    let copy: Vec<Token> = vocab.tokens.clone();
    let loaded = Vocabulary::from_tokens(copy, 257).expect("valid tokens");
    assert_eq!(loaded.vocab_size, 257);
    assert_eq!(loaded.lookup(b"xy"), Some(256));
    assert_eq!(loaded.byte_to_id[&b'x'], b'x' as u32);
    assert_eq!(loaded.get_bytes(256), b"xy");
}

#[test]
fn vocab_from_tokens_rejects_bad_forms() {
    let base = Vocabulary::new_byte_level().tokens;
    // the recorded size is kept, whatever it is
    let recorded = Vocabulary::from_tokens(base.clone(), 300).expect("valid tokens");
    assert_eq!(recorded.vocab_size, 300);
    assert_eq!(recorded.tokens.len(), 256);
    assert_eq!(recorded.lookup(b"a"), Some(97));
    // too few tokens
    let short: Vec<Token> = base[..255].to_vec();
    assert!(Vocabulary::from_tokens(short, 255).is_none());
    // misnumbered token
    let mut misnumbered = base.clone();
    misnumbered[3].id = 4;
    assert!(Vocabulary::from_tokens(misnumbered, 256).is_none());
    // an empty token is kept: it can be looked up, and encoding never uses it
    let mut with_empty = base.clone();
    with_empty.push(Token { id: 256, bytes: vec![], merge_pair: None });
    let kept = Vocabulary::from_tokens(with_empty, 257).expect("an empty token is allowed");
    assert_eq!(kept.tokens.len(), 257);
    assert_eq!(kept.lookup(b""), Some(256));
    let encoder = Encoder::new(kept);
    assert_eq!(encoder.encode_greedy(b"ab"), vec![97, 98]);
    assert_eq!(encoder.encode_dense(b"ab"), vec![97, 98]);
    assert_eq!(encoder.encode(b"ab", &FewestTokens), vec![97, 98]);
    // base byte out of place
    let mut swapped = base.clone();
    swapped[10].bytes = vec![11];
    assert!(Vocabulary::from_tokens(swapped, 256).is_none());
    assert!(Vocabulary::from_tokens(base, 256).is_some());
}

// ─── Micro-model sizes, seeds and training data ───

#[test]
fn micro_model_param_count() {
    assert_eq!(param_count(256, 8), 256 * 8 + 8 * 8 + 256);
    assert_eq!(param_count(10, 4), 66);
    assert_eq!(param_count(0, 0), 0);
}

#[test]
fn micro_model_seed_sequence() {
    let s1 = next_seed(42);
    assert_eq!(s1, 10481999410520546993);
    assert_eq!(next_seed(s1), 4159066171780167020);
    assert_eq!(next_seed(0), 1442695040888963407);
}

#[test]
fn micro_model_training_sequences() {
    let seqs = training_sequences(b"hello", 2);
    assert_eq!(seqs, vec![vec![104, 101], vec![108, 108], vec![111]]);
    assert_eq!(training_sequences(b"abcd", 2), vec![vec![97, 98], vec![99, 100]]);
    assert!(training_sequences(b"", 256).is_empty());
    let corpus: Vec<u8> = (0..600u32).map(|i| (i % 256) as u8).collect();
    let seqs = training_sequences(&corpus, 256);
    assert_eq!(seqs.len(), 3);
    assert_eq!(seqs[2].len(), 88);
    assert_eq!(seqs[1][0], 0);
}
