//! The integer side of the experimental micro-model: its size, the
//! pseudo-random sequence that seeds its weights, and the training
//! sequences cut from a corpus.
use vstd::prelude::*;

verus! {

/// Parameters of a micro-model: `vocab_size × embed_dim` embeddings, an
/// `embed_dim × embed_dim` transition matrix and `vocab_size` biases.
pub open spec fn param_total(vocab_size: int, embed_dim: int) -> int {
    vocab_size * embed_dim + embed_dim * embed_dim + vocab_size
}

/// Total parameter count of a micro-model of the given dimensions.
pub fn param_count(vocab_size: usize, embed_dim: usize) -> (n: usize)
    requires
        param_total(vocab_size as int, embed_dim as int) <= usize::MAX,
    ensures
        n == param_total(vocab_size as int, embed_dim as int),
{
    proof {
        let v = vocab_size as int;
        let d = embed_dim as int;
        assert(0 <= v * d && 0 <= d * d) by (nonlinear_arith)
            requires
                0 <= v,
                0 <= d,
        ;
    }
    vocab_size * embed_dim + embed_dim * embed_dim + vocab_size
}

/// Multiplier of the linear congruential generator that seeds the weights.
pub const SEED_MULTIPLIER: u64 = 6364136223846793005u64;

/// Increment of the linear congruential generator that seeds the weights.
pub const SEED_INCREMENT: u64 = 1442695040888963407u64;

/// The step of the generator: `seed × multiplier + increment`, modulo 2^64.
pub open spec fn seed_step(seed: u64) -> u64 {
    ((seed as int * SEED_MULTIPLIER as int + SEED_INCREMENT as int) % 0x1_0000_0000_0000_0000) as u64
}

/// The next state of the generator.
pub fn next_seed(seed: u64) -> (next: u64)
    ensures
        next == seed_step(seed),
{
    let m = seed.wrapping_mul(SEED_MULTIPLIER);
    let next = m.wrapping_add(SEED_INCREMENT);
    proof {
        let r: int = 0x1_0000_0000_0000_0000;
        let p = seed as int * SEED_MULTIPLIER as int;
        let q = p / r;
        assert(p == q * r + p % r && 0 <= p % r < r) by (nonlinear_arith)
            requires
                r > 0,
                q == p / r,
        ;
        assert(m as int == p % r);
        let c = SEED_INCREMENT as int;
        let s = p % r + c;
        assert(p + c == r * q + s) by (nonlinear_arith)
            requires
                p == q * r + p % r,
                s == p % r + c,
        ;
        vstd::arithmetic::div_mod::lemma_mod_multiples_vanish(q, s, r);
        if s >= r {
            assert(s % r == s - r) by (nonlinear_arith)
                requires
                    r <= s < 2 * r,
            ;
        } else {
            assert(s % r == s) by (nonlinear_arith)
                requires
                    0 <= s < r,
            ;
        }
    }
    next
}

/// The ids, cut into consecutive chunks of `k`; the last chunk holds what is left.
pub open spec fn chunked(ids: Seq<u32>, k: nat) -> Seq<Seq<u32>>
    decreases ids.len(),
{
    if ids.len() == 0 || k == 0 {
        Seq::empty()
    } else if ids.len() <= k {
        seq![ids]
    } else {
        seq![ids.take(k as int)] + chunked(ids.skip(k as int), k)
    }
}

/// The byte-level token ids of a corpus, cut into chunks of `chunk_size`: the
/// sequences a micro-model is trained on.
pub fn training_sequences(corpus: &[u8], chunk_size: usize) -> (seqs: Vec<Vec<u32>>)
    requires
        chunk_size > 0,
    ensures
        seqs@.map_values(|v: Vec<u32>| v@) == chunked(
            corpus@.map_values(|b: u8| b as u32),
            chunk_size as nat,
        ),
{
    let ghost ids = corpus@.map_values(|b: u8| b as u32);
    let ghost k = chunk_size as nat;
    let n = corpus.len();
    let mut seqs: Vec<Vec<u32>> = Vec::new();
    let mut start: usize = 0;
    proof {
        assert(ids.skip(0) =~= ids);
        assert(seqs@.map_values(|v: Vec<u32>| v@) + chunked(ids.skip(0), k) =~= chunked(ids, k));
    }
    while start < n
        invariant
            n == corpus@.len(),
            ids == corpus@.map_values(|b: u8| b as u32),
            k == chunk_size,
            k > 0,
            start <= n,
            seqs@.map_values(|v: Vec<u32>| v@) + chunked(ids.skip(start as int), k) == chunked(ids, k),
        decreases n - start,
    {
        let end = if n - start <= chunk_size {
            n
        } else {
            start + chunk_size
        };
        let mut chunk: Vec<u32> = Vec::new();
        let mut i: usize = start;
        while i < end
            invariant
                start <= i <= end <= n,
                n == corpus@.len(),
                ids == corpus@.map_values(|b: u8| b as u32),
                chunk@ == ids.subrange(start as int, i as int),
            decreases end - i,
        {
            chunk.push(corpus[i] as u32);
            assert(chunk@ =~= ids.subrange(start as int, i + 1));
            i = i + 1;
        }
        let ghost before = seqs@.map_values(|v: Vec<u32>| v@);
        let ghost rest = ids.skip(start as int);
        seqs.push(chunk);
        proof {
            assert(seqs@.map_values(|v: Vec<u32>| v@) =~= before.push(ids.subrange(start as int, end as int)));
            if end == n {
                assert(rest.len() <= k);
                assert(ids.subrange(start as int, end as int) =~= rest);
                assert(chunked(rest, k) == seq![rest]);
                assert(ids.skip(end as int).len() == 0);
                assert(chunked(ids.skip(end as int), k) =~= Seq::<Seq<u32>>::empty());
                assert(before.push(rest) + Seq::<Seq<u32>>::empty() =~= before + seq![rest]);
            } else {
                assert(rest.len() > k);
                assert(ids.subrange(start as int, end as int) =~= rest.take(k as int));
                assert(rest.skip(k as int) =~= ids.skip(end as int));
                assert(chunked(rest, k) == seq![rest.take(k as int)] + chunked(rest.skip(k as int), k));
                assert(before.push(rest.take(k as int)) + chunked(ids.skip(end as int), k) =~= before + (seq![
                    rest.take(k as int),
                ] + chunked(rest.skip(k as int), k)));
            }
        }
        start = end;
    }
    proof {
        assert(ids.skip(start as int).len() == 0);
        assert(chunked(ids.skip(start as int), k) =~= Seq::<Seq<u32>>::empty());
        assert(seqs@.map_values(|v: Vec<u32>| v@) + Seq::<Seq<u32>>::empty() =~= seqs@.map_values(
            |v: Vec<u32>| v@,
        ));
    }
    seqs
}

} // verus!
