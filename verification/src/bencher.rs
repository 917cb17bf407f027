//! Benchmark parameters and the verified parts of a benchmark run: the
//! run configuration derived from the command line, and the crypto stress
//! round trip.

use vstd::prelude::*;
use crate::crypto::{sha3_512_digest, GCM_P_MAX};
use crate::load::{decrypt_buf, encrypt_buf, is_sealed_frame, CryptoError, NONCE_LEN, TAG_LEN};

verus! {

/// Score every CPU starts from.
pub const BASE_SCORE: usize = 1280;

/// Side of the square matrices multiplied by the BLAS benchmark.
pub const MATRIX_SIZE: usize = 2048;

/// Elements in one benchmark sample (one matrix).
pub const SAMPLE_SIZE: usize = MATRIX_SIZE * MATRIX_SIZE;

/// Most benchmark runs a session performs.
pub const MAX_RUN: usize = 18;

/// Most warm-up runs a session performs.
pub const MAX_WARMUP: usize = 8;

/// Blocks in the benchmark's memory pool: each run needs three.
pub const POOL_CAPACITY: usize = MAX_RUN * 3;

/// Most worker threads used when a thread limit is given.
pub const MAX_THREAD: usize = 24;

/// Stack headroom of the benchmark thread beyond its samples, in bytes.
pub const STACK_OVERHEAD: usize = 20 * 1024 * 1024;

/// Largest element size of a sample, in bytes (`f32`, `u8`, ...).
pub const MAX_ELEMENT_BYTES: usize = 4;

/// What a benchmark session runs with.
#[derive(Debug, Clone, Copy, PartialEq, Eq)]
pub struct RunConfig {
    pub runs: usize,
    pub warmups: usize,
    pub threads: usize,
    pub stack_size: usize,
}

/// `value` clamped into `[low, high]`.
pub open spec fn clamped(value: int, low: int, high: int) -> int {
    if value < low {
        low
    } else if value > high {
        high
    } else {
        value
    }
}

/// Threads to use: all available ones when no limit (0) is asked for,
/// otherwise the smallest of the limit, the available threads and `MAX_THREAD`.
pub open spec fn spec_thread_count(max_threads: int, available_threads: int) -> int {
    if max_threads == 0 {
        available_threads
    } else {
        vstd::math::min(max_threads, vstd::math::min(available_threads, MAX_THREAD as int))
    }
}

/// With no thread limit (0) every available thread is used; with a limit
/// of at least one, the count is the limit, the available threads or
/// `MAX_THREAD` (24), whichever is smallest, so it never exceeds any of them.
pub proof fn lemma_thread_count_respects_limit(max_threads: int, available_threads: int)
    ensures
        max_threads == 0 ==> spec_thread_count(max_threads, available_threads) == available_threads,
        max_threads >= 1 ==> {
            let t = spec_thread_count(max_threads, available_threads);
            &&& t <= max_threads
            &&& t <= available_threads
            &&& t <= 24
            &&& (t == max_threads || t == available_threads || t == 24)
        },
{
}

/// Runs and warm-ups are clamped: a count already in range is kept, a count
/// of 0 becomes 1, and a count above the maximum becomes the maximum.
pub proof fn lemma_clamped_counts(value: int, low: int, high: int)
    requires
        low <= high,
    ensures
        low <= clamped(value, low, high) <= high,
        low <= value <= high ==> clamped(value, low, high) == value,
        value < low ==> clamped(value, low, high) == low,
        value > high ==> clamped(value, low, high) == high,
{
}

/// Derives the session configuration from the requested runs, warm-ups and
/// thread limit (0 for no limit) and the number of available threads: runs
/// are clamped into `1..=MAX_RUN`, warm-ups into `1..=MAX_WARMUP`, and the
/// stack holds `POOL_CAPACITY` samples of the largest element size plus headroom.
pub fn resolve_run_config(runs: usize, warmups: usize, max_threads: usize, available_threads: usize) -> (c: RunConfig)
    ensures
        c.runs == clamped(runs as int, 1, MAX_RUN as int),
        c.warmups == clamped(warmups as int, 1, MAX_WARMUP as int),
        c.threads == spec_thread_count(max_threads as int, available_threads as int),
        c.stack_size == SAMPLE_SIZE * MAX_ELEMENT_BYTES * POOL_CAPACITY + STACK_OVERHEAD,
{
    let threads: usize = if max_threads == 0 {
        available_threads
    } else {
        let capped: usize = if available_threads < MAX_THREAD { available_threads } else { MAX_THREAD };
        if max_threads < capped { max_threads } else { capped }
    };
    let runs: usize = if runs < 1 { 1 } else if runs > MAX_RUN { MAX_RUN } else { runs };
    let warmups: usize = if warmups < 1 { 1 } else if warmups > MAX_WARMUP { MAX_WARMUP } else { warmups };
    let stack_size: usize = SAMPLE_SIZE * MAX_ELEMENT_BYTES * POOL_CAPACITY + STACK_OVERHEAD;
    RunConfig { runs, warmups, threads, stack_size }
}

/// One round of the stress: encrypt `plan_text` into `cipher_text`, decrypt
/// it back into `plan_text`, and hash `hash_buf`.
fn stress_round(plan_text: &mut [u8], cipher_text: &mut [u8], key: &[u8; 32], hash_buf: &[u8]) -> (r: Result<(), CryptoError>)
    requires
        NONCE_LEN + old(plan_text)@.len() + TAG_LEN <= usize::MAX,
    ensures
        final(plan_text)@ == old(plan_text)@,
        final(cipher_text)@.len() == old(cipher_text)@.len(),
        stress_outcome(r, old(plan_text)@, old(cipher_text)@.len() as int),
        stress_cipher_text(key@, old(plan_text)@, old(cipher_text)@, final(cipher_text)@),
        r is Ok ==> is_sealed_frame(key@, final(cipher_text)@, old(plan_text)@),
{
    let ghost plain = plan_text@;
    let ghost cipher0 = cipher_text@;
    let n = encrypt_buf(plan_text, cipher_text, key);
    match n {
        Ok(_) => {},
        Err(e) => {
            return Err(e);
        },
    }
    proof {
        let total: int = NONCE_LEN + plain.len() + TAG_LEN;
        if cipher_text@.len() == total {
            assert(cipher_text@.take(total) =~= cipher_text@);
            assert(is_sealed_frame(key@, cipher_text@, plain));
        }
    }
    let m = decrypt_buf(cipher_text, plan_text, key);
    proof {
        let total: int = NONCE_LEN + plain.len() + TAG_LEN;
        if cipher_text@.len() == total {
            assert(plan_text@.take(plain.len() as int) =~= plan_text@);
        } else {
            assert(plan_text@ =~= plain);
        }
    }
    match m {
        Ok(_) => {},
        Err(e) => {
            return Err(e);
        },
    }
    let _digest = sha3_512_digest(hash_buf);
    Ok(())
}

/// What the cipher buffer holds after the stress, from what it held before:
/// untouched when it is too short for a frame; the nonce and a copy of the
/// plaintext when the plaintext is too long for the cipher; otherwise a frame
/// of the plaintext at its start, the rest untouched.
pub open spec fn stress_cipher_text(key: Seq<u8>, plain: Seq<u8>, before: Seq<u8>, after: Seq<u8>) -> bool {
    let total: int = NONCE_LEN + plain.len() + TAG_LEN;
    let copied: int = NONCE_LEN + plain.len();
    if before.len() < total {
        after == before
    } else if plain.len() > GCM_P_MAX {
        &&& after.subrange(NONCE_LEN as int, copied) == plain
        &&& after.skip(copied) == before.skip(copied)
    } else {
        &&& is_sealed_frame(key, after.take(total), plain)
        &&& after.skip(total) == before.skip(total)
    }
}

/// How the stress ends for a plaintext and a ciphertext buffer of the given
/// length: it succeeds exactly when the buffer fits one frame of the
/// plaintext and the cipher accepts the plaintext's length.
pub open spec fn stress_outcome(r: Result<(), CryptoError>, plain: Seq<u8>, cipher_len: int) -> bool {
    let total: int = NONCE_LEN + plain.len() + TAG_LEN;
    if cipher_len < total {
        r == Err::<(), CryptoError>(CryptoError::OutputTooSmall { needed: total as usize })
    } else if plain.len() > GCM_P_MAX {
        r == Err::<(), CryptoError>(CryptoError::Aead)
    } else if cipher_len > total {
        r == Err::<(), CryptoError>(CryptoError::OutputTooSmall { needed: (cipher_len - NONCE_LEN - TAG_LEN) as usize })
    } else {
        r == Ok::<(), CryptoError>(())
    }
}

/// Encrypts `plan_text` into `cipher_text` and decrypts it back, three
/// times, hashing `hash_buf` with SHA3-512 after each round trip.
///
/// The plaintext always ends as it started; on success `cipher_text` holds a
/// frame of it.
pub fn crypto_stress(
    plan_text: &mut [u8],
    cipher_text: &mut [u8],
    key: [u8; 32],
    hash_buf: &mut [u8],
) -> (r: Result<(), CryptoError>)
    requires
        NONCE_LEN + old(plan_text)@.len() + TAG_LEN <= usize::MAX,
    ensures
        final(plan_text)@ == old(plan_text)@,
        final(hash_buf)@ == old(hash_buf)@,
        final(cipher_text)@.len() == old(cipher_text)@.len(),
        stress_outcome(r, old(plan_text)@, old(cipher_text)@.len() as int),
        stress_cipher_text(key@, old(plan_text)@, old(cipher_text)@, final(cipher_text)@),
        r is Ok ==> is_sealed_frame(key@, final(cipher_text)@, old(plan_text)@),
{
    let ghost plain = plan_text@;
    let ghost cipher0 = cipher_text@;
    stress_round(plan_text, cipher_text, &key, hash_buf)?;
    stress_round(plan_text, cipher_text, &key, hash_buf)?;
    stress_round(plan_text, cipher_text, &key, hash_buf)?;
    proof {
        let total: int = NONCE_LEN + plain.len() + TAG_LEN;
        assert(cipher_text@.take(total) =~= cipher_text@);
        assert(cipher_text@.skip(total) =~= cipher0.skip(total));
    }
    Ok(())
}

} // verus!
