//! The library's main items in one place.

pub use crate::bencher::{crypto_stress, resolve_run_config, RunConfig, MATRIX_SIZE, MAX_RUN, MAX_WARMUP, POOL_CAPACITY, SAMPLE_SIZE};
pub use crate::load::{decrypt_buf, encrypt_buf, Block, CryptoError, StaticMemPool, Zeroable, NONCE_LEN, TAG_LEN};
pub use crate::rand::get_bytes;
pub use crate::{decode_cache_leaves, get_cache_size, read_cache_leaves, CpuidAnswer, CpuidRegisters};
