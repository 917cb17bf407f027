# cbench

A CPU micro-benchmark (BLAS matrix multiplication and AES-256-GCM / SHA3-512
crypto throughput) whose core is a verified library.

- `src/load.rs`: a fixed-capacity memory pool (`StaticMemPool`, `Block`,
  `Zeroable`) with its laws (capacity, lowest-free-slot allocation, release
  undoing allocation), and the authenticated frame format
  `nonce | ciphertext | tag` (`encrypt_buf`, `decrypt_buf`) with its round trip.
- `src/bencher.rs`: benchmark constants, the run configuration derived from
  the command line, and the crypto stress round trip.
- `src/lib.rs`: decoding of the CPU cache sizes from `cpuid` leaf 4.
- `src/crypto.rs`: the trusted boundary to `aes-gcm`, `sha3`, `rand` and `fastrand`.
- `src/rand.rs`: random byte vectors.
- `app/`: the command-line program: argument parsing, threads, timing,
  BLAS calls, GPU discovery and float sample generation.
