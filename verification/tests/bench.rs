use cbench::bencher::{
    resolve_run_config, RunConfig, MATRIX_SIZE, MAX_RUN, MAX_THREAD, MAX_WARMUP, POOL_CAPACITY, SAMPLE_SIZE,
};
use cbench::rand::get_bytes;

#[test]
fn constants() {
    assert_eq!(MATRIX_SIZE, 2048);
    assert_eq!(SAMPLE_SIZE, 4_194_304);
    assert_eq!(POOL_CAPACITY, 54);
    assert_eq!((MAX_RUN, MAX_WARMUP, MAX_THREAD), (18, 8, 24));
}

#[test]
fn run_config_defaults() {
    let c = resolve_run_config(12, 2, 0, 16);
    assert_eq!(
        c,
        RunConfig { runs: 12, warmups: 2, threads: 16, stack_size: 4_194_304 * 4 * 54 + 20 * 1024 * 1024 }
    );
}

#[test]
fn run_config_clamps() {
    let c = resolve_run_config(0, 0, 100, 64);
    assert_eq!((c.runs, c.warmups, c.threads), (1, 1, 24));
    let c = resolve_run_config(50, 50, 4, 64);
    assert_eq!((c.runs, c.warmups, c.threads), (18, 8, 4));
    let c = resolve_run_config(3, 3, 8, 2);
    assert_eq!(c.threads, 2);
    // No limit asked for: every available thread, even beyond MAX_THREAD.
    let c = resolve_run_config(3, 3, 0, 64);
    assert_eq!(c.threads, 64);
}

#[test]
fn get_bytes_length() {
    assert_eq!(get_bytes(0).len(), 0);
    assert_eq!(get_bytes(1000).len(), 1000);
}
