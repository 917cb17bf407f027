use cbench::load::{Block, StaticMemPool};

#[test]
fn test_mem_pool_basic() {
    let mut mem_pool = StaticMemPool::<[u32; 4096], 32>::init();

    let mut s = 0;
    let mut e = 0;
    for task in 0..32u32 {
        if let Some(block_1) = mem_pool.try_alloc_zeroed() {
            if let Some(block_2) = mem_pool.try_alloc_zeroed() {
                for (i, x) in block_1.get_mut(&mut mem_pool).iter_mut().enumerate() {
                    *x = (i as u32) ^ task;
                }
                for (i, y) in block_2.get_mut(&mut mem_pool).iter_mut().enumerate() {
                    *y = (i as u32).wrapping_mul(3);
                }
                let x_buf = block_1.get(&mem_pool);
                let y_buf = block_2.get(&mem_pool);
                let dot = x_buf
                    .iter()
                    .zip(y_buf.iter())
                    .fold(0u32, |acc, (a, b)| acc.wrapping_add(a.wrapping_mul(*b)));
                println!("Got both blocks, dot: {}", dot);
                mem_pool.free_block(block_2);
                s += 1;
            } else {
                println!("Failed to get block 2");
                e += 1;
            }
            mem_pool.free_block(block_1);
        } else {
            println!("Failed to get block 1");
            e += 1;
        }
    }
    println!("Failed alloc: {}, Successful alloc: {}", e, s);
    assert_eq!(s, 32);
    assert_eq!(e, 0);
}

#[test]
fn test_mem_pool_capacity() {
    let mut pool = StaticMemPool::<[u32; 4096], 32>::init();
    let mut live: Vec<Block<[u32; 4096], 32>> = Vec::new();
    let mut peak = 0usize;
    for _ in 0..512 {
        if let Some(a) = pool.try_alloc_zeroed() {
            live.push(a);
            peak = peak.max(live.len());
        }
    }
    println!("Peak live allocations = {}", peak);
    assert!(peak <= 32, "Peak live allocations {} exceeds pool capacity", peak);
    assert_eq!(peak, 32);
    for b in live {
        pool.free_block(b);
    }
    assert!(pool.try_alloc_zeroed().is_some());
}

#[test]
fn test_mem_pool_max_block_owners() {
    let mut pool = StaticMemPool::<[u32; 4096], 32>::init();
    let mut held = Vec::new();
    let mut successes = 0usize;
    for _ in 0..32 {
        let block_1 = pool.try_alloc_zeroed();
        let block_2 = pool.try_alloc_zeroed();
        if block_1.is_some() && block_2.is_some() {
            successes += 1;
        }
        held.push((block_1, block_2));
    }
    println!("Successful two-block owners = {}", successes);
    assert!(
        successes <= 16,
        "Number of two-block owners {} exceeds half the pool capacity",
        successes
    );
    assert_eq!(successes, 16);
}

#[test]
fn alloc_takes_lowest_free_slot() {
    let mut pool = StaticMemPool::<u64, 4>::init();
    let a = pool.try_alloc(10).unwrap();
    let b = pool.try_alloc(11).unwrap();
    let c = pool.try_alloc(12).unwrap();
    assert_eq!((a.index(), b.index(), c.index()), (0, 1, 2));
    pool.free_block(b);
    let d = pool.try_alloc(13).unwrap();
    assert_eq!(d.index(), 1);
    assert_eq!(*d.get(&pool), 13);
    assert_eq!(*a.get(&pool), 10);
    assert_eq!(*c.get(&pool), 12);
}

#[test]
fn alloc_fails_exactly_when_full() {
    let mut pool = StaticMemPool::<u8, 3>::init();
    let blocks: Vec<_> = (0..3u8).map(|v| pool.try_alloc(v).unwrap()).collect();
    assert!(pool.try_alloc(99).is_none());
    assert!(pool.try_alloc_zeroed().is_none());
    let mut calls = 0;
    assert!(pool.try_alloc_with(|| { calls += 1; 7 }).is_none());
    assert_eq!(calls, 0);
    for (v, b) in blocks.iter().enumerate() {
        assert_eq!(*b.get(&pool), v as u8);
    }
    let mut blocks = blocks;
    let last = blocks.pop().unwrap();
    pool.free_block(last);
    let again = pool.try_alloc(42).unwrap();
    assert_eq!(again.index(), 2);
    assert_eq!(*again.get(&pool), 42);
}

#[test]
fn empty_pool_never_allocates() {
    let mut pool = StaticMemPool::<u32, 0>::init();
    assert_eq!(pool.capacity(), 0);
    assert!(pool.try_alloc(1).is_none());
}

#[test]
fn blocks_of_one_pool_own_distinct_slots() {
    let mut pool = StaticMemPool::<u32, 4>::init();
    assert_eq!(pool.capacity(), 4);
    let a = pool.try_alloc(1).unwrap();
    let b = pool.try_alloc(2).unwrap();
    let c = pool.try_alloc(3).unwrap();
    pool.free_block(b);
    let d = pool.try_alloc(4).unwrap();
    let e = pool.try_alloc(5).unwrap();
    let f = pool.try_alloc(6);
    assert!(f.is_none());
    let mut slots = vec![a.index(), c.index(), d.index(), e.index()];
    slots.sort();
    assert_eq!(slots, vec![0, 1, 2, 3]);
    assert_eq!(
        (*a.get(&pool), *c.get(&pool), *d.get(&pool), *e.get(&pool)),
        (1, 3, 4, 5)
    );
}

#[test]
fn get_mut_writes_are_read_back() {
    let mut pool = StaticMemPool::<[u16; 8], 2>::init();
    let b = pool.try_alloc_zeroed().unwrap();
    assert_eq!(*b.get(&pool), [0u16; 8]);
    b.get_mut(&mut pool)[3] = 77;
    assert_eq!(b.get(&pool)[3], 77);
    assert_eq!(b.get(&pool)[2], 0);
}

#[test]
fn alloc_with_calls_init_once_slot_is_claimed() {
    let mut pool = StaticMemPool::<String, 1>::init();
    let mut calls = 0;
    let b = pool
        .try_alloc_with(|| {
            calls += 1;
            String::from("hello")
        })
        .unwrap();
    assert_eq!(calls, 1);
    assert_eq!(b.get(&pool), "hello");
}

#[test]
fn free_block_returns_slot() {
    let mut pool = StaticMemPool::<i64, 2>::init();
    let a = pool.try_alloc(-5).unwrap();
    let _b = pool.try_alloc(6).unwrap();
    assert!(pool.try_alloc(7).is_none());
    assert_eq!(a.index(), 0);
    pool.free_block(a);
    let c = pool.try_alloc(8).unwrap();
    assert_eq!(c.index(), 0);
    assert_eq!(*c.get(&pool), 8);
}
