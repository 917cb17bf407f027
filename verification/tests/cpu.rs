use cbench::{cache_size_kb, decode_cache_leaves, get_cache_size, CpuidRegisters};

fn leaf(level: u32, kind: u32, ways: u32, partitions: u32, line: u32, sets: u32) -> CpuidRegisters {
    CpuidRegisters {
        eax: (level << 5) | kind,
        ebx: ((ways - 1) << 22) | ((partitions - 1) << 12) | (line - 1),
        ecx: sets - 1,
        edx: 0,
    }
}

#[test]
fn test_cpu_id() {
    let (l1, l2, l3) = get_cache_size();

    println!("L1 Cache: {} KB", l1);
    println!("L2 Cache: {} KB", l2);
    println!("L3 Cache: {} KB", l3);
}

#[test]
fn cache_size_formula() {
    let l = leaf(1, 1, 8, 1, 64, 64);
    assert_eq!(cache_size_kb(l.ebx, l.ecx), 32);
    let l = leaf(3, 3, 16, 1, 64, 32768);
    assert_eq!(cache_size_kb(l.ebx, l.ecx), 32768);
}

#[test]
fn cache_size_wraps_like_u32() {
    // 1024 * 1024 * 4096 = 2^32 wraps to 0.
    assert_eq!(cache_size_kb(u32::MAX, 0), 0);
    // sets = ecx + 1 wraps to 0.
    assert_eq!(cache_size_kb(0, u32::MAX), 0);
}

#[test]
fn decode_picks_data_l1_unified_l2_l3_and_stops_at_type_zero() {
    let leaves = [
        leaf(1, 1, 8, 1, 64, 64),    // L1 data: 32 KB
        leaf(1, 2, 8, 1, 64, 64),    // L1 instruction: ignored
        leaf(2, 3, 16, 1, 64, 1024), // L2 unified: 1024 KB
        leaf(3, 3, 16, 1, 64, 8192), // L3 unified: 8192 KB
        CpuidRegisters { eax: 0, ebx: 0, ecx: 0, edx: 0 },
        leaf(2, 3, 4, 1, 64, 64),    // after the terminator: ignored
    ];
    assert_eq!(decode_cache_leaves(&leaves), (32, 1024, 8192));
    assert_eq!(decode_cache_leaves(&[]), (0, 0, 0));
}

#[test]
fn decode_later_descriptor_wins() {
    let leaves = [leaf(2, 3, 16, 1, 64, 1024), leaf(2, 3, 16, 1, 64, 2048)];
    assert_eq!(decode_cache_leaves(&leaves), (0, 2048, 0));
}

#[test]
fn read_cache_leaves_stops_at_type_zero() {
    let answers = cbench::read_cache_leaves();
    assert!(!answers.is_empty());
    for (i, a) in answers.iter().enumerate() {
        assert_eq!(a.query(), (4, i as u32));
    }
    let leaves: Vec<CpuidRegisters> = answers.iter().map(|a| a.regs()).collect();
    let (last, rest) = leaves.split_last().unwrap();
    assert!(rest.iter().all(|l| l.eax & 0x1F != 0));
    assert_eq!(last.eax & 0x1F, 0);
    assert_eq!(decode_cache_leaves(&leaves), get_cache_size());
}
