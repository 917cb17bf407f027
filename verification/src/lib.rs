//! CPU micro-benchmark support: a fixed-capacity memory pool, authenticated
//! encryption of byte buffers, and CPU cache geometry decoding.

use vstd::prelude::*;
pub use crate::cpuid::CpuidAnswer;
use crate::cpuid::cpuid_count;

pub mod bencher;
pub mod cpuid;
pub mod crypto;
pub mod load;
pub mod prelude;
pub mod rand;

verus! {

/// The four registers returned by one `cpuid` query.
#[derive(Clone, Copy, Debug, PartialEq, Eq)]
pub struct CpuidRegisters {
    pub eax: u32,
    pub ebx: u32,
    pub ecx: u32,
    pub edx: u32,
}

/// Cache type field of leaf 4 (`eax` bits 0..5); zero means "no more caches".
pub open spec fn cache_type_of(eax: u32) -> int {
    eax as int % 32
}

/// Cache level field of leaf 4 (`eax` bits 5..8).
pub open spec fn cache_level_of(eax: u32) -> int {
    (eax as int / 32) % 8
}

/// Size in KB described by the `ebx`/`ecx` registers of leaf 4:
/// ways * partitions * line size * sets, computed with 32-bit wrap-around
/// and divided by 1024.
pub open spec fn cache_size_kb_of(ebx: u32, ecx: u32) -> int {
    let ways: int = (ebx as int / 0x40_0000) % 1024 + 1;
    let partitions: int = (ebx as int / 0x1000) % 1024 + 1;
    let line_size: int = ebx as int % 0x1000 + 1;
    let sets: int = (ecx as int + 1) % 0x1_0000_0000;
    ((ways * partitions * line_size * sets) % 0x1_0000_0000) / 1024
}

/// Folds one cache descriptor into the (L1 data, L2, L3) sizes found so far.
pub open spec fn apply_cache_leaf(acc: (usize, usize, usize), leaf: CpuidRegisters) -> (usize, usize, usize) {
    let level: int = cache_level_of(leaf.eax);
    let kind: int = cache_type_of(leaf.eax);
    let size: usize = cache_size_kb_of(leaf.ebx, leaf.ecx) as usize;
    if level == 1 && kind == 1 {
        (size, acc.1, acc.2)
    } else if level == 2 && kind == 3 {
        (acc.0, size, acc.2)
    } else if level == 3 && kind == 3 {
        (acc.0, acc.1, size)
    } else {
        acc
    }
}

/// Scans descriptors in order, stopping at the first one whose cache type is zero.
pub open spec fn scan_cache_leaves(acc: (usize, usize, usize), leaves: Seq<CpuidRegisters>) -> (usize, usize, usize)
    decreases leaves.len(),
{
    if leaves.len() == 0 {
        acc
    } else if cache_type_of(leaves[0].eax) == 0 {
        acc
    } else {
        scan_cache_leaves(apply_cache_leaf(acc, leaves[0]), leaves.drop_first())
    }
}

/// The (L1, L2, L3) sizes in KB that a sequence of leaf-4 descriptors describes.
pub open spec fn cache_sizes_of(leaves: Seq<CpuidRegisters>) -> (usize, usize, usize) {
    scan_cache_leaves((0, 0, 0), leaves)
}

/// Index of the first descriptor whose cache type is zero (the end of the
/// scan), or the length when there is none.
pub open spec fn first_empty_index(leaves: Seq<CpuidRegisters>) -> int
    decreases leaves.len(),
{
    if leaves.len() == 0 {
        0
    } else if leaves[0].eax % 32 == 0 {
        0
    } else {
        1 + first_empty_index(leaves.drop_first())
    }
}

/// Which of (L1 data, L2, L3) a descriptor with register `eax` gives the
/// size of: `c == 0` for level 1 type 1 (data), `c == 1` for level 2 type 3
/// (unified), `c == 2` for level 3 type 3 (unified).
pub open spec fn feeds_component(c: int, eax: u32) -> bool {
    let kind = eax % 32;
    let level = (eax / 32) % 8;
    ||| c == 0 && level == 1 && kind == 1
    ||| c == 1 && level == 2 && kind == 3
    ||| c == 2 && level == 3 && kind == 3
}

/// Component `c` of a (L1, L2, L3) triple.
pub open spec fn component(t: (usize, usize, usize), c: int) -> usize {
    if c == 0 { t.0 } else if c == 1 { t.1 } else { t.2 }
}

proof fn lemma_scan_component(acc: (usize, usize, usize), leaves: Seq<CpuidRegisters>, c: int)
    requires
        0 <= c < 3,
    ensures
        0 <= first_empty_index(leaves) <= leaves.len(),
        (forall|k: int| 0 <= k < first_empty_index(leaves) ==> !feeds_component(c, #[trigger] leaves[k].eax))
            ==> component(scan_cache_leaves(acc, leaves), c) == component(acc, c),
        forall|j: int|
            0 <= j < first_empty_index(leaves) && feeds_component(c, #[trigger] leaves[j].eax)
                && (forall|k: int| j < k < first_empty_index(leaves) ==> !feeds_component(c, #[trigger] leaves[k].eax))
            ==> component(scan_cache_leaves(acc, leaves), c) == cache_size_kb_of(leaves[j].ebx, leaves[j].ecx) as usize,
    decreases leaves.len(),
{
    if leaves.len() > 0 && leaves[0].eax % 32 != 0 {
        let rest = leaves.drop_first();
        let next = apply_cache_leaf(acc, leaves[0]);
        lemma_scan_component(next, rest, c);
        assert forall|k: int| 0 <= k < rest.len() implies #[trigger] rest[k] == leaves[k + 1] by {}
        if feeds_component(c, leaves[0].eax) {
            assert(component(next, c) == cache_size_kb_of(leaves[0].ebx, leaves[0].ecx) as usize);
        } else {
            assert(component(next, c) == component(acc, c));
        }
        assert forall|j: int|
            0 <= j < first_empty_index(leaves) && feeds_component(c, #[trigger] leaves[j].eax)
                && (forall|k: int| j < k < first_empty_index(leaves) ==> !feeds_component(c, #[trigger] leaves[k].eax))
            implies component(scan_cache_leaves(acc, leaves), c) == cache_size_kb_of(leaves[j].ebx, leaves[j].ecx) as usize by {
            if j == 0 {
                assert forall|k: int| 0 <= k < first_empty_index(rest) implies !feeds_component(c, #[trigger] rest[k].eax) by {
                    assert(rest[k] == leaves[k + 1]);
                }
            } else {
                assert(rest[j - 1] == leaves[j]);
                assert forall|k: int| j - 1 < k < first_empty_index(rest) implies !feeds_component(c, #[trigger] rest[k].eax) by {
                    assert(rest[k] == leaves[k + 1]);
                }
            }
        }
        if forall|k: int| 0 <= k < first_empty_index(leaves) ==> !feeds_component(c, #[trigger] leaves[k].eax) {
            assert(!feeds_component(c, leaves[0].eax));
            assert forall|k: int| 0 <= k < first_empty_index(rest) implies !feeds_component(c, #[trigger] rest[k].eax) by {
                assert(rest[k] == leaves[k + 1]);
            }
        }
    }
}

/// The decoded L1 size is that of the last level-1 descriptor of cache type 1
/// (data cache) before the first descriptor of cache type 0, or 0 when there
/// is none; instruction caches (type 2) and other levels never set it. The
/// same holds of the L2 size with level-2 descriptors of type 3 (unified),
/// and of the L3 size with level-3 descriptors of type 3.
pub proof fn lemma_decoded_sizes_come_from_last_matching_descriptor(leaves: Seq<CpuidRegisters>)
    ensures
        ({
            let end = first_empty_index(leaves);
            let sizes = cache_sizes_of(leaves);
            &&& forall|j: int|
                0 <= j < end && leaves[j].eax % 32 == 1 && (leaves[j].eax / 32) % 8 == 1
                    && (forall|k: int| j < k < end ==> !(leaves[k].eax % 32 == 1 && (leaves[k].eax / 32) % 8 == 1))
                ==> sizes.0 == cache_size_kb_of(leaves[j].ebx, leaves[j].ecx)
            &&& (forall|k: int| 0 <= k < end ==> !(leaves[k].eax % 32 == 1 && (leaves[k].eax / 32) % 8 == 1))
                ==> sizes.0 == 0
            &&& forall|j: int|
                0 <= j < end && leaves[j].eax % 32 == 3 && (leaves[j].eax / 32) % 8 == 2
                    && (forall|k: int| j < k < end ==> !(leaves[k].eax % 32 == 3 && (leaves[k].eax / 32) % 8 == 2))
                ==> sizes.1 == cache_size_kb_of(leaves[j].ebx, leaves[j].ecx)
            &&& (forall|k: int| 0 <= k < end ==> !(leaves[k].eax % 32 == 3 && (leaves[k].eax / 32) % 8 == 2))
                ==> sizes.1 == 0
            &&& forall|j: int|
                0 <= j < end && leaves[j].eax % 32 == 3 && (leaves[j].eax / 32) % 8 == 3
                    && (forall|k: int| j < k < end ==> !(leaves[k].eax % 32 == 3 && (leaves[k].eax / 32) % 8 == 3))
                ==> sizes.2 == cache_size_kb_of(leaves[j].ebx, leaves[j].ecx)
            &&& (forall|k: int| 0 <= k < end ==> !(leaves[k].eax % 32 == 3 && (leaves[k].eax / 32) % 8 == 3))
                ==> sizes.2 == 0
        }),
{
    lemma_scan_component((0, 0, 0), leaves, 0);
    lemma_scan_component((0, 0, 0), leaves, 1);
    lemma_scan_component((0, 0, 0), leaves, 2);
}

/// A descriptor of cache type 2 (instruction cache) placed before the end of
/// the scan changes none of the decoded sizes.
pub proof fn lemma_instruction_cache_ignored(before: Seq<CpuidRegisters>, d: CpuidRegisters, after: Seq<CpuidRegisters>)
    requires
        d.eax % 32 == 2,
        forall|k: int| 0 <= k < before.len() ==> #[trigger] before[k].eax % 32 != 0,
    ensures
        cache_sizes_of(before + seq![d] + after) == cache_sizes_of(before + after),
{
    lemma_instruction_cache_ignored_from((0, 0, 0), before, d, after);
}

proof fn lemma_instruction_cache_ignored_from(
    acc: (usize, usize, usize),
    before: Seq<CpuidRegisters>,
    d: CpuidRegisters,
    after: Seq<CpuidRegisters>,
)
    requires
        d.eax % 32 == 2,
        forall|k: int| 0 <= k < before.len() ==> #[trigger] before[k].eax % 32 != 0,
    ensures
        scan_cache_leaves(acc, before + seq![d] + after) == scan_cache_leaves(acc, before + after),
    decreases before.len(),
{
    let with = before + seq![d] + after;
    let without = before + after;
    if before.len() == 0 {
        assert(with[0] == d);
        assert(with.drop_first() =~= after);
        assert(without =~= after);
        assert((d.eax / 32) % 8 == 1 || (d.eax / 32) % 8 != 1);
        assert(apply_cache_leaf(acc, d) == acc);
    } else {
        assert(with[0] == before[0]);
        assert(without[0] == before[0]);
        assert(with.drop_first() =~= before.drop_first() + seq![d] + after);
        assert(without.drop_first() =~= before.drop_first() + after);
        assert forall|k: int| 0 <= k < before.drop_first().len() implies #[trigger] before.drop_first()[k].eax % 32 != 0 by {
            assert(before.drop_first()[k] == before[k + 1]);
        }
        lemma_instruction_cache_ignored_from(apply_cache_leaf(acc, before[0]), before.drop_first(), d, after);
    }
}

/// A leaf-4 read ends at the first sub-leaf whose cache type is zero: among
/// the answers, exactly the last reports type 0 (unless all 2^32 sub-leaves
/// were read), and the answers are sub-leaves 0, 1, ... of leaf 4.
pub proof fn lemma_leaf4_read_stops_at_first_empty(answers: Seq<CpuidAnswer>)
    requires
        is_leaf4_read(answers),
    ensures
        forall|i: int| 0 <= i < answers.len() ==> (#[trigger] answers[i]).leaf() == 4 && answers[i].sub_leaf() == i,
        answers.len() < 0x1_0000_0000 ==>
            forall|i: int| 0 <= i < answers.len() ==>
                ((#[trigger] answers[i]).registers().eax % 32 == 0 <==> i == answers.len() - 1),
{
    let regs = answer_registers(answers);
    assert forall|i: int| 0 <= i < answers.len() implies #[trigger] regs[i] == answers[i].registers() by {}
    assert forall|i: int| 0 <= i < answers.len() - 1 implies (#[trigger] answers[i]).registers().eax % 32 != 0 by {
        assert(regs[i] == answers[i].registers());
        assert(cache_type_of(regs[i].eax) != 0);
    }
}

/// Size in KB described by one leaf-4 descriptor.
pub fn cache_size_kb(ebx: u32, ecx: u32) -> (size: usize)
    ensures
        size == cache_size_kb_of(ebx, ecx),
{
    let ways_field: u32 = (ebx >> 22) & 0x3FF;
    let partitions_field: u32 = (ebx >> 12) & 0x3FF;
    let line_field: u32 = ebx & 0xFFF;
    assert(ways_field == (ebx as int / 0x40_0000) % 1024) by (bit_vector)
        requires ways_field == (ebx >> 22) & 0x3FF;
    assert(partitions_field == (ebx as int / 0x1000) % 1024) by (bit_vector)
        requires partitions_field == (ebx >> 12) & 0x3FF;
    assert(line_field == ebx as int % 0x1000) by (bit_vector)
        requires line_field == ebx & 0xFFF;
    let ways: u32 = ways_field + 1;
    let partitions: u32 = partitions_field + 1;
    let line_size: u32 = line_field + 1;
    let sets: u32 = ecx.wrapping_add(1);
    let w: u64 = ways as u64;
    let p: u64 = partitions as u64;
    let l: u64 = line_size as u64;
    let s: u64 = sets as u64;
    assert(w * p <= 0x10_0000) by (nonlinear_arith)
        requires 1 <= w <= 1024, 1 <= p <= 1024;
    let wp: u64 = w * p;
    assert(wp * l <= 0x1_0000_0000) by (nonlinear_arith)
        requires wp <= 0x10_0000, l <= 4096;
    let wpl: u64 = wp * l;
    assert(wpl * s <= 0xffff_ffff_0000_0000) by (nonlinear_arith)
        requires wpl <= 0x1_0000_0000, s <= 0xffff_ffff;
    let product: u64 = wpl * s;
    let size: u64 = (product % 0x1_0000_0000) / 1024;
    size as usize
}

/// Decodes the (L1 data, L2, L3) cache sizes in KB from leaf-4 descriptors
/// read in sub-leaf order; the scan stops at the first descriptor of cache type 0.
pub fn decode_cache_leaves(leaves: &[CpuidRegisters]) -> (sizes: (usize, usize, usize))
    ensures
        sizes == cache_sizes_of(leaves@),
{
    let mut l1: usize = 0;
    let mut l2: usize = 0;
    let mut l3: usize = 0;
    let mut i: usize = 0;
    assert(leaves@.skip(0) =~= leaves@);
    while i < leaves.len()
        invariant
            0 <= i <= leaves@.len(),
            cache_sizes_of(leaves@) == scan_cache_leaves((l1, l2, l3), leaves@.skip(i as int)),
        decreases leaves@.len() - i,
    {
        let leaf = leaves[i];
        assert(leaves@.skip(i as int)[0] == leaf);
        assert(leaves@.skip(i as int).drop_first() =~= leaves@.skip(i + 1));
        let eax: u32 = leaf.eax;
        let cache_type: u32 = eax & 0x1F;
        assert(cache_type == eax as int % 32) by (bit_vector)
            requires cache_type == eax & 0x1F;
        if cache_type == 0 {
            return (l1, l2, l3);
        }
        let level: u32 = (eax >> 5) & 0x7;
        assert(level == (eax as int / 32) % 8) by (bit_vector)
            requires level == (eax >> 5) & 0x7;
        let size_kb: usize = cache_size_kb(leaf.ebx, leaf.ecx);
        if level == 1 && cache_type == 1 {
            l1 = size_kb;
        } else if level == 2 && cache_type == 3 {
            l2 = size_kb;
        } else if level == 3 && cache_type == 3 {
            l3 = size_kb;
        }
        i += 1;
    }
    assert(leaves@.skip(i as int).len() == 0);
    (l1, l2, l3)
}

/// The descriptors of leaf 4 read in sub-leaf order stop at the first one
/// whose cache type is zero (or after the last sub-leaf, `u32::MAX`): every
/// descriptor before the last reports a cache.
pub open spec fn is_leaf4_scan(leaves: Seq<CpuidRegisters>) -> bool {
    &&& 1 <= leaves.len() <= 0x1_0000_0000
    &&& forall|j: int| 0 <= j < leaves.len() - 1 ==> cache_type_of(#[trigger] leaves[j].eax) != 0
    &&& leaves.len() < 0x1_0000_0000 ==> cache_type_of(leaves.last().eax) == 0
}

/// The registers of a sequence of answers.
pub open spec fn answer_registers(answers: Seq<CpuidAnswer>) -> Seq<CpuidRegisters> {
    answers.map_values(|a: CpuidAnswer| a.registers())
}

/// `answers[i]` is the answer to leaf 4, sub-leaf `i`, and the answers stop
/// as `is_leaf4_scan` says.
pub open spec fn is_leaf4_read(answers: Seq<CpuidAnswer>) -> bool {
    &&& forall|i: int| 0 <= i < answers.len() ==> (#[trigger] answers[i]).leaf() == 4 && answers[i].sub_leaf() == i
    &&& is_leaf4_scan(answer_registers(answers))
}

/// Reads the deterministic cache parameters leaf (4) of `cpuid` at sub-leaves
/// 0, 1, 2, ... in order, until a sub-leaf reports cache type 0 (that answer
/// is the last one returned).
pub fn read_cache_leaves() -> (answers: Vec<CpuidAnswer>)
    ensures
        is_leaf4_read(answers@),
{
    let mut answers: Vec<CpuidAnswer> = Vec::new();
    let mut i: u32 = 0;
    loop
        invariant_except_break
            answers@.len() == i,
            forall|j: int| 0 <= j < answers@.len() ==> (#[trigger] answers@[j]).leaf() == 4 && answers@[j].sub_leaf() == j,
            forall|j: int| 0 <= j < answers@.len() ==> cache_type_of((#[trigger] answers@[j]).registers().eax) != 0,
        ensures
            is_leaf4_read(answers@),
        decreases u32::MAX - i,
    {
        let answer = cpuid_count(4, i);
        let eax: u32 = answer.regs().eax;
        let cache_type: u32 = eax & 0x1F;
        assert(cache_type == eax as int % 32) by (bit_vector)
            requires cache_type == eax & 0x1F;
        answers.push(answer);
        if cache_type == 0 || i == u32::MAX {
            proof {
                let regs = answer_registers(answers@);
                assert(regs.last() == answer.registers());
                assert forall|j: int| 0 <= j < regs.len() - 1 implies cache_type_of(#[trigger] regs[j].eax) != 0 by {
                    assert(regs[j] == answers@[j].registers());
                }
            }
            break;
        }
        i += 1;
    }
    answers
}

/// Retrieves the CPU cache sizes (L1 data, L2, L3) in KB by reading the
/// deterministic cache parameters leaf (4) of `cpuid`, sub-leaf by sub-leaf,
/// until a sub-leaf reports no cache.
pub fn get_cache_size() -> (sizes: (usize, usize, usize))
    ensures
        exists|answers: Seq<CpuidAnswer>|
            is_leaf4_read(answers) && sizes == #[trigger] cache_sizes_of(answer_registers(answers)),
{
    let answers = read_cache_leaves();
    let mut leaves: Vec<CpuidRegisters> = Vec::new();
    let mut k: usize = 0;
    while k < answers.len()
        invariant
            0 <= k <= answers@.len(),
            leaves@ =~= answer_registers(answers@).take(k as int),
        decreases answers@.len() - k,
    {
        leaves.push(answers[k].regs());
        k += 1;
    }
    assert(leaves@ =~= answer_registers(answers@));
    let sizes = decode_cache_leaves(leaves.as_slice());
    sizes
}

} // verus!
