//! One `cpuid` query and its answer. An answer is built only here, by the
//! query itself, so it always carries what the processor returned for the
//! leaf and sub-leaf it records.

use vstd::prelude::*;
use crate::CpuidRegisters;

verus! {

/// The answer of one `cpuid` query, with the leaf and sub-leaf it was asked
/// for. Only a query builds one.
#[derive(Clone, Copy, Debug)]
pub struct CpuidAnswer {
    leaf: u32,
    sub_leaf: u32,
    regs: CpuidRegisters,
}

impl CpuidAnswer {
    /// The leaf that was queried.
    pub closed spec fn leaf(&self) -> u32 {
        self.leaf
    }

    /// The sub-leaf that was queried.
    pub closed spec fn sub_leaf(&self) -> u32 {
        self.sub_leaf
    }

    /// The registers the processor answered with.
    pub closed spec fn registers(&self) -> CpuidRegisters {
        self.regs
    }

    /// The queried leaf and sub-leaf.
    pub fn query(&self) -> (q: (u32, u32))
        ensures
            q == (self.leaf(), self.sub_leaf()),
    {
        (self.leaf, self.sub_leaf)
    }

    /// The registers the processor answered with.
    pub fn regs(&self) -> (r: CpuidRegisters)
        ensures
            r == self.registers(),
    {
        self.regs
    }
}

/// Queries `cpuid` with the given leaf and sub-leaf (`std::arch::x86_64::__cpuid_count`).
/// The answer records the leaf and sub-leaf that were passed; the registers
/// depend on the processor, so nothing is promised of them.
#[verifier::external_body]
pub(crate) fn cpuid_count(leaf: u32, sub_leaf: u32) -> (a: CpuidAnswer)
    ensures
        a.leaf() == leaf,
        a.sub_leaf() == sub_leaf,
{
    let r = std::arch::x86_64::__cpuid_count(leaf, sub_leaf);
    CpuidAnswer { leaf, sub_leaf, regs: CpuidRegisters { eax: r.eax, ebx: r.ebx, ecx: r.ecx, edx: r.edx } }
}

} // verus!
