//! The host the JIT compiles for.
use vstd::prelude::*;

verus! {

/// The processor family of the host.
#[derive(Debug, Clone, Copy, PartialEq, Eq, Structural)]
pub enum CpuArch {
    X86_64,
    AArch64,
}

/// The operating system of the host.
#[derive(Debug, Clone, Copy, PartialEq, Eq, Structural)]
pub enum OsSupervisor {
    Linux,
    MacOS,
    Windows,
}

/// The host's architecture and operating system, with its general-purpose
/// register names (the Smart Shuffler Layer's register pool).
#[derive(Debug, Clone)]
pub struct TargetContext {
    pub arch: CpuArch,
    pub os: OsSupervisor,
    pub available_registers: Vec<&'static str>,
    pub max_physical_trays: usize,
}

/// The register pool of an architecture: `rax`..`r15` on x86_64 (14 names),
/// `x0`..`x15` on AArch64 (16 names).
pub open spec fn register_pool(arch: CpuArch) -> Seq<Seq<char>> {
    match arch {
        CpuArch::X86_64 => seq![
            "rax"@, "rbx"@, "rcx"@, "rdx"@, "rsi"@, "rdi"@, "r8"@, "r9"@, "r10"@, "r11"@,
            "r12"@, "r13"@, "r14"@, "r15"@,
        ],
        CpuArch::AArch64 => seq![
            "x0"@, "x1"@, "x2"@, "x3"@, "x4"@, "x5"@, "x6"@, "x7"@, "x8"@, "x9"@, "x10"@, "x11"@,
            "x12"@, "x13"@, "x14"@, "x15"@,
        ],
    }
}

/// The names held by a list of string slices.
pub open spec fn names(v: Seq<&'static str>) -> Seq<Seq<char>> {
    v.map_values(|s: &'static str| s@)
}

impl TargetContext {
    /// The context of a host whose architecture and operating system the caller
    /// has read from the build configuration: the register pool of `arch`, and
    /// as many physical trays as the pool has registers.
    pub fn autodetect(arch: CpuArch, os: OsSupervisor) -> (r: TargetContext)
        ensures
            r.arch == arch,
            r.os == os,
            names(r.available_registers@) == register_pool(arch),
            r.max_physical_trays == r.available_registers@.len(),
    {
        let available_registers: Vec<&'static str> = match arch {
            CpuArch::X86_64 => vec![
                "rax", "rbx", "rcx", "rdx", "rsi", "rdi", "r8", "r9", "r10", "r11", "r12", "r13",
                "r14", "r15",
            ],
            CpuArch::AArch64 => vec![
                "x0", "x1", "x2", "x3", "x4", "x5", "x6", "x7", "x8", "x9", "x10", "x11", "x12",
                "x13", "x14", "x15",
            ],
        };
        assert(names(available_registers@) =~= register_pool(arch));
        let max_physical_trays = available_registers.len();
        TargetContext { arch, os, available_registers, max_physical_trays }
    }
}

} // verus!
