//! The confinement profile of a sandboxed sidecar: its Landlock access rights
//! and the seccomp-bpf deny-list program.

use vstd::prelude::*;

verus! {

/// Confinement profile for one sandboxed process.
pub struct SandboxProfile {
    /// Directories the child may write (staging dir and granted `[grants] fs` paths).
    pub writable_dirs: Vec<String>,
    /// Directories the child may read and execute (engine, libraries, system).
    pub readable_dirs: Vec<String>,
    /// Optional memory cap in bytes, applied through a cgroup where one is writable.
    pub memory_max_bytes: Option<u64>,
}

// Landlock access rights (linux/landlock.h), the subset valid from ABI 2 on.
pub const LANDLOCK_ACCESS_FS_EXECUTE: u64 = 1;
pub const LANDLOCK_ACCESS_FS_WRITE_FILE: u64 = 2;
pub const LANDLOCK_ACCESS_FS_READ_FILE: u64 = 4;
pub const LANDLOCK_ACCESS_FS_READ_DIR: u64 = 8;
pub const LANDLOCK_ACCESS_FS_REMOVE_DIR: u64 = 16;
pub const LANDLOCK_ACCESS_FS_REMOVE_FILE: u64 = 32;
pub const LANDLOCK_ACCESS_FS_MAKE_CHAR: u64 = 64;
pub const LANDLOCK_ACCESS_FS_MAKE_DIR: u64 = 128;
pub const LANDLOCK_ACCESS_FS_MAKE_REG: u64 = 256;
pub const LANDLOCK_ACCESS_FS_MAKE_SOCK: u64 = 512;
pub const LANDLOCK_ACCESS_FS_MAKE_FIFO: u64 = 1024;
pub const LANDLOCK_ACCESS_FS_MAKE_BLOCK: u64 = 2048;
pub const LANDLOCK_ACCESS_FS_MAKE_SYM: u64 = 4096;

/// Every right that creates, changes or removes something.
pub const LANDLOCK_ACCESS_FS_ALL_WRITE: u64 = LANDLOCK_ACCESS_FS_WRITE_FILE | LANDLOCK_ACCESS_FS_REMOVE_DIR
    | LANDLOCK_ACCESS_FS_REMOVE_FILE | LANDLOCK_ACCESS_FS_MAKE_CHAR | LANDLOCK_ACCESS_FS_MAKE_DIR
    | LANDLOCK_ACCESS_FS_MAKE_REG | LANDLOCK_ACCESS_FS_MAKE_SOCK | LANDLOCK_ACCESS_FS_MAKE_FIFO
    | LANDLOCK_ACCESS_FS_MAKE_BLOCK | LANDLOCK_ACCESS_FS_MAKE_SYM;

/// Every right that only reads or executes.
pub const LANDLOCK_ACCESS_FS_ALL_READ: u64 = LANDLOCK_ACCESS_FS_EXECUTE | LANDLOCK_ACCESS_FS_READ_FILE
    | LANDLOCK_ACCESS_FS_READ_DIR;

/// The rights a ruleset handles: all of them, so that whatever no rule grants is denied.
pub const LANDLOCK_ACCESS_FS_HANDLED: u64 = LANDLOCK_ACCESS_FS_ALL_READ | LANDLOCK_ACCESS_FS_ALL_WRITE;

/// The write rights are all handled by the ruleset, and none of them is a read
/// right: no write happens outside what a rule grants.
pub proof fn law_writes_are_handled()
    ensures
        LANDLOCK_ACCESS_FS_ALL_WRITE & !LANDLOCK_ACCESS_FS_HANDLED == 0,
        LANDLOCK_ACCESS_FS_ALL_WRITE & LANDLOCK_ACCESS_FS_ALL_READ == 0,
{
    assert(2u64 | 16u64 | 32u64 | 64u64 | 128u64 | 256u64 | 512u64 | 1024u64 | 2048u64 | 4096u64 == 8178u64) by (bit_vector);
    assert(1u64 | 4u64 | 8u64 == 13u64) by (bit_vector);
    assert(13u64 | 8178u64 == 8191u64) by (bit_vector);
    assert(8178u64 & !8191u64 == 0) by (bit_vector);
    assert(8178u64 & 13u64 == 0) by (bit_vector);
}

/// One classic-BPF instruction: opcode, jump-if-true offset, jump-if-false
/// offset, operand.
pub type BpfInsn = (u16, u8, u8, u32);

/// `BPF_LD | BPF_W | BPF_ABS`: load the syscall number (offset 0 of `seccomp_data`).
pub const BPF_LD_NR: u16 = 0x20;
/// `BPF_JMP | BPF_JEQ | BPF_K`.
pub const BPF_JEQ: u16 = 0x15;
/// `BPF_RET | BPF_K`.
pub const BPF_RET: u16 = 0x06;
/// `SECCOMP_RET_ALLOW`.
pub const SECCOMP_RET_ALLOW: u32 = 0x7fff_0000;
/// `SECCOMP_RET_ERRNO | EPERM`.
pub const SECCOMP_RET_EPERM: u32 = 0x0005_0001;

/// The deny-list program for the syscall numbers `deny`: load the number, one
/// `JEQ` per denied number that on a match jumps over the remaining `JEQ`s and
/// the `ALLOW`, then `ALLOW`, then the `ERRNO|EPERM` tail.
pub open spec fn deny_filter(deny: Seq<i64>) -> Seq<BpfInsn> {
    let n = deny.len();
    seq![(BPF_LD_NR, 0u8, 0u8, 0u32)]
        + Seq::new(n, |i: int| (BPF_JEQ, (n - i) as u8, 0u8, deny[i] as u32))
        + seq![(BPF_RET, 0u8, 0u8, SECCOMP_RET_ALLOW), (BPF_RET, 0u8, 0u8, SECCOMP_RET_EPERM)]
}

/// Builds the deny-list program; see [`deny_filter`]. Jump offsets and syscall
/// numbers are truncated to their fields' widths, as the kernel reads them.
pub fn build_deny_filter(deny: &[i64]) -> (r: Vec<BpfInsn>)
    ensures
        r@ == deny_filter(deny@),
{
    let n = deny.len();
    let mut filters: Vec<BpfInsn> = Vec::new();
    filters.push((BPF_LD_NR, 0, 0, 0));
    let mut i: usize = 0;
    while i < n
        invariant
            i <= n == deny@.len(),
            filters@ == seq![(BPF_LD_NR, 0u8, 0u8, 0u32)]
                + Seq::new(i as nat, |j: int| (BPF_JEQ, (n - j) as u8, 0u8, deny@[j] as u32)),
        decreases n - i,
    {
        let jt = (n - i) as u8;
        let k = deny[i] as u32;
        filters.push((BPF_JEQ, jt, 0, k));
        proof {
            assert(filters@ =~= seq![(BPF_LD_NR, 0u8, 0u8, 0u32)]
                + Seq::new((i + 1) as nat, |j: int| (BPF_JEQ, (n - j) as u8, 0u8, deny@[j] as u32)));
        }
        i = i + 1;
    }
    filters.push((BPF_RET, 0, 0, SECCOMP_RET_ALLOW));
    filters.push((BPF_RET, 0, 0, SECCOMP_RET_EPERM));
    proof {
        assert(filters@ =~= deny_filter(deny@));
    }
    filters
}

/// Every denied syscall returns `EPERM`: the program has `n + 3` instructions,
/// and for a deny-list of fewer than 256 numbers the `i`-th `JEQ` (at index
/// `i + 1`) jumps, on a match, to exactly the last instruction, which returns
/// `ERRNO|EPERM`, while falling through past all `JEQ`s reaches `ALLOW`.
pub proof fn law_denied_syscalls_land_on_eperm(deny: Seq<i64>)
    requires
        deny.len() < 256,
    ensures
        deny_filter(deny).len() == deny.len() + 3,
        deny_filter(deny)[0].0 == BPF_LD_NR,
        forall|i: int| 0 <= i < deny.len() ==> {
            let insn = #[trigger] deny_filter(deny)[i + 1];
            &&& insn.0 == BPF_JEQ
            &&& insn.3 == deny[i] as u32
            &&& (i + 1) + 1 + insn.1 == deny.len() + 2
        },
        deny_filter(deny)[deny.len() as int + 1] == (BPF_RET, 0u8, 0u8, SECCOMP_RET_ALLOW),
        deny_filter(deny)[deny.len() as int + 2] == (BPF_RET, 0u8, 0u8, SECCOMP_RET_EPERM),
{
    let f = deny_filter(deny);
    let n = deny.len();
    assert forall|i: int| 0 <= i < n implies {
        let insn = #[trigger] f[i + 1];
        &&& insn.0 == BPF_JEQ
        &&& insn.3 == deny[i] as u32
        &&& (i + 1) + 1 + insn.1 == n + 2
    } by {
        assert(f[i + 1] == (BPF_JEQ, (n - i) as u8, 0u8, deny[i] as u32));
        assert(0 < n - i < 256);
    }
}

} // verus!
