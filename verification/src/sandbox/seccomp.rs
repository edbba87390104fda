//! The seccomp filter a content process runs under on Linux.
//!
//! The filter first pins the architecture: syscall numbers differ per ABI, so
//! a filter that matches numbers without it can be bypassed by entering
//! through a second ABI. A foreign architecture is killed. Then each denied
//! number is compared, and a match jumps to the final instruction, which
//! fails the call with `EPERM`; everything else falls through to the allow
//! just before it.
//!
//! The denied calls are each an escape or escalation primitive: attaching to
//! or reading another process, replacing or extending the kernel, reshaping
//! the filesystem view, leaving namespaces, and a few long-standing sources
//! of kernel bugs.
use vstd::prelude::*;

verus! {

/// `BPF_LD`.
pub const BPF_LD: u16 = 0x00;
/// `BPF_W`.
pub const BPF_W: u16 = 0x00;
/// `BPF_ABS`.
pub const BPF_ABS: u16 = 0x20;
/// `BPF_JMP`.
pub const BPF_JMP: u16 = 0x05;
/// `BPF_JEQ`.
pub const BPF_JEQ: u16 = 0x10;
/// `BPF_K`.
pub const BPF_K: u16 = 0x00;
/// `BPF_RET`.
pub const BPF_RET: u16 = 0x06;

/// Offset of `nr` in `struct seccomp_data`.
pub const SECCOMP_DATA_NR_OFFSET: u32 = 0;
/// Offset of `arch` in `struct seccomp_data`.
pub const SECCOMP_DATA_ARCH_OFFSET: u32 = 4;

/// Kill the whole process.
pub const SECCOMP_RET_KILL_PROCESS: u32 = 0x8000_0000;
/// Fail the call with the errno in the low bits.
pub const SECCOMP_RET_ERRNO: u32 = 0x0005_0000;
/// Let the call through.
pub const SECCOMP_RET_ALLOW: u32 = 0x7fff_0000;
/// `EPERM`, returned to the denied caller rather than killing it.
pub const EPERM: u32 = 1;

/// `AUDIT_ARCH_X86_64`.
pub const AUDIT_ARCH_X86_64: u32 = 0xc000_003e;
/// `AUDIT_ARCH_AARCH64`.
pub const AUDIT_ARCH_AARCH64: u32 = 0xc000_00b7;

/// `PR_SET_NO_NEW_PRIVS`.
pub const PR_SET_NO_NEW_PRIVS: i32 = 38;
/// `PR_GET_NO_NEW_PRIVS`.
pub const PR_GET_NO_NEW_PRIVS: i32 = 39;
/// `PR_SET_SECCOMP`.
pub const PR_SET_SECCOMP: i32 = 22;
/// `PR_GET_SECCOMP`.
pub const PR_GET_SECCOMP: i32 = 21;
/// `SECCOMP_MODE_FILTER`.
pub const SECCOMP_MODE_FILTER: i32 = 2;

/// An architecture the filter knows the syscall numbers of.
#[derive(Debug, Clone, Copy, PartialEq, Eq, Structural)]
pub enum Arch {
    /// x86-64.
    X86_64,
    /// 64-bit ARM.
    Aarch64,
}

/// The `AUDIT_ARCH_*` value of an architecture.
pub open spec fn audit_arch_of(arch: Arch) -> u32 {
    match arch {
        Arch::X86_64 => AUDIT_ARCH_X86_64,
        Arch::Aarch64 => AUDIT_ARCH_AARCH64,
    }
}

/// The syscalls a content process must never make, by number, in this
/// order: ptrace, process_vm_readv, process_vm_writev, kexec_load,
/// kexec_file_load, init_module, finit_module, delete_module, mount,
/// umount2, pivot_root, chroot, setns, unshare, perf_event_open, bpf,
/// userfaultfd.
pub open spec fn denied_of(arch: Arch) -> Seq<u32> {
    match arch {
        Arch::X86_64 => seq![101u32, 310, 311, 246, 320, 175, 313, 176, 165, 166, 155, 161, 308, 272, 298, 321, 323],
        Arch::Aarch64 => seq![117u32, 270, 271, 104, 294, 105, 273, 106, 40, 39, 41, 51, 268, 97, 241, 280, 282],
    }
}

/// The `AUDIT_ARCH_*` value of an architecture.
pub fn audit_arch(arch: Arch) -> (r: u32)
    ensures
        r == audit_arch_of(arch),
{
    match arch {
        Arch::X86_64 => AUDIT_ARCH_X86_64,
        Arch::Aarch64 => AUDIT_ARCH_AARCH64,
    }
}

/// The denied syscall numbers of an architecture.
pub fn denied_syscalls(arch: Arch) -> (r: Vec<u32>)
    ensures
        r@ == denied_of(arch),
{
    let r = match arch {
        Arch::X86_64 => vec![101u32, 310, 311, 246, 320, 175, 313, 176, 165, 166, 155, 161, 308, 272, 298, 321, 323],
        Arch::Aarch64 => vec![117u32, 270, 271, 104, 294, 105, 273, 106, 40, 39, 41, 51, 268, 97, 241, 280, 282],
    };
    assert(r@ =~= denied_of(arch));
    r
}

/// One BPF instruction, as `struct sock_filter` lays it out.
#[derive(Debug, Clone, Copy, PartialEq, Eq, Structural)]
pub struct SockFilter {
    /// The operation.
    pub code: u16,
    /// How far to jump when a comparison holds.
    pub jt: u8,
    /// How far to jump when it does not.
    pub jf: u8,
    /// The operand.
    pub k: u32,
}

/// An instruction that does not jump.
pub open spec fn stmt(code: u16, k: u32) -> SockFilter {
    SockFilter { code, jt: 0, jf: 0, k }
}

/// The comparison of the denied number `nr` at position `i` of `n`: on a
/// match it skips the remaining comparisons and the allow.
pub open spec fn deny_compare(nr: u32, i: int, n: int) -> SockFilter {
    SockFilter { code: BPF_JMP | BPF_JEQ | BPF_K, jt: (n - i) as u8, jf: 0, k: nr }
}

/// The filter for `arch`: load the architecture and kill on a mismatch, load
/// the number, compare it against each denied number, allow, and deny.
pub open spec fn filter_of(arch: Arch) -> Seq<SockFilter> {
    let d = denied_of(arch);
    seq![
        stmt(BPF_LD | BPF_W | BPF_ABS, SECCOMP_DATA_ARCH_OFFSET),
        SockFilter { code: BPF_JMP | BPF_JEQ | BPF_K, jt: 1, jf: 0, k: audit_arch_of(arch) },
        stmt(BPF_RET | BPF_K, SECCOMP_RET_KILL_PROCESS),
        stmt(BPF_LD | BPF_W | BPF_ABS, SECCOMP_DATA_NR_OFFSET),
    ] + Seq::new(d.len(), |i: int| deny_compare(d[i], i, d.len() as int)) + seq![
        stmt(BPF_RET | BPF_K, SECCOMP_RET_ALLOW),
        stmt(BPF_RET | BPF_K, SECCOMP_RET_ERRNO | EPERM),
    ]
}

/// Build the filter for `arch`.
///
/// Every comparison's match jumps exactly to the final instruction, which
/// denies with `EPERM`; the instruction before it allows; and the
/// architecture is loaded, compared and killed on before any number is
/// loaded.
pub fn filter_for(arch: Arch) -> (program: Vec<SockFilter>)
    ensures
        program@ == filter_of(arch),
        program@.len() == denied_of(arch).len() + 6,
        forall|i: int|
            0 <= i < denied_of(arch).len() ==> 4 + i + 1 + (#[trigger] program@[4 + i]).jt == program@.len() - 1
                && program@[4 + i].k == denied_of(arch)[i] && program@[4 + i].code == BPF_JMP | BPF_JEQ | BPF_K,
        program@[program@.len() - 1] == stmt(BPF_RET | BPF_K, SECCOMP_RET_ERRNO | EPERM),
        program@[program@.len() - 2] == stmt(BPF_RET | BPF_K, SECCOMP_RET_ALLOW),
        program@[0].k == SECCOMP_DATA_ARCH_OFFSET,
        program@[1].k == audit_arch_of(arch),
        program@[2].k == SECCOMP_RET_KILL_PROCESS,
        program@[3].k == SECCOMP_DATA_NR_OFFSET,
{
    let denied = denied_syscalls(arch);
    let n = denied.len();
    let mut program: Vec<SockFilter> = Vec::new();
    program.push(SockFilter { code: BPF_LD | BPF_W | BPF_ABS, jt: 0, jf: 0, k: SECCOMP_DATA_ARCH_OFFSET });
    program.push(SockFilter { code: BPF_JMP | BPF_JEQ | BPF_K, jt: 1, jf: 0, k: audit_arch(arch) });
    program.push(SockFilter { code: BPF_RET | BPF_K, jt: 0, jf: 0, k: SECCOMP_RET_KILL_PROCESS });
    program.push(SockFilter { code: BPF_LD | BPF_W | BPF_ABS, jt: 0, jf: 0, k: SECCOMP_DATA_NR_OFFSET });
    let ghost head = program@;
    let mut i: usize = 0;
    while i < n
        invariant
            n == denied@.len() == 17,
            denied@ == denied_of(arch),
            i <= n,
            program@ == head + Seq::new(i as nat, |j: int| deny_compare(denied@[j], j, n as int)),
        decreases n - i,
    {
        let remaining = n - i - 1;
        let to_deny: u8 = (remaining + 1) as u8;
        program.push(SockFilter { code: BPF_JMP | BPF_JEQ | BPF_K, jt: to_deny, jf: 0, k: denied[i] });
        i += 1;
        assert(program@ =~= head + Seq::new(i as nat, |j: int| deny_compare(denied@[j], j, n as int)));
    }
    program.push(SockFilter { code: BPF_RET | BPF_K, jt: 0, jf: 0, k: SECCOMP_RET_ALLOW });
    program.push(SockFilter { code: BPF_RET | BPF_K, jt: 0, jf: 0, k: SECCOMP_RET_ERRNO | EPERM });
    assert(program@ =~= filter_of(arch));
    program
}

/// The filter for x86-64, the architecture this is built and tested on.
pub fn build_filter() -> (program: Vec<SockFilter>)
    ensures
        program@ == filter_of(Arch::X86_64),
{
    filter_for(Arch::X86_64)
}

/// A step of applying the policy.
#[derive(Debug, Clone, Copy, PartialEq, Eq, Structural)]
pub enum Rung {
    /// `no_new_privs`, which stops a setuid binary regaining what the filter
    /// took away.
    NoNewPrivs,
    /// The seccomp filter.
    Seccomp,
}

/// Why the policy could not be applied.
#[derive(Debug, Clone, PartialEq, Eq)]
pub enum PolicyError {
    /// A step failed.
    Failed {
        /// Which step.
        rung: Rung,
        /// What went wrong.
        detail: &'static str,
    },
    /// The platform refused to apply the floor at all.
    Refused(&'static str),
}

/// What setting `no_new_privs` amounts to, given what `prctl` returned for the
/// set (`set`) and for the read-back (`got`). The read-back is the evidence:
/// the bit must read back as set.
pub fn no_new_privs_outcome(set: i32, got: i32) -> (r: Result<(), PolicyError>)
    ensures
        r is Ok <==> set == 0 && got == 1,
        set != 0 ==> r == Err::<(), PolicyError>(
            PolicyError::Failed { rung: Rung::NoNewPrivs, detail: "prctl(PR_SET_NO_NEW_PRIVS) was refused" },
        ),
        set == 0 && got != 1 ==> r == Err::<(), PolicyError>(
            PolicyError::Failed { rung: Rung::NoNewPrivs, detail: "no_new_privs did not take: it reads back unset" },
        ),
{
    if set != 0 {
        return Err(PolicyError::Failed { rung: Rung::NoNewPrivs, detail: "prctl(PR_SET_NO_NEW_PRIVS) was refused" });
    }
    if got != 1 {
        return Err(
            PolicyError::Failed { rung: Rung::NoNewPrivs, detail: "no_new_privs did not take: it reads back unset" },
        );
    }
    Ok(())
}

/// The length field of the program handed to the kernel, which is a `u16`.
pub fn filter_len(len: usize) -> (r: Result<u16, PolicyError>)
    ensures
        len <= u16::MAX ==> r == Ok::<u16, PolicyError>(len as u16),
        len > u16::MAX ==> r == Err::<u16, PolicyError>(
            PolicyError::Failed { rung: Rung::Seccomp, detail: "the filter is too long for BPF" },
        ),
{
    if len > 65535 {
        Err(PolicyError::Failed { rung: Rung::Seccomp, detail: "the filter is too long for BPF" })
    } else {
        Ok(len as u16)
    }
}

/// What installing the filter amounts to, given what `prctl` returned for
/// the install (`installed`) and for the read-back of the mode (`mode`): the
/// mode must read back as filtering.
pub fn seccomp_outcome(installed: i32, mode: i32) -> (r: Result<(), PolicyError>)
    ensures
        r is Ok <==> installed == 0 && mode == SECCOMP_MODE_FILTER,
        installed != 0 ==> r == Err::<(), PolicyError>(
            PolicyError::Failed { rung: Rung::Seccomp, detail: "prctl(PR_SET_SECCOMP) was refused" },
        ),
        installed == 0 && mode != SECCOMP_MODE_FILTER ==> r == Err::<(), PolicyError>(
            PolicyError::Failed { rung: Rung::Seccomp, detail: "the seccomp filter did not take: mode is not filter" },
        ),
{
    if installed != 0 {
        return Err(PolicyError::Failed { rung: Rung::Seccomp, detail: "prctl(PR_SET_SECCOMP) was refused" });
    }
    if mode != SECCOMP_MODE_FILTER {
        return Err(
            PolicyError::Failed { rung: Rung::Seccomp, detail: "the seccomp filter did not take: mode is not filter" },
        );
    }
    Ok(())
}

} // verus!
