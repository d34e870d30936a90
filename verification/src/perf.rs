//! What a perf event for a uprobe or a hardware breakpoint looks like, and
//! how its samples read. The constants differ between the two supported
//! architectures, so each is a function of the architecture.

use vstd::prelude::*;
use crate::bytes::u64_at;
use crate::fault::{tell, tell_owned, told, Fault, Kind};
use crate::numbers::{is_power_of_two, power_of_two};
use crate::ring::{
    decodes, lost_in, malformed_in, next_record, parse_sample, records_from, sample_need,
    samples_in, stops_short, RecordView, Sample, HEADER_SIZE, PERF_RECORD_LOST,
    PERF_RECORD_SAMPLE,
};
use crate::text::{chars_of, int_fault_text, read_unsigned, trim, trimmed, unsigned_value};

verus! {

/// Most fields exist only for the kernel to read.
pub struct PerfEventAttr {
    pub type_: u32,
    pub size: u32,
    pub config: u64,
    pub sample_period: u64,
    pub sample_type: u64,
    pub read_format: u64,
    pub flags: u64,
    pub wakeup_events: u32,
    pub bp_type: u32,
    pub config1: u64,
    pub config2: u64,
    pub branch_sample_type: u64,
    pub sample_regs_user: u64,
    pub sample_stack_user: u32,
    pub clockid: i32,
    pub sample_regs_intr: u64,
    pub aux_watermark: u32,
    pub sample_max_stack: u16,
    pub reserved_2: u16,
    pub aux_sample_size: u32,
    pub reserved_3: u32,
    pub sig_data: u64,
}

/// The kernel's `PERF_ATTR_SIZE_VER8`.
pub const PERF_ATTR_SIZE: u32 = 128;

pub const PERF_SAMPLE_IP: u64 = 0x1;
pub const PERF_SAMPLE_TID: u64 = 0x2;
pub const PERF_SAMPLE_TIME: u64 = 0x4;
pub const PERF_SAMPLE_REGS_USER: u64 = 0x1000;
pub const PERF_SAMPLE_STACK_USER: u64 = 0x2000;

pub const FLAG_DISABLED: u64 = 0x1;
pub const FLAG_EXCLUDE_KERNEL: u64 = 0x20;
pub const FLAG_EXCLUDE_HV: u64 = 0x40;

/// `AArch64` exposes a handful of breakpoint registers per task, so a probe
/// set cannot be spread across debug registers the way uprobes can.
pub const HW_BREAKPOINT_SLOTS: usize = 4;

pub const PERF_TYPE_BREAKPOINT: u32 = 5;
pub const HW_BREAKPOINT_R: u32 = 1;
pub const HW_BREAKPOINT_W: u32 = 2;
pub const HW_BREAKPOINT_RW: u32 = 3;
pub const HW_BREAKPOINT_X: u32 = 4;

/// The uprobe PMU publishes this as `config:0` in its format directory.
pub const RETPROBE_BIT: u64 = 0x1;

#[derive(Debug, Clone, Copy, PartialEq, Eq, Structural)]
pub enum Arch {
    Aarch64,
    X86_64,
}

/// `AArch64` passes arguments in x0-x7 and puts an indirect result pointer in
/// x8. x9 and x10 often hold a flattened dispatcher's block, x29 is the frame
/// pointer, x30 the link register and 31 the stack pointer. `x86_64` passes
/// arguments in rdi, rsi, rdx, rcx, r8, r9, and has no link register, so rbp
/// and rsp are sampled beside them.
pub open spec fn sampled(arch: Arch, reg: int) -> bool {
    match arch {
        Arch::Aarch64 => 0 <= reg <= 10 || 29 <= reg <= 31,
        Arch::X86_64 => 2 <= reg <= 7 || 16 <= reg <= 17,
    }
}

/// How many sampled registers are numbered below `reg`. The kernel emits them
/// in ascending order, so this is the slot that `reg` is found in.
pub open spec fn slot_of(arch: Arch, reg: int) -> int
    decreases reg,
{
    if reg <= 0 {
        0
    } else {
        slot_of(arch, reg - 1) + if sampled(arch, reg - 1) {
            1int
        } else {
            0
        }
    }
}

/// The register that carries each argument, in argument order.
pub open spec fn arg_registers(arch: Arch) -> Seq<int> {
    match arch {
        Arch::Aarch64 => seq![0, 1, 2, 3, 4, 5, 6, 7, 8],
        Arch::X86_64 => seq![5, 4, 3, 2, 16, 17],
    }
}

pub open spec fn frame_register(arch: Arch) -> int {
    match arch {
        Arch::Aarch64 => 29,
        Arch::X86_64 => 6,
    }
}

pub open spec fn stack_register(arch: Arch) -> int {
    match arch {
        Arch::Aarch64 => 31,
        Arch::X86_64 => 7,
    }
}

/// The register that names the caller: the link register, or the stack
/// pointer where the return address is on top of the stack.
pub open spec fn caller_register(arch: Arch) -> int {
    match arch {
        Arch::Aarch64 => 30,
        Arch::X86_64 => 7,
    }
}

/// The slots of the registers that the sampler reads follow from the mask.
pub proof fn lemma_slots(arch: Arch)
    ensures
        slot_of(arch, 64) == arch.spec_sampled_regs(),
        slot_of(arch, frame_register(arch)) == arch.spec_fp_slot(),
        slot_of(arch, stack_register(arch)) == arch.spec_sp_slot(),
        slot_of(arch, caller_register(arch)) == arch.spec_caller_slot(),
        sampled(arch, frame_register(arch)),
        sampled(arch, stack_register(arch)),
        sampled(arch, caller_register(arch)),
        arg_registers(arch).len() == arch.spec_arg_count(),
        forall|i: int|
            0 <= i < arch.spec_arg_count() ==> {
                &&& #[trigger] sampled(arch, arg_registers(arch)[i])
                &&& slot_of(arch, arg_registers(arch)[i]) == arch.spec_arg_order(i)
            },
{
    reveal_with_fuel(slot_of, 65);
}

/// The mask names exactly the sampled registers.
pub proof fn lemma_mask(arch: Arch, reg: u64)
    requires
        reg < 64,
    ensures
        ((arch.spec_arg_regs() >> reg) & 1 == 1) == sampled(arch, reg as int),
{
    assert(((0xE000_07FFu64 >> reg) & 1 == 1) == (reg <= 10 || (29 <= reg && reg <= 31)))
        by (bit_vector)
        requires
            reg < 64,
    ;
    assert(((0x3_00FCu64 >> reg) & 1 == 1) == ((2 <= reg && reg <= 7) || (16 <= reg && reg <= 17)))
        by (bit_vector)
        requires
            reg < 64,
    ;
}

impl Arch {
    pub open spec fn spec_arg_regs(self) -> u64 {
        match self {
            Arch::Aarch64 => 0xE000_07FF,
            Arch::X86_64 => 0x3_00FC,
        }
    }

    pub open spec fn spec_sampled_regs(self) -> int {
        match self {
            Arch::Aarch64 => 14,
            Arch::X86_64 => 8,
        }
    }

    pub open spec fn spec_arg_count(self) -> int {
        match self {
            Arch::Aarch64 => 9,
            Arch::X86_64 => 6,
        }
    }

    /// The slot of argument `i`.
    pub open spec fn spec_arg_order(self, i: int) -> int {
        match self {
            Arch::Aarch64 => i,
            Arch::X86_64 => if i < 4 {
                3 - i
            } else {
                i + 2
            },
        }
    }

    pub open spec fn spec_fp_slot(self) -> int {
        match self {
            Arch::Aarch64 => 11,
            Arch::X86_64 => 4,
        }
    }

    pub open spec fn spec_caller_slot(self) -> int {
        match self {
            Arch::Aarch64 => 12,
            Arch::X86_64 => 5,
        }
    }

    pub open spec fn spec_sp_slot(self) -> int {
        match self {
            Arch::Aarch64 => 13,
            Arch::X86_64 => 5,
        }
    }

    /// The mask of sampled registers.
    pub fn arg_regs(self) -> (r: u64)
        ensures
            r == self.spec_arg_regs(),
    {
        match self {
            Arch::Aarch64 => 0xE000_07FF,
            Arch::X86_64 => 0x3_00FC,
        }
    }

    /// How many registers a sample carries.
    pub fn sampled_regs(self) -> (r: usize)
        ensures
            r == self.spec_sampled_regs(),
    {
        match self {
            Arch::Aarch64 => 14,
            Arch::X86_64 => 8,
        }
    }

    /// How many of them are arguments.
    pub fn arg_count(self) -> (r: usize)
        ensures
            r == self.spec_arg_count(),
    {
        match self {
            Arch::Aarch64 => 9,
            Arch::X86_64 => 6,
        }
    }

    /// The slot of argument `i`.
    pub fn arg_order(self, i: usize) -> (r: usize)
        requires
            i < self.spec_arg_count(),
        ensures
            r == self.spec_arg_order(i as int),
            r < self.spec_sampled_regs(),
    {
        match self {
            Arch::Aarch64 => i,
            Arch::X86_64 => if i < 4 {
                3 - i
            } else {
                i + 2
            },
        }
    }

    /// The slot of the frame pointer.
    pub fn fp_slot(self) -> (r: usize)
        ensures
            r == self.spec_fp_slot(),
    {
        match self {
            Arch::Aarch64 => 11,
            Arch::X86_64 => 4,
        }
    }

    /// The slot that names the caller.
    pub fn caller_slot(self) -> (r: usize)
        ensures
            r == self.spec_caller_slot(),
    {
        match self {
            Arch::Aarch64 => 12,
            Arch::X86_64 => 5,
        }
    }

    /// The slot of the stack pointer.
    pub fn sp_slot(self) -> (r: usize)
        ensures
            r == self.spec_sp_slot(),
    {
        match self {
            Arch::Aarch64 => 13,
            Arch::X86_64 => 5,
        }
    }

    pub open spec fn spec_caller_is_link_register(self) -> bool {
        self == Arch::Aarch64
    }

    /// On `AArch64` x30 is the return address at function entry, so a probe
    /// hit names its own caller.
    pub fn caller_is_link_register(self) -> (r: bool)
        ensures
            r == self.spec_caller_is_link_register(),
    {
        matches!(self, Arch::Aarch64)
    }

    pub open spec fn spec_arg_prefix(self) -> Seq<char> {
        match self {
            Arch::Aarch64 => "x"@,
            Arch::X86_64 => "arg"@,
        }
    }

    /// Names the registers after the architecture's own notation, so a value
    /// can be matched against a disassembly listing.
    pub fn arg_prefix(self) -> (r: &'static str)
        ensures
            r@ == self.spec_arg_prefix(),
    {
        match self {
            Arch::Aarch64 => "x",
            Arch::X86_64 => "arg",
        }
    }

    pub open spec fn spec_exec_len(self) -> u64 {
        match self {
            Arch::Aarch64 => 4,
            Arch::X86_64 => 1,
        }
    }

    /// x86 execution breakpoints must have length 1, arm64 matches an
    /// instruction.
    pub fn exec_len(self) -> (r: u64)
        ensures
            r == self.spec_exec_len(),
    {
        match self {
            Arch::Aarch64 => 4,
            Arch::X86_64 => 1,
        }
    }

    pub open spec fn spec_caller_stack(self) -> u32 {
        match self {
            Arch::Aarch64 => 0,
            Arch::X86_64 => 8,
        }
    }
}

/// A length that the debug registers can watch.
pub open spec fn watchable(len: u64) -> bool {
    len == 1 || len == 2 || len == 4 || len == 8
}

/// A watchpoint's length must be a power of two up to eight, and the address
/// has to be aligned to it, or the kernel rejects the event.
#[must_use]
pub fn watch_len_is_valid(len: u64) -> (r: bool)
    ensures
        r == watchable(len),
{
    len == 1 || len == 2 || len == 4 || len == 8
}

/// The stack bytes that each hit captures for a request of `stack`. `x86_64`
/// has no link register, so naming a caller means reading the return address
/// off the stack and a few bytes are always captured.
pub open spec fn captured(arch: Arch, stack: u32) -> u32 {
    if stack > arch.spec_caller_stack() {
        stack
    } else {
        arch.spec_caller_stack()
    }
}

/// The stack bytes that each hit captures for a request of `stack`.
pub fn captured_stack(arch: Arch, stack: u32) -> (r: u32)
    ensures
        r == captured(arch, stack),
{
    let least: u32 = match arch {
        Arch::Aarch64 => 0,
        Arch::X86_64 => 8,
    };
    if stack > least {
        stack
    } else {
        least
    }
}

/// The register in a slot, if the sample has that many.
pub open spec fn slot_value(regs: Seq<u64>, slot: int) -> Option<u64> {
    if slot < regs.len() {
        Some(regs[slot])
    } else {
        None
    }
}

fn get_slot(regs: &[u64], slot: usize) -> (r: Option<u64>)
    ensures
        r == slot_value(regs@, slot as int),
{
    if slot < regs.len() {
        Some(regs[slot])
    } else {
        None
    }
}

/// The flattening state. A dispatcher compares this against a block constant,
/// so reading it names the block about to run. Absent on architectures where
/// no such register is sampled.
#[must_use]
pub fn state(arch: Arch, regs: &[u64]) -> (r: Option<[u64; 3]>)
    ensures
        r is Some <==> arch == Arch::Aarch64 && regs@.len() > 10,
        r matches Some(s) ==> s@ =~= seq![regs@[8], regs@[9], regs@[10]],
{
    match arch {
        Arch::Aarch64 => if regs.len() > 10 {
            Some([regs[8], regs[9], regs[10]])
        } else {
            None
        },
        Arch::X86_64 => None,
    }
}

/// The frame pointer, which is what a frame walk chains through.
#[must_use]
pub fn frame_pointer(arch: Arch, regs: &[u64]) -> (r: Option<u64>)
    ensures
        r == slot_value(regs@, arch.spec_fp_slot()),
{
    get_slot(regs, arch.fp_slot())
}

/// Where the captured stack begins, since the bytes mean nothing without that
/// base.
#[must_use]
pub fn stack_pointer(arch: Arch, regs: &[u64]) -> (r: Option<u64>)
    ensures
        r == slot_value(regs@, arch.spec_sp_slot()),
{
    get_slot(regs, arch.sp_slot())
}

/// Whether an index can be dumped through: those of the arguments, and the slot
/// of the stack pointer, because a callee returning a large object writes it
/// through a caller stack slot rather than a register. On `x86_64` that slot
/// has the number of the last argument, which stands for the argument: there
/// such an object is written through a pointer in the first one.
pub open spec fn dumpable(arch: Arch, index: int) -> bool {
    index < arch.spec_arg_count() || index == arch.spec_sp_slot()
}

/// Whether an index can be dumped through.
#[must_use]
pub fn is_dumpable(arch: Arch, index: usize) -> (r: bool)
    ensures
        r == dumpable(arch, index as int),
{
    index < arch.arg_count() || index == arch.sp_slot()
}

/// The register that names the caller.
#[must_use]
pub fn caller_slot(arch: Arch, regs: &[u64]) -> (r: Option<u64>)
    ensures
        r == slot_value(regs@, arch.spec_caller_slot()),
{
    get_slot(regs, arch.caller_slot())
}

/// The arguments of a sample, in argument order.
pub open spec fn arguments(arch: Arch, regs: Seq<u64>) -> Seq<u64> {
    Seq::new(arch.spec_arg_count() as nat, |i: int| regs[arch.spec_arg_order(i)])
}

/// Reorders sampled slots into argument order. The kernel emits in ascending
/// register index, which is not argument order on `x86_64`.
pub fn args_from_regs(arch: Arch, regs: &[u64]) -> (r: Option<Vec<u64>>)
    ensures
        r is Some <==> regs@.len() >= arch.spec_sampled_regs(),
        r matches Some(args) ==> args@ == arguments(arch, regs@),
{
    if regs.len() < arch.sampled_regs() {
        return None;
    }
    let mut out: Vec<u64> = Vec::new();
    while out.len() < arch.arg_count()
        invariant
            regs@.len() >= arch.spec_sampled_regs(),
            out@.len() <= arch.spec_arg_count(),
            out@ =~= arguments(arch, regs@).take(out@.len() as int),
        decreases arch.spec_arg_count() - out@.len(),
    {
        let slot: usize = arch.arg_order(out.len());
        out.push(regs[slot]);
    }
    Some(out)
}

/// Bytes one sample occupies in the ring: the header, ip, pid, tid, time, the
/// register ABI and the registers, then, where a stack is captured, its size,
/// its bytes, and the size the kernel actually copied.
pub open spec fn sample_len(arch: Arch, stack: u32) -> int {
    let fixed = 40 + 8 * arch.spec_sampled_regs();
    if captured(arch, stack) == 0 {
        fixed
    } else {
        fixed + 16 + captured(arch, stack)
    }
}

/// Bytes one sample occupies in the ring, which is what the ring has to be
/// sized against. A ring smaller than a single sample delivers nothing.
#[must_use]
pub fn sample_size(arch: Arch, stack: u32) -> (r: usize)
    requires
        sample_len(arch, stack) <= usize::MAX,
    ensures
        r == sample_len(arch, stack),
{
    let bytes: u32 = captured_stack(arch, stack);
    let fixed: usize = 8 + 8 + 4 + 4 + 8 + 8 + arch.sampled_regs() * 8;
    if bytes == 0 {
        fixed
    } else {
        fixed + 8 + bytes as usize + 8
    }
}

/// The fields a sample carries, as the kernel's bits.
pub open spec fn sample_bits(arch: Arch, stack: u32) -> u64 {
    let fixed = PERF_SAMPLE_IP | PERF_SAMPLE_TID | PERF_SAMPLE_TIME | PERF_SAMPLE_REGS_USER;
    if captured(arch, stack) > 0 {
        fixed | PERF_SAMPLE_STACK_USER
    } else {
        fixed
    }
}

/// The description of an event of that type, with `bp_type`, `config1` and
/// `config2` to name what it traps on.
pub open spec fn attr_of(
    arch: Arch,
    type_: u32,
    retprobe: bool,
    stack: u32,
    bp_type: u32,
    config1: u64,
    config2: u64,
) -> PerfEventAttr {
    PerfEventAttr {
        type_,
        size: PERF_ATTR_SIZE,
        config: if retprobe {
            RETPROBE_BIT
        } else {
            0
        },
        sample_period: 1,
        sample_type: sample_bits(arch, stack),
        read_format: 0,
        flags: FLAG_DISABLED | FLAG_EXCLUDE_KERNEL | FLAG_EXCLUDE_HV,
        wakeup_events: 1,
        bp_type,
        config1,
        config2,
        branch_sample_type: 0,
        sample_regs_user: arch.spec_arg_regs(),
        sample_stack_user: captured(arch, stack),
        clockid: 0,
        sample_regs_intr: 0,
        aux_watermark: 0,
        sample_max_stack: 0,
        reserved_2: 0,
        aux_sample_size: 0,
        reserved_3: 0,
        sig_data: 0,
    }
}

/// Shared attr for every probe kind. `stack` bytes of user stack are copied
/// at each hit when non-zero, which is what an offline frame walk needs.
pub fn probe_attr(arch: Arch, type_: u32, retprobe: bool, stack: u32) -> (r: PerfEventAttr)
    ensures
        r == attr_of(arch, type_, retprobe, stack, 0, 0, 0),
{
    let bytes: u32 = captured_stack(arch, stack);
    let mut sample_type: u64 = PERF_SAMPLE_IP | PERF_SAMPLE_TID | PERF_SAMPLE_TIME
        | PERF_SAMPLE_REGS_USER;
    if bytes > 0 {
        sample_type = sample_type | PERF_SAMPLE_STACK_USER;
    }
    PerfEventAttr {
        type_,
        size: PERF_ATTR_SIZE,
        config: if retprobe {
            RETPROBE_BIT
        } else {
            0
        },
        sample_period: 1,
        sample_type,
        read_format: 0,
        flags: FLAG_DISABLED | FLAG_EXCLUDE_KERNEL | FLAG_EXCLUDE_HV,
        wakeup_events: 1,
        bp_type: 0,
        config1: 0,
        config2: 0,
        branch_sample_type: 0,
        sample_regs_user: arch.arg_regs(),
        sample_stack_user: bytes,
        clockid: 0,
        sample_regs_intr: 0,
        aux_watermark: 0,
        sample_max_stack: 0,
        reserved_2: 0,
        aux_sample_size: 0,
        reserved_3: 0,
        sig_data: 0,
    }
}

/// A probe on a file offset. `path_at` is where the kernel finds the path.
///
/// The event cannot carry `inherit`: the kernel reads the path again every
/// time the event is allocated, and on a fork that allocation runs in the
/// target's address space where the pointer means nothing.
pub fn uprobe_attr(
    arch: Arch,
    pmu: u32,
    path_at: u64,
    offset: u64,
    retprobe: bool,
    stack: u32,
) -> (r: PerfEventAttr)
    ensures
        r == attr_of(arch, pmu, retprobe, stack, 0, path_at, offset),
{
    let mut attr = probe_attr(arch, pmu, retprobe, stack);
    attr.config1 = path_at;
    attr.config2 = offset;
    attr
}

/// A breakpoint or watchpoint on `len` bytes at an address. Debug registers
/// are a per-cpu bank, so this costs one register per cpu instead of one per
/// thread.
pub fn breakpoint_attr(arch: Arch, addr: u64, bp_type: u32, bp_len: u64, stack: u32) -> (r:
    PerfEventAttr)
    ensures
        r == attr_of(arch, PERF_TYPE_BREAKPOINT, false, stack, bp_type, addr, bp_len),
{
    let mut attr = probe_attr(arch, PERF_TYPE_BREAKPOINT, false, stack);
    attr.bp_type = bp_type;
    attr.config1 = addr;
    attr.config2 = bp_len;
    attr
}

/// Reads what the kernel publishes as the type of the uprobe PMU.
pub fn uprobe_pmu_type(published: &str) -> (r: Result<u32, Fault>)
    ensures
        match unsigned_value(trimmed(published@), 10, u32::MAX as int) {
            Ok(n) => r matches Ok(found) && found == n,
            Err(why) => r matches Err(f) && told(
                f,
                Kind::InvalidData,
                "bad uprobe PMU type ("@ + int_fault_text(why) + ")"@,
            ),
        },
{
    let chars = chars_of(published);
    match read_unsigned(trim(&chars), 10, u32::MAX as u64) {
        Ok(n) => Ok(n as u32),
        Err(why) => {
            let mut text = "bad uprobe PMU type (".to_owned();
            text.append(why.text());
            text.append(")");
            Err(tell_owned(Kind::InvalidData, text))
        },
    }
}

/// The number of cpus that `sysconf` stands for. The configured count is
/// asked for rather than the online one, since a cpu that is offline right now
/// can come online while a system-wide probe is armed.
#[must_use]
pub fn cpu_count(configured: i64) -> (r: usize)
    ensures
        r == if 1 <= configured <= usize::MAX {
            configured as int
        } else {
            1
        },
{
    match usize::try_from(configured) {
        Ok(count) => if count > 1 {
            count
        } else {
            1
        },
        Err(_) => 1,
    }
}

pub enum EventTarget {
    Task(i32),
    Cpu(usize),
}

impl EventTarget {
    /// The process and cpu arguments of the system call. `cpu` is -1 for a
    /// named task, watched wherever it runs. A system-wide event has no task
    /// to name, so it pins a cpu instead.
    pub fn syscall_args(self) -> (r: Result<(i32, i32), Fault>)
        ensures
            match self {
                EventTarget::Task(pid) => r matches Ok(args) && args.0 == pid && args.1 == -1,
                EventTarget::Cpu(cpu) => if cpu <= i32::MAX {
                    r matches Ok(args) && args.0 == -1 && args.1 == cpu
                } else {
                    r matches Err(f) && told(f, Kind::InvalidInput, "cpu index too large"@)
                },
            },
    {
        match self {
            EventTarget::Task(pid) => Ok((pid, -1)),
            EventTarget::Cpu(index) => match i32::try_from(index) {
                Ok(cpu) => Ok((-1, cpu)),
                Err(_) => Err(tell(Kind::InvalidInput, "cpu index too large")),
            },
        }
    }
}

/// The page size that `sysconf` stands for.
pub fn page_size(reported: i64) -> (r: usize)
    requires
        reported <= usize::MAX,
    ensures
        r == if reported > 0 {
            reported as int
        } else {
            4096
        },
{
    if reported > 0 {
        reported as usize
    } else {
        4096
    }
}

/// The length of the mapping that holds `pages` data pages and the metadata
/// page before them.
pub fn map_len(pages: usize, page: usize) -> (r: Result<usize, Fault>)
    ensures
        if (pages + 1) * page <= usize::MAX && pages < usize::MAX {
            r matches Ok(len) && len == (pages + 1) * page
        } else {
            r matches Err(f) && told(f, Kind::InvalidInput, "perf ring is too large"@)
        },
{
    match pages.checked_add(1) {
        Some(count) => match count.checked_mul(page) {
            Some(len) => Ok(len),
            None => Err(tell(Kind::InvalidInput, "perf ring is too large")),
        },
        None => Err(tell(Kind::InvalidInput, "perf ring is too large")),
    }
}

/// Whether the data area that the kernel published lies inside the mapping,
/// past the metadata page, and can be indexed as a ring.
pub open spec fn layout_is_sound(page: int, map_len: int, data_offset: int, data_size: int) -> bool {
    &&& power_of_two(data_size)
    &&& page <= data_offset
    &&& data_offset + data_size <= map_len
}

/// Refuses a published ring layout that the mapping cannot hold.
pub fn ring_layout(page: usize, map_len: usize, data_offset: u64, data_size: u64) -> (r: Result<
    (usize, usize),
    Fault,
>)
    ensures
        if layout_is_sound(page as int, map_len as int, data_offset as int, data_size as int) {
            r matches Ok(area) && area.0 == data_offset && area.1 == data_size
        } else {
            r matches Err(f) && told(
                f,
                Kind::InvalidData,
                "perf published an invalid ring layout"@,
            )
        },
{
    if is_power_of_two(data_size) && data_offset >= page as u64 && data_offset <= map_len as u64
        && data_size <= map_len as u64 - data_offset {
        Ok((data_offset as usize, data_size as usize))
    } else {
        Err(tell(Kind::InvalidData, "perf published an invalid ring layout"))
    }
}

/// What one probe published: its samples, and how many were lost or could not
/// be read.
pub struct Records {
    pub samples: Vec<Sample>,
    pub lost: u64,
    pub malformed: u64,
}

/// Whether `found` are the samples that `bodies` hold.
pub open spec fn decode_all(found: Seq<Sample>, bodies: Seq<Seq<u8>>, regs: int) -> bool {
    &&& found.len() == bodies.len()
    &&& forall|i: int| 0 <= i < found.len() ==> decodes(#[trigger] found[i], bodies[i], regs)
}

/// Whether `r` says what `records` hold, with `torn` for a stretch that held
/// no record. A loss count beyond `u64` is reported as the largest one.
pub open spec fn summarises(r: Records, records: Seq<RecordView>, torn: bool, regs: int) -> bool {
    &&& decode_all(r.samples@, samples_in(records, regs), regs)
    &&& r.lost == if lost_in(records) > u64::MAX {
        u64::MAX as int
    } else {
        lost_in(records)
    }
    &&& r.malformed == malformed_in(records, regs) + if torn {
        1int
    } else {
        0
    }
}

proof fn lemma_lost_grows(records: Seq<RecordView>)
    ensures
        lost_in(records) >= 0,
    decreases records.len(),
{
    if records.len() > 0 {
        lemma_lost_grows(records.drop_last());
    }
}

/// Drains everything published between `tail` and `head`, and gives the tail
/// to go on from, which is `head` even where a stretch of it was unreadable.
pub fn drain(arch: Arch, data: &[u8], tail: u64, head: u64) -> (r: (Records, u64))
    ensures
        summarises(
            r.0,
            records_from(data@, tail as int, head as int),
            stops_short(data@, tail as int, head as int),
            arch.spec_sampled_regs(),
        ),
        r.1 == head,
{
    let regs: usize = arch.sampled_regs();
    let ghost all = records_from(data@, tail as int, head as int);
    let ghost torn = stops_short(data@, tail as int, head as int);
    let ghost mut seen: Seq<RecordView> = Seq::empty();
    let mut records = Records { samples: Vec::new(), lost: 0, malformed: 0 };
    let mut at: u64 = tail;
    assert(all =~= seen + records_from(data@, at as int, head as int));
    loop
        invariant_except_break
            regs == arch.spec_sampled_regs(),
            tail <= at,
            at <= head || at == tail,
            all == seen + records_from(data@, at as int, head as int),
            torn == stops_short(data@, at as int, head as int),
            summarises(records, seen, false, regs as int),
            records.malformed <= at - tail,
        ensures
            summarises(records, all, torn, regs as int),
        decreases head - at,
    {
        let (record, next) = match next_record(data, at, head) {
            Ok(Some(found)) => found,
            Ok(None) => {
                assert(all =~= seen);
                break;
            },
            Err(_) => {
                assert(all =~= seen);
                records.malformed = records.malformed + 1;
                break;
            },
        };
        let ghost rest = records_from(data@, next as int, head as int);
        let ghost now = seen.push(record@);
        assert(records_from(data@, at as int, head as int) =~= seq![record@] + rest);
        assert(all =~= now + rest);
        assert(now.drop_last() =~= seen);
        proof {
            lemma_lost_grows(seen);
        }
        if record.kind == PERF_RECORD_SAMPLE {
            match parse_sample(&record.body, regs) {
                Some(sample) => records.samples.push(sample),
                None => {
                    records.malformed = records.malformed + 1;
                },
            }
        } else if record.kind == PERF_RECORD_LOST {
            if record.body.len() >= 16 {
                if let Some(count) = u64_at(&record.body, 8) {
                    records.lost = records.lost.saturating_add(count);
                }
            } else {
                records.malformed = records.malformed + 1;
            }
        }
        proof {
            seen = now;
        }
        at = next;
    }
    (records, head)
}

/// A sample takes exactly the bytes that its decoder reads: the header, the
/// fields, and, where a stack is captured, its size, its bytes and the size
/// that was copied.
pub proof fn lemma_sample_size_matches_the_decoder(arch: Arch, stack: u32)
    ensures
        sample_len(arch, stack) == HEADER_SIZE + sample_need(arch.spec_sampled_regs()) + if captured(arch, stack) == 0 {
            0
        } else {
            16 + captured(arch, stack)
        },
{
}

/// Every sample that was written to a ring is drained, and what was lost is
/// told: where the records between tail and head are those that were written,
/// each full sample among them comes out decoded, in order, and the counts are
/// theirs.
pub proof fn lemma_written_samples_are_drained(
    drained: Records,
    data: Seq<u8>,
    tail: int,
    records: Seq<RecordView>,
    regs: int,
)
    requires
        0 <= tail,
        8 <= data.len(),
        forall|i: int|
            0 <= i < records.len() ==> (#[trigger] records[i]).body.len() + 8 <= 0xFFFF
                && records[i].body.len() <= data.len(),
        crate::ring::wrapped(data, tail, crate::ring::written(records).len())
            == crate::ring::written(records),
        summarises(
            drained,
            records_from(data, tail, tail + crate::ring::written(records).len()),
            stops_short(data, tail, tail + crate::ring::written(records).len()),
            regs,
        ),
    ensures
        drained.samples@.len() == samples_in(records, regs).len(),
        forall|i: int|
            0 <= i < drained.samples@.len() ==> decodes(
                #[trigger] drained.samples@[i],
                samples_in(records, regs)[i],
                regs,
            ),
        lost_in(records) <= u64::MAX ==> drained.lost == lost_in(records),
        lost_in(records) > u64::MAX ==> drained.lost == u64::MAX,
        drained.malformed == malformed_in(records, regs),
{
    crate::ring::lemma_written_records_are_found(data, tail, records);
}

/// As much of the stack is captured as was asked for, and on `x86_64` at least
/// the return address. A sample carries a stack exactly where any is captured.
pub proof fn lemma_stack_is_captured(arch: Arch, stack: u32)
    ensures
        captured(Arch::Aarch64, stack) == stack,
        stack >= 8 ==> captured(Arch::X86_64, stack) == stack,
        stack < 8 ==> captured(Arch::X86_64, stack) == 8,
        sample_bits(arch, stack) == if captured(arch, stack) > 0 {
            0x3007u64
        } else {
            0x1007u64
        },
{
    assert(1u64 | 2 | 4 | 0x1000 == 0x1007) by (bit_vector);
    assert(0x1007u64 | 0x2000 == 0x3007) by (bit_vector);
    assert(1u64 << 0 == 1 && 1u64 << 1 == 2 && 1u64 << 2 == 4 && 1u64 << 12 == 0x1000 && 1u64 << 13
        == 0x2000) by (bit_vector);
}

/// An event asks for what its probe needs, whatever is probed: every hit is
/// sampled, with all registers that are read and the stack that is captured,
/// in user space alone, and the event begins disabled.
pub proof fn lemma_event_asks_for_every_hit(
    arch: Arch,
    type_: u32,
    retprobe: bool,
    stack: u32,
    bp_type: u32,
    config1: u64,
    config2: u64,
)
    ensures
        ({
            let attr = attr_of(arch, type_, retprobe, stack, bp_type, config1, config2);
            &&& attr.type_ == type_
            &&& attr.size == 128
            &&& attr.config == if retprobe {
                1u64
            } else {
                0
            }
            &&& attr.config1 == config1
            &&& attr.config2 == config2
            &&& attr.bp_type == bp_type
            &&& attr.sample_period == 1
            &&& attr.wakeup_events == 1
            &&& attr.sample_type == sample_bits(arch, stack)
            &&& attr.sample_regs_user == arch.spec_arg_regs()
            &&& attr.sample_stack_user == captured(arch, stack)
            &&& attr.flags == 0x61
        }),
{
    assert(1u64 | 0x20 | 0x40 == 0x61) by (bit_vector);
    assert(1u64 << 0 == 1 && 1u64 << 5 == 0x20 && 1u64 << 6 == 0x40) by (bit_vector);
}

/// What was drained tells every sample, the sum of what was lost as far as it
/// can be told, and every record that made no sense, a torn one among them.
pub proof fn lemma_drain_is_summed_up(r: Records, records: Seq<RecordView>, torn: bool, regs: int)
    requires
        summarises(r, records, torn, regs),
    ensures
        r.samples@.len() == samples_in(records, regs).len(),
        forall|i: int|
            0 <= i < r.samples@.len() ==> decodes(
                #[trigger] r.samples@[i],
                samples_in(records, regs)[i],
                regs,
            ),
        lost_in(records) <= u64::MAX ==> r.lost == lost_in(records),
        lost_in(records) > u64::MAX ==> r.lost == u64::MAX,
        torn ==> r.malformed == malformed_in(records, regs) + 1,
        !torn ==> r.malformed == malformed_in(records, regs),
{
}

/// A ring may lie anywhere behind the first page of what was mapped, as long as
/// it lies in it whole. Its size is two raised to some number.
pub proof fn lemma_where_a_ring_may_lie(
    page: int,
    map_len: int,
    data_offset: int,
    data_size: int,
    k: nat,
)
    ensures
        data_size == vstd::arithmetic::power2::pow2(k) ==> (layout_is_sound(
            page,
            map_len,
            data_offset,
            data_size,
        ) <==> page <= data_offset && data_offset + data_size <= map_len),
        (forall|n: nat| data_size != #[trigger] vstd::arithmetic::power2::pow2(n))
            ==> !layout_is_sound(page, map_len, data_offset, data_size),
{
    crate::numbers::lemma_powers_of_two(k);
    if power_of_two(data_size) {
        let n = crate::numbers::lemma_power_of_two_has_an_exponent(data_size);
        assert(data_size == vstd::arithmetic::power2::pow2(n));
    }
}

} // verus!
