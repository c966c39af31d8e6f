//! The NVMe driver: queues, commands, start-up and the splitting of requests.
use vstd::prelude::*;

use crate::volume;
use crate::volume::{Volume, VolumeDesc, VOL_MAX};

verus! {

/// Times the completion queue is looked at before a command is given up.
pub const NVME_POLL_LIMIT: u32 = 1_000_000;

/// Times the status register is read while the controller starts or stops.
pub const NVME_READY_POLLS: u32 = 1_000_000;

/// Bytes per page.
pub const NVME_PAGE_SIZE: u64 = 4096;

/// Most sectors of one command.
pub const NVME_MAX_SECTORS: u16 = 256;

/// Most disks.
pub const NVME_MAX_NS: usize = 8;

/// Admin command: create an I/O submission queue.
pub const OP_CREATE_IO_SQ: u8 = 0x01;

/// I/O command: write.
pub const OP_WRITE: u8 = 0x01;

/// I/O command: read.
pub const OP_READ: u8 = 0x02;

/// Admin command: create an I/O completion queue.
pub const OP_CREATE_IO_CQ: u8 = 0x05;

/// Admin command: identify.
pub const OP_IDENTIFY: u8 = 0x06;

/// First doorbell register.
pub const DOORBELL_BASE: u64 = 0x1000;

/// A command.
#[derive(Clone, Copy, PartialEq, Eq, Structural)]
pub struct Sqe {
    pub opcode: u8,
    pub flags: u8,
    pub cid: u16,
    pub nsid: u32,
    pub mptr: u64,
    pub prp1: u64,
    pub prp2: u64,
    pub cdw10: u32,
    pub cdw11: u32,
    pub cdw12: u32,
    pub cdw13: u32,
    pub cdw14: u32,
    pub cdw15: u32,
}

impl Sqe {
    /// A command with every field clear.
    pub open spec fn zero_spec() -> Sqe {
        Sqe {
            opcode: 0,
            flags: 0,
            cid: 0,
            nsid: 0,
            mptr: 0,
            prp1: 0,
            prp2: 0,
            cdw10: 0,
            cdw11: 0,
            cdw12: 0,
            cdw13: 0,
            cdw14: 0,
            cdw15: 0,
        }
    }

    /// A command with every field clear.
    pub fn zero() -> (r: Sqe)
        ensures
            r == Self::zero_spec(),
    {
        Sqe {
            opcode: 0,
            flags: 0,
            cid: 0,
            nsid: 0,
            mptr: 0,
            prp1: 0,
            prp2: 0,
            cdw10: 0,
            cdw11: 0,
            cdw12: 0,
            cdw13: 0,
            cdw14: 0,
            cdw15: 0,
        }
    }
}

/// Where the driver stands in a pair of queues of `depth` slots: the next slot to
/// submit to, the next one to complete, and the phase bit of a completion that is
/// new.
#[derive(Clone, Copy, PartialEq, Eq, Structural)]
pub struct Queue {
    pub depth: u32,
    pub tail: u32,
    pub head: u32,
    pub phase: u32,
}

/// What a look at the completion queue showed.
#[derive(Clone, Copy, PartialEq, Eq, Structural)]
pub enum Poll {
    /// Nothing new.
    Pending,
    /// The command is done: the completion doorbell takes `doorbell`, `status` is 0 for
    /// success.
    Done { doorbell: u32, status: u16 },
}

impl Queue {
    /// The indices are slots and the phase is a bit.
    pub open spec fn wf(self) -> bool {
        self.depth > 0 && self.tail < self.depth && self.head < self.depth && self.phase <= 1
    }

    /// The queues at start: new completions carry phase 1.
    pub fn new(depth: u32) -> (r: Queue)
        requires
            depth > 0,
        ensures
            r == (Queue { depth, tail: 0, head: 0, phase: 1 }),
            r.wf(),
    {
        Queue { depth, tail: 0, head: 0, phase: 1 }
    }

    /// The queues after one more command was submitted.
    pub open spec fn submitted(self) -> Queue {
        Queue { tail: ((self.tail + 1) % self.depth as int) as u32, ..self }
    }

    /// Takes the next submission slot: (slot, value for the submission doorbell).
    pub fn submit(&mut self) -> (r: (u32, u32))
        requires
            old(self).wf(),
        ensures
            final(self).wf(),
            *final(self) == old(self).submitted(),
            r == (old(self).tail, final(self).tail),
    {
        let slot: u32 = self.tail;
        if self.tail == self.depth - 1 {
            proof {
                vstd::arithmetic::div_mod::lemma_mod_self_0(self.depth as int);
            }
            self.tail = 0;
        } else {
            proof {
                vstd::arithmetic::div_mod::lemma_small_mod(
                    (self.tail + 1) as nat,
                    self.depth as nat,
                );
            }
            self.tail = self.tail + 1;
        }
        (slot, self.tail)
    }

    /// The queues, and what was found, after a look at the completion in slot `head`,
    /// whose status field is `sf`.
    pub open spec fn polled(self, sf: u16) -> (Queue, Poll) {
        if sf % 2 != self.phase {
            (self, Poll::Pending)
        } else {
            let head = if self.head + 1 == self.depth {
                0
            } else {
                (self.head + 1) as u32
            };
            (
                Queue {
                    head,
                    phase: if head == 0 {
                        (1 - self.phase) as u32
                    } else {
                        self.phase
                    },
                    ..self
                },
                Poll::Done { doorbell: head, status: sf / 2 },
            )
        }
    }

    /// Looks at the completion in slot `head`, whose status field is `sf`.
    pub fn poll(&mut self, sf: u16) -> (r: Poll)
        requires
            old(self).wf(),
        ensures
            final(self).wf(),
            (*final(self), r) == old(self).polled(sf),
    {
        if (sf % 2) as u32 != self.phase {
            return Poll::Pending;
        }
        self.head = if self.head + 1 == self.depth {
            0
        } else {
            self.head + 1
        };
        if self.head == 0 {
            self.phase = 1 - self.phase;
        }
        Poll::Done { doorbell: self.head, status: sf / 2 }
    }
}

/// The queues after `n` completions were taken.
pub open spec fn after_completions(q: Queue, n: nat) -> Queue
    decreases n,
{
    if n == 0 {
        q
    } else {
        let p = after_completions(q, (n - 1) as nat);
        p.polled(p.phase as u16).0
    }
}

/// Law: going once round the completion queue comes back to the same slot with the
/// other phase, so a completion left over from the last round is never taken for a
/// new one.
pub proof fn law_phase_turns(q: Queue)
    requires
        q.wf(),
    ensures
        after_completions(q, q.depth as nat) == (Queue { phase: (1 - q.phase) as u32, ..q }),
{
    lemma_rounds(q, q.depth as nat);
}

proof fn lemma_rounds(q: Queue, n: nat)
    requires
        q.wf(),
        n <= q.depth,
    ensures
        after_completions(q, n) == (if q.head + n < q.depth {
            Queue { head: (q.head + n) as u32, ..q }
        } else {
            Queue {
                head: (q.head + n - q.depth) as u32,
                phase: (1 - q.phase) as u32,
                ..q
            }
        }),
    decreases n,
{
    if n > 0 {
        lemma_rounds(q, (n - 1) as nat);
    }
}

/// A command waiting for its completion, with `polls` looks left.
#[derive(Clone, Copy, PartialEq, Eq, Structural)]
pub enum Wait {
    Polling { polls: u32 },
    Over { ok: bool },
}

impl Wait {
    /// The wait after one look.
    pub open spec fn after(self, p: Poll) -> Wait {
        match self {
            Wait::Polling { polls } => match p {
                Poll::Done { status, .. } => Wait::Over { ok: status == 0 },
                Poll::Pending => if polls <= 1 {
                    Wait::Over { ok: false }
                } else {
                    Wait::Polling { polls: (polls - 1) as u32 }
                },
            },
            Wait::Over { .. } => self,
        }
    }

    /// The wait for a command that was just submitted.
    pub fn begin() -> (r: Wait)
        ensures
            r == (Wait::Polling { polls: NVME_POLL_LIMIT }),
    {
        Wait::Polling { polls: NVME_POLL_LIMIT }
    }

    /// Takes in one look at the completion queue.
    pub fn step(self, p: Poll) -> (r: Wait)
        ensures
            r == self.after(p),
    {
        match self {
            Wait::Polling { polls } => match p {
                Poll::Done { status, .. } => Wait::Over { ok: status == 0 },
                Poll::Pending => {
                    if polls <= 1 {
                        Wait::Over { ok: false }
                    } else {
                        Wait::Polling { polls: polls - 1 }
                    }
                },
            },
            Wait::Over { ok } => Wait::Over { ok },
        }
    }
}

/// A transfer command and the entries of its page list.
pub struct RwPlan {
    pub sqe: Sqe,
    pub list: Vec<u64>,
}

/// Pages that `count` sectors take.
pub open spec fn pages_for(count: u16) -> int {
    (count * 512 + 4095) / 4096
}

/// Whether the pages at the physical addresses `phys` can take a transfer of
/// `count` sectors, with the page list at `list_phys`. Address 0 is that of a page
/// that is not mapped. One page may start anywhere; several must be page-aligned.
pub open spec fn pages_ok(count: u16, phys: Seq<u64>, list_phys: u64) -> bool {
    &&& 0 < count <= NVME_MAX_SECTORS
    &&& phys.len() >= pages_for(count)
    &&& phys[0] != 0
    &&& pages_for(count) > 1 ==> phys[0] % 4096 == 0
    &&& pages_for(count) == 2 ==> phys[1] != 0
    &&& pages_for(count) > 2 ==> list_phys != 0 && forall|i: int|
        1 <= i < pages_for(count) ==> (#[trigger] phys[i]) != 0 && phys[i] % 4096 == 0
}

/// The command that transfers `count` sectors at `lba`: the second page goes into
/// the command itself where there are two, more go through the page list.
pub open spec fn rw_command(
    opcode: u8,
    nsid: u32,
    lba: u32,
    count: u16,
    phys: Seq<u64>,
    list_phys: u64,
) -> Sqe {
    Sqe {
        opcode,
        cid: 5,
        nsid,
        prp1: phys[0],
        prp2: if pages_for(count) <= 1 {
            0
        } else if pages_for(count) == 2 {
            phys[1]
        } else {
            list_phys
        },
        cdw10: lba,
        cdw11: 0,
        cdw12: (count - 1) as u32,
        ..Sqe::zero_spec()
    }
}

/// Plans a transfer of `count` sectors; `None` where it cannot be done.
pub fn nvme_rw_sectors(
    opcode: u8,
    nsid: u32,
    lba: u32,
    count: u16,
    phys: &Vec<u64>,
    list_phys: u64,
) -> (r: Option<RwPlan>)
    ensures
        r is Some <==> pages_ok(count, phys@, list_phys),
        r matches Some(p) ==> p.sqe == rw_command(opcode, nsid, lba, count, phys@, list_phys)
            && p.list@ == (if pages_for(count) > 2 {
            phys@.subrange(1, pages_for(count))
        } else {
            Seq::empty()
        }),
{
    if count == 0 || count > NVME_MAX_SECTORS {
        return None;
    }
    let pages: usize = (count as usize * 512 + 4095) / 4096;
    if phys.len() < pages || phys[0] == 0 {
        return None;
    }
    let mut prp2: u64 = 0;
    let mut list: Vec<u64> = Vec::new();
    if pages > 1 {
        if phys[0] % NVME_PAGE_SIZE != 0 {
            return None;
        }
        if pages == 2 {
            if phys[1] == 0 {
                return None;
            }
            prp2 = phys[1];
        } else {
            if list_phys == 0 {
                return None;
            }
            let mut i: usize = 1;
            while i < pages
                invariant
                    1 <= i <= pages <= phys.len(),
                    pages == pages_for(count),
                    pages > 2,
                    list@ =~= phys@.subrange(1, i as int),
                    forall|j: int|
                        1 <= j < i ==> (#[trigger] phys@[j]) != 0 && phys@[j] % 4096 == 0,
                decreases pages - i,
            {
                if phys[i] == 0 || phys[i] % NVME_PAGE_SIZE != 0 {
                    return None;
                }
                list.push(phys[i]);
                i = i + 1;
            }
            prp2 = list_phys;
        }
    }
    let mut sqe: Sqe = Sqe::zero();
    sqe.opcode = opcode;
    sqe.cid = 5;
    sqe.nsid = nsid;
    sqe.prp1 = phys[0];
    sqe.prp2 = prp2;
    sqe.cdw10 = lba;
    sqe.cdw11 = 0;
    sqe.cdw12 = count as u32 - 1;
    assert(pages <= 2 ==> list@ =~= Seq::empty());
    Some(RwPlan { sqe, list })
}

/// The disks that a controller with `nn` of them has: numbers 1 to `nn`, at most
/// eight; 1 to 3 where it does not say.
pub open spec fn nsids_spec(nn: u32) -> Seq<u32> {
    let n = if nn == 0 {
        3
    } else if nn > NVME_MAX_NS {
        NVME_MAX_NS as int
    } else {
        nn as int
    };
    Seq::new(n as nat, |i: int| (i + 1) as u32)
}

/// The disks of a controller.
pub fn nsids(nn: u32) -> (r: Vec<u32>)
    ensures
        r@ == nsids_spec(nn),
{
    let n: u32 = if nn == 0 {
        3
    } else if nn as usize > NVME_MAX_NS {
        NVME_MAX_NS as u32
    } else {
        nn
    };
    let mut out: Vec<u32> = Vec::new();
    let mut i: u32 = 0;
    while i < n
        invariant
            i <= n <= 8,
            out@ =~= Seq::new(i as nat, |j: int| (j + 1) as u32),
        decreases n - i,
    {
        out.push(i + 1);
        i = i + 1;
    }
    out
}

/// The size of a disk in sectors, cut to 32 bits.
pub fn clamp_sectors(nsze: u64) -> (r: u32)
    ensures
        r == (if nsze > u32::MAX {
            u32::MAX
        } else {
            nsze as u32
        }),
{
    if nsze > u32::MAX as u64 {
        u32::MAX
    } else {
        nsze as u32
    }
}

/// The size noted for disk `nsid`, the first of that number from `i` on; 0 where
/// none is.
pub open spec fn sectors_from(ids: Seq<u32>, sizes: Seq<u32>, nsid: u32, i: int) -> u32
    decreases ids.len() - i,
{
    if i >= ids.len() {
        0
    } else if ids[i] == nsid {
        sizes[i]
    } else {
        sectors_from(ids, sizes, nsid, i + 1)
    }
}

/// The size noted for disk `nsid`.
pub fn nvme_ns_sectors_of(ids: &Vec<u32>, sizes: &Vec<u32>, nsid: u32) -> (r: u32)
    requires
        ids.len() <= sizes.len(),
    ensures
        r == sectors_from(ids@, sizes@, nsid, 0),
{
    let mut i: usize = 0;
    while i < ids.len()
        invariant
            i <= ids.len() <= sizes.len(),
            sectors_from(ids@, sizes@, nsid, i as int) == sectors_from(ids@, sizes@, nsid, 0),
        decreases ids.len() - i,
    {
        if ids[i] == nsid {
            return sizes[i];
        }
        i = i + 1;
    }
    0
}

/// What the controller is set up with.
#[derive(Clone, Copy, PartialEq, Eq, Structural)]
pub struct NvmeConfig {
    pub asq_paddr: u64,
    pub acq_paddr: u64,
    pub isq_paddr: u64,
    pub icq_paddr: u64,
    pub data_paddr: u64,
    pub admin_qdepth: u16,
    pub io_qdepth: u16,
}

impl NvmeConfig {
    /// Both queues have room for a command.
    pub open spec fn wf(self) -> bool {
        self.admin_qdepth > 0 && self.io_qdepth > 0
    }
}

/// Bytes between doorbells, from the capability register.
pub open spec fn stride_spec(cap: u64) -> u64 {
    4u64 << ((cap / 0x1_0000_0000) % 0x10)
}

/// Bytes between doorbells.
pub fn doorbell_stride(cap: u64) -> (r: u64)
    ensures
        r == stride_spec(cap),
{
    let d: u64 = cap / 0x1_0000_0000 % 0x10;
    4u64 << d
}

/// How far the controller has been started.
#[derive(Clone, Copy, PartialEq, Eq, Structural)]
pub enum NvmeState {
    /// It was told to stop; `polls` looks at its status are left.
    Stopping { polls: u32 },
    /// It was told to start.
    Starting { polls: u32 },
    /// It is asked what it is.
    Identify,
    /// Disk number `i` of `n` is asked for its size.
    Size { i: u32, n: u32 },
    /// The completion queue is being created.
    MakeCq,
    /// The submission queue is being created.
    MakeSq,
    /// It is ready.
    Running,
    /// It failed, and at what.
    Failed(NvmeFault),
}

/// What the start-up failed at.
#[derive(Clone, Copy, PartialEq, Eq, Structural)]
pub enum NvmeFault {
    StopTimeout,
    StartTimeout,
    Identify,
    CreateCq,
    CreateSq,
}

/// What the driver does next.
#[derive(Clone, Copy, PartialEq, Eq, Structural)]
pub enum NvmeAction {
    /// Read the status register.
    ReadStatus,
    /// Set up the admin queues (their size and addresses), enable the controller, then
    /// read the status register.
    Enable { aqa: u32, cc: u32 },
    /// Submit an admin command.
    Admin(Sqe),
    /// Serve requests.
    Serve,
    /// Print the fault and stop.
    Stop,
}

/// What happened.
#[derive(Clone, Copy, PartialEq, Eq, Structural)]
pub enum NvmeEvent {
    /// The status register read as this.
    Status(u32),
    /// The admin command ended; the first word of what it returned, where it returned
    /// anything.
    AdminDone { ok: bool, word: u32 },
}

/// The identify command for the controller.
pub open spec fn identify_controller(c: NvmeConfig) -> Sqe {
    Sqe { opcode: OP_IDENTIFY, cid: 1, prp1: c.data_paddr, cdw10: 1, ..Sqe::zero_spec() }
}

/// The identify command for disk `nsid`.
pub open spec fn identify_disk(c: NvmeConfig, nsid: u32) -> Sqe {
    Sqe {
        opcode: OP_IDENTIFY,
        cid: ((0x100 + nsid) % 0x1_0000) as u16,
        nsid,
        prp1: c.data_paddr,
        cdw10: 0,
        ..Sqe::zero_spec()
    }
}

/// The command that creates the I/O completion queue.
pub open spec fn create_cq(c: NvmeConfig) -> Sqe {
    Sqe {
        opcode: OP_CREATE_IO_CQ,
        cid: 3,
        prp1: c.icq_paddr,
        cdw10: (1 + (c.io_qdepth - 1) * 0x1_0000) as u32,
        cdw11: 1,
        ..Sqe::zero_spec()
    }
}

/// The command that creates the I/O submission queue, tied to that completion
/// queue.
pub open spec fn create_sq(c: NvmeConfig) -> Sqe {
    Sqe {
        opcode: OP_CREATE_IO_SQ,
        cid: 4,
        prp1: c.isq_paddr,
        cdw10: (1 + (c.io_qdepth - 1) * 0x1_0000) as u32,
        cdw11: 0x1_0001,
        ..Sqe::zero_spec()
    }
}

/// The value of the admin queue size register.
pub open spec fn aqa_value(c: NvmeConfig) -> u32 {
    (((c.admin_qdepth - 1) % 0x1000) * 0x1_0001) as u32
}

/// The value that enables the controller: 64-byte submissions, 16-byte completions,
/// 4 KiB pages.
pub const NVME_CC_ENABLE: u32 = 0x0046_0001;

impl NvmeState {
    /// The first state, after the controller was told to stop.
    pub fn begin() -> (r: (NvmeState, NvmeAction))
        ensures
            r == (NvmeState::Stopping { polls: 0 }, NvmeAction::ReadStatus),
    {
        (NvmeState::Stopping { polls: 0 }, NvmeAction::ReadStatus)
    }

    /// The next state and action.
    pub open spec fn next_spec(self, c: NvmeConfig, e: NvmeEvent) -> (NvmeState, NvmeAction) {
        match (self, e) {
            (NvmeState::Stopping { polls }, NvmeEvent::Status(s)) => if s % 2 == 0 {
                (
                    NvmeState::Starting { polls: 0 },
                    NvmeAction::Enable { aqa: aqa_value(c), cc: NVME_CC_ENABLE },
                )
            } else if polls >= NVME_READY_POLLS {
                (NvmeState::Failed(NvmeFault::StopTimeout), NvmeAction::Stop)
            } else {
                (NvmeState::Stopping { polls: (polls + 1) as u32 }, NvmeAction::ReadStatus)
            },
            (NvmeState::Starting { polls }, NvmeEvent::Status(s)) => if s % 2 == 1 {
                (NvmeState::Identify, NvmeAction::Admin(identify_controller(c)))
            } else if polls >= NVME_READY_POLLS {
                (NvmeState::Failed(NvmeFault::StartTimeout), NvmeAction::Stop)
            } else {
                (NvmeState::Starting { polls: (polls + 1) as u32 }, NvmeAction::ReadStatus)
            },
            (NvmeState::Identify, NvmeEvent::AdminDone { ok, word }) => if ok {
                (
                    NvmeState::Size { i: 0, n: nsids_spec(word).len() as u32 },
                    NvmeAction::Admin(identify_disk(c, 1)),
                )
            } else {
                (NvmeState::Failed(NvmeFault::Identify), NvmeAction::Stop)
            },
            (NvmeState::Size { i, n }, NvmeEvent::AdminDone { .. }) => if i + 1 < n {
                (
                    NvmeState::Size { i: (i + 1) as u32, n },
                    NvmeAction::Admin(identify_disk(c, (i + 2) as u32)),
                )
            } else {
                (NvmeState::MakeCq, NvmeAction::Admin(create_cq(c)))
            },
            (NvmeState::MakeCq, NvmeEvent::AdminDone { ok, .. }) => if ok {
                (NvmeState::MakeSq, NvmeAction::Admin(create_sq(c)))
            } else {
                (NvmeState::Failed(NvmeFault::CreateCq), NvmeAction::Stop)
            },
            (NvmeState::MakeSq, NvmeEvent::AdminDone { ok, .. }) => if ok {
                (NvmeState::Running, NvmeAction::Serve)
            } else {
                (NvmeState::Failed(NvmeFault::CreateSq), NvmeAction::Stop)
            },
            (NvmeState::Running, _) => (self, NvmeAction::Serve),
            (NvmeState::Failed(_), _) => (self, NvmeAction::Stop),
            _ => (self, NvmeAction::ReadStatus),
        }
    }

    /// The next state and action.
    pub fn next(self, c: &NvmeConfig, e: NvmeEvent) -> (r: (NvmeState, NvmeAction))
        requires
            c.wf(),
            self matches NvmeState::Size { n, .. } ==> n <= NVME_MAX_NS,
        ensures
            r == self.next_spec(*c, e),
            r.0 matches NvmeState::Size { n, .. } ==> n <= NVME_MAX_NS,
    {
        match self {
            NvmeState::Stopping { polls } => match e {
                NvmeEvent::Status(s) => {
                    if s % 2 == 0 {
                        let q: u32 = (c.admin_qdepth as u32 - 1) % 0x1000;
                        return (
                            NvmeState::Starting { polls: 0 },
                            NvmeAction::Enable { aqa: q * 0x1_0001, cc: NVME_CC_ENABLE },
                        );
                    }
                    if polls >= NVME_READY_POLLS {
                        return (NvmeState::Failed(NvmeFault::StopTimeout), NvmeAction::Stop);
                    }
                    (NvmeState::Stopping { polls: polls + 1 }, NvmeAction::ReadStatus)
                },
                NvmeEvent::AdminDone { .. } => (self, NvmeAction::ReadStatus),
            },
            NvmeState::Starting { polls } => match e {
                NvmeEvent::Status(s) => {
                    if s % 2 == 1 {
                        let mut q: Sqe = Sqe::zero();
                        q.opcode = OP_IDENTIFY;
                        q.cid = 1;
                        q.prp1 = c.data_paddr;
                        q.cdw10 = 1;
                        return (NvmeState::Identify, NvmeAction::Admin(q));
                    }
                    if polls >= NVME_READY_POLLS {
                        return (NvmeState::Failed(NvmeFault::StartTimeout), NvmeAction::Stop);
                    }
                    (NvmeState::Starting { polls: polls + 1 }, NvmeAction::ReadStatus)
                },
                NvmeEvent::AdminDone { .. } => (self, NvmeAction::ReadStatus),
            },
            NvmeState::Identify => match e {
                NvmeEvent::AdminDone { ok, word } => {
                    if !ok {
                        return (NvmeState::Failed(NvmeFault::Identify), NvmeAction::Stop);
                    }
                    let ids: Vec<u32> = nsids(word);
                    (
                        NvmeState::Size { i: 0, n: ids.len() as u32 },
                        NvmeAction::Admin(Self::ask_size(c, 1)),
                    )
                },
                NvmeEvent::Status(_) => (self, NvmeAction::ReadStatus),
            },
            NvmeState::Size { i, n } => match e {
                NvmeEvent::AdminDone { .. } => {
                    if i < n && i + 1 < n {
                        return (
                            NvmeState::Size { i: i + 1, n },
                            NvmeAction::Admin(Self::ask_size(c, i + 2)),
                        );
                    }
                    let mut q: Sqe = Sqe::zero();
                    q.opcode = OP_CREATE_IO_CQ;
                    q.cid = 3;
                    q.prp1 = c.icq_paddr;
                    q.cdw10 = 1 + (c.io_qdepth as u32 - 1) * 0x1_0000;
                    q.cdw11 = 1;
                    (NvmeState::MakeCq, NvmeAction::Admin(q))
                },
                NvmeEvent::Status(_) => (self, NvmeAction::ReadStatus),
            },
            NvmeState::MakeCq => match e {
                NvmeEvent::AdminDone { ok, .. } => {
                    if !ok {
                        return (NvmeState::Failed(NvmeFault::CreateCq), NvmeAction::Stop);
                    }
                    let mut q: Sqe = Sqe::zero();
                    q.opcode = OP_CREATE_IO_SQ;
                    q.cid = 4;
                    q.prp1 = c.isq_paddr;
                    q.cdw10 = 1 + (c.io_qdepth as u32 - 1) * 0x1_0000;
                    q.cdw11 = 0x1_0001;
                    (NvmeState::MakeSq, NvmeAction::Admin(q))
                },
                NvmeEvent::Status(_) => (self, NvmeAction::ReadStatus),
            },
            NvmeState::MakeSq => match e {
                NvmeEvent::AdminDone { ok, .. } => {
                    if ok {
                        (NvmeState::Running, NvmeAction::Serve)
                    } else {
                        (NvmeState::Failed(NvmeFault::CreateSq), NvmeAction::Stop)
                    }
                },
                NvmeEvent::Status(_) => (self, NvmeAction::ReadStatus),
            },
            NvmeState::Running => (self, NvmeAction::Serve),
            NvmeState::Failed(f) => (NvmeState::Failed(f), NvmeAction::Stop),
        }
    }

    /// The identify command for disk `nsid`.
    fn ask_size(c: &NvmeConfig, nsid: u32) -> (r: Sqe)
        requires
            nsid <= 0xFF,
        ensures
            r == identify_disk(*c, nsid),
    {
        let mut q: Sqe = Sqe::zero();
        q.opcode = OP_IDENTIFY;
        q.cid = (0x100 + nsid) as u16;
        q.nsid = nsid;
        q.prp1 = c.data_paddr;
        q.cdw10 = 0;
        q
    }
}

/// A request to the block service: the volume above the operation's byte, the first
/// sector and the number of sectors.
#[derive(Clone, Copy, PartialEq, Eq, Structural)]
pub struct BlockReq {
    pub op: u64,
    pub lba: u64,
    pub count: u64,
}

/// Operation: read.
pub const BLOCK_OP_READ: u64 = 0;

/// Operation: write.
pub const BLOCK_OP_WRITE: u64 = 1;

/// Operation: list the volumes.
pub const BLOCK_OP_LIST_VOLUMES: u64 = 2;

/// What the block service does with a request.
#[derive(Clone, Copy, PartialEq, Eq, Structural)]
pub enum BlockPlan {
    /// Answer 0.
    Refuse,
    /// List the volumes, at most `max`.
    List { max: u64 },
    /// Transfer `total` sectors of disk `nsid` from `base` on.
    Transfer { write: bool, nsid: u32, base: u32, total: u64 },
}

/// A sum of sector numbers that stays at the last one.
pub open spec fn sat_add(a: u32, b: int) -> u32 {
    if a + b > u32::MAX {
        u32::MAX
    } else {
        (a + b) as u32
    }
}

/// What the block service does with a request: an unknown volume or operation, and
/// a transfer of nothing, are refused; sectors are counted from the volume's start.
pub open spec fn plan_spec(vols: Seq<Volume>, q: BlockReq) -> BlockPlan {
    let dev = q.op / 0x100;
    let code = q.op % 0x100;
    if code == BLOCK_OP_LIST_VOLUMES {
        BlockPlan::List { max: q.count }
    } else if code > BLOCK_OP_LIST_VOLUMES || dev >= vols.len() || q.count == 0 {
        BlockPlan::Refuse
    } else {
        BlockPlan::Transfer {
            write: code == BLOCK_OP_WRITE,
            nsid: vols[dev as int].nsid,
            base: sat_add(vols[dev as int].start_lba, q.lba as int % 0x1_0000_0000),
            total: q.count,
        }
    }
}

/// What the block service does with a request.
pub fn block_plan(vols: &Vec<Volume>, q: &BlockReq) -> (r: BlockPlan)
    ensures
        r == plan_spec(vols@, *q),
{
    let dev: u64 = q.op / 0x100;
    let code: u64 = q.op % 0x100;
    if code == BLOCK_OP_LIST_VOLUMES {
        return BlockPlan::List { max: q.count };
    }
    if code > BLOCK_OP_LIST_VOLUMES {
        return BlockPlan::Refuse;
    }
    let v: Volume = match volume::vol_get(vols, dev) {
        Some(v) => v,
        None => {
            return BlockPlan::Refuse;
        },
    };
    if q.count == 0 {
        return BlockPlan::Refuse;
    }
    BlockPlan::Transfer {
        write: code == BLOCK_OP_WRITE,
        nsid: v.nsid,
        base: v.start_lba.saturating_add((q.lba % 0x1_0000_0000) as u32),
        total: q.count,
    }
}

/// The command that comes after `done` of `total` sectors: (first sector, sectors).
pub open spec fn chunk_spec(base: u32, done: u64, total: u64) -> (u32, u16) {
    (
        sat_add(base, done as int % 0x1_0000_0000),
        if total - done < 256 {
            (total - done) as u16
        } else {
            256
        },
    )
}

/// The command that comes after `done` of `total` sectors.
pub fn next_chunk(base: u32, done: u64, total: u64) -> (r: (u32, u16))
    requires
        done < total,
    ensures
        r == chunk_spec(base, done, total),
{
    let n: u16 = if total - done < 256 {
        (total - done) as u16
    } else {
        256
    };
    (base.saturating_add((done % 0x1_0000_0000) as u32), n)
}

/// The commands of a transfer after `done` sectors: (first sector, sectors) each.
pub open spec fn chunks(base: u32, done: u64, total: u64) -> Seq<(u32, u16)>
    decreases total - done,
{
    if done >= total {
        Seq::empty()
    } else {
        let c = chunk_spec(base, done, total);
        seq![c] + chunks(base, (done + c.1) as u64, total)
    }
}

/// Law: the commands of a transfer cover its sectors one after the other, without
/// gap or overlap, each at most as long as a command may be.
pub proof fn law_chunks_cover(base: u32, done: u64, total: u64, k: int)
    requires
        done <= total,
        base + total <= u32::MAX,
        0 <= k < chunks(base, done, total).len(),
    ensures
        ({
            let cs = chunks(base, done, total);
            &&& 0 < cs[k].1 <= NVME_MAX_SECTORS
            &&& cs[0].0 == base + done
            &&& k + 1 < cs.len() ==> cs[k + 1].0 == cs[k].0 + cs[k].1
            &&& k + 1 == cs.len() ==> cs[k].0 + cs[k].1 == base + total
        }),
    decreases total - done,
{
    let c = chunk_spec(base, done, total);
    let rest = chunks(base, (done + c.1) as u64, total);
    let cs = chunks(base, done, total);
    assert(forall|j: int| 0 <= j < rest.len() ==> cs[j + 1] == rest[j]);
    if k > 0 {
        law_chunks_cover(base, (done + c.1) as u64, total, k - 1);
        assert(cs[k] == rest[k - 1]);
        if k + 1 < cs.len() {
            assert(cs[k + 1] == rest[k]);
        }
    } else if rest.len() > 0 {
        law_chunks_cover(base, (done + c.1) as u64, total, 0);
    } else {
        assert(done + c.1 >= total) by {
            if done + c.1 < total {
                assert(rest.len() > 0);
            }
        }
    }
}

/// What the driver does next in a transfer.
#[derive(Clone, Copy, PartialEq, Eq, Structural)]
pub enum XferAction {
    /// Move `count` sectors from `lba` on, to or from the buffer at byte `offset`.
    Command { lba: u32, count: u16, offset: u64 },
    /// Reply.
    Reply { ok: bool },
}

/// A transfer of `total` sectors from `base` on, `done` of which were moved.
#[derive(Clone, Copy, PartialEq, Eq, Structural)]
pub struct Xfer {
    pub base: u32,
    pub total: u64,
    pub done: u64,
}

impl Xfer {
    /// What comes next: a command for what is left, or the reply that all went well.
    pub open spec fn next_spec(self) -> XferAction {
        if self.done >= self.total {
            XferAction::Reply { ok: true }
        } else {
            let c = chunk_spec(self.base, self.done, self.total);
            XferAction::Command {
                lba: c.0,
                count: c.1,
                offset: (self.done * 512 % 0x1_0000_0000_0000_0000) as u64,
            }
        }
    }

    /// The start of a transfer: its first command.
    pub open spec fn begin_spec(base: u32, total: u64) -> (Xfer, XferAction) {
        let x = Xfer { base, total, done: 0 };
        (x, x.next_spec())
    }

    /// The transfer after its command ended: one that failed ends it.
    pub open spec fn step_spec(self, ok: bool) -> (Xfer, XferAction) {
        if !ok {
            (self, XferAction::Reply { ok: false })
        } else {
            let x = Xfer {
                done: (self.done + chunk_spec(self.base, self.done, self.total).1) as u64,
                ..self
            };
            (x, x.next_spec())
        }
    }

    fn next(self) -> (r: XferAction)
        ensures
            r == self.next_spec(),
    {
        if self.done >= self.total {
            return XferAction::Reply { ok: true };
        }
        let (lba, count) = next_chunk(self.base, self.done, self.total);
        XferAction::Command { lba, count, offset: self.done.wrapping_mul(512) }
    }

    /// Starts a transfer.
    pub fn begin(base: u32, total: u64) -> (r: (Xfer, XferAction))
        requires
            total > 0,
        ensures
            r == Xfer::begin_spec(base, total),
    {
        let x = Xfer { base, total, done: 0 };
        (x, x.next())
    }

    /// Takes in whether the command succeeded.
    pub fn step(self, ok: bool) -> (r: (Xfer, XferAction))
        requires
            self.done < self.total,
        ensures
            r == self.step_spec(ok),
    {
        if !ok {
            return (self, XferAction::Reply { ok: false });
        }
        let (_, count) = next_chunk(self.base, self.done, self.total);
        let x = Xfer { done: self.done + count as u64, ..self };
        (x, x.next())
    }
}

/// All that the driver does from `x` on where the commands end as `oks` says.
pub open spec fn actions(x: (Xfer, XferAction), oks: Seq<bool>) -> Seq<XferAction>
    decreases oks.len(),
{
    if x.1 is Reply || oks.len() == 0 {
        seq![x.1]
    } else {
        seq![x.1] + actions(x.0.step_spec(oks[0]), oks.drop_first())
    }
}

/// Command `k` of a transfer.
pub open spec fn command(base: u32, total: u64, k: int) -> XferAction {
    XferAction::Command {
        lba: sat_add(base, 256 * k % 0x1_0000_0000),
        count: if total - 256 * k < 256 {
            (total - 256 * k) as u16
        } else {
            256
        },
        offset: (256 * 512 * k % 0x1_0000_0000_0000_0000) as u64,
    }
}

/// Law: a transfer runs its commands in turn, each 256 sectors and 256 times 512 bytes of the
/// buffer further on, the last one for what is left. It stops at the first command that
/// fails, the one after `f` that succeeded, and replies whether all of them succeeded.
pub proof fn law_transfer_runs(base: u32, total: u64, oks: Seq<bool>, f: int)
    requires
        total > 0,
        oks.len() == (total + 255) / 256,
        0 <= f <= oks.len(),
        forall|i: int| 0 <= i < f ==> oks[i],
        f < oks.len() ==> !oks[f],
    ensures
        ({
            let a = actions(Xfer::begin_spec(base, total), oks);
            let ran = ran_of(f, oks.len() as int);
            &&& a.len() == ran + 1
            &&& forall|k: int| 0 <= k < ran ==> #[trigger] a[k] == command(base, total, k)
            &&& a[ran] == (XferAction::Reply { ok: f == oks.len() })
        }),
{
    lemma_runs(base, total, oks, f, 0);
    let a = actions(Xfer::begin_spec(base, total), oks);
    assert(before(base, total, 0) == (Xfer { base, total, done: 0 }));
    assert forall|k: int| 0 <= k < ran_of(f, oks.len() as int) implies #[trigger] a[k] == command(
        base,
        total,
        k,
    ) by {
        assert(a[k] == command(base, total, 0 + k));
    }
}

/// A transfer before command `j`.
pub open spec fn before(base: u32, total: u64, j: int) -> Xfer {
    Xfer { base, total, done: (256 * j) as u64 }
}

/// Command `j` comes, and after it the next one or the reply.
proof fn lemma_one(base: u32, total: u64, j: int)
    requires
        0 <= j,
        256 * j < total,
    ensures
        before(base, total, j).next_spec() == command(base, total, j),
        before(base, total, j).step_spec(false).1 == (XferAction::Reply { ok: false }),
        256 * (j + 1) >= total ==> before(base, total, j).step_spec(true).1 == (XferAction::Reply {
            ok: true,
        }),
        256 * (j + 1) < total ==> before(base, total, j).step_spec(true) == (
            before(base, total, j + 1),
            before(base, total, j + 1).next_spec(),
        ),
{
    let x = before(base, total, j);
    assert(x.done == 256 * j);
    assert(x.done * 512 == 256 * 512 * j) by (nonlinear_arith)
        requires
            x.done == 256 * j,
    ;
}

/// What a run does first, and what it does then.
proof fn lemma_actions(x: (Xfer, XferAction), oks: Seq<bool>)
    requires
        x.1 is Command,
        oks.len() > 0,
    ensures
        actions(x, oks) == seq![x.1] + actions(x.0.step_spec(oks[0]), oks.drop_first()),
{
}

/// A run that is at its end.
proof fn lemma_at_end(x: (Xfer, XferAction), oks: Seq<bool>)
    requires
        x.1 is Reply,
    ensures
        actions(x, oks) == seq![x.1],
{
}

/// The commands that were run where `f` of at most `n` succeeded.
pub open spec fn ran_of(f: int, n: int) -> int {
    if f < n {
        f + 1
    } else {
        f
    }
}

/// What a run from command `j` on is, `f` of at most `n` commands succeeding.
pub open spec fn run_is(a: Seq<XferAction>, base: u32, total: u64, j: int, f: int, n: int) -> bool {
    &&& a.len() == ran_of(f, n) + 1
    &&& forall|k: int|
        0 <= k < ran_of(f, n) ==> #[trigger] a[k] == command(base, total, j + k)
    &&& a[ran_of(f, n)] == (XferAction::Reply { ok: f == n })
}

/// One more command in front of a run.
proof fn lemma_longer(b: Seq<XferAction>, base: u32, total: u64, j: int, f: int, n: int)
    requires
        0 <= f <= n,
        run_is(b, base, total, j + 1, f, n),
    ensures
        run_is(seq![command(base, total, j)] + b, base, total, j, f + 1, n + 1),
{
    let a = seq![command(base, total, j)] + b;
    assert forall|k: int| 0 <= k < ran_of(f + 1, n + 1) implies #[trigger] a[k] == command(
        base,
        total,
        j + k,
    ) by {
        if k > 0 {
            assert(a[k] == b[k - 1]);
            assert(b[k - 1] == command(base, total, j + 1 + (k - 1)));
        }
    }
}

/// The rest of a transfer from command `j` on.
proof fn lemma_runs(base: u32, total: u64, oks: Seq<bool>, f: int, j: int)
    requires
        0 <= j,
        256 * j < total,
        oks.len() == (total + 255) / 256 - j,
        0 <= f <= oks.len(),
        forall|i: int| 0 <= i < f ==> oks[i],
        f < oks.len() ==> !oks[f],
    ensures
        run_is(
            actions((before(base, total, j), before(base, total, j).next_spec()), oks),
            base,
            total,
            j,
            f,
            oks.len() as int,
        ),
    decreases oks.len(),
{
    let x = before(base, total, j);
    let rest = oks.drop_first();
    lemma_one(base, total, j);
    lemma_actions((x, x.next_spec()), oks);
    if f == 0 {
        lemma_at_end(x.step_spec(false), rest);
    } else if rest.len() == 0 {
        lemma_at_end(x.step_spec(true), rest);
    } else {
        assert forall|i: int| 0 <= i < rest.len() implies rest[i] == oks[i + 1] by {}
        lemma_runs(base, total, rest, f - 1, j + 1);
        let y = before(base, total, j + 1);
        lemma_longer(
            actions((y, y.next_spec()), rest),
            base,
            total,
            j,
            f - 1,
            rest.len() as int,
        );
    }
}

/// Law: the commands that a transfer runs are those by which its sectors are covered.
pub proof fn law_transfer_runs_chunks(base: u32, total: u64, k: int)
    requires
        0 <= k < chunks(base, 0, total).len(),
    ensures
        chunks(base, 0, total).len() == (total + 255) / 256,
        command(base, total, k) == (XferAction::Command {
            lba: chunks(base, 0, total)[k].0,
            count: chunks(base, 0, total)[k].1,
            offset: (256 * 512 * k % 0x1_0000_0000_0000_0000) as u64,
        }),
{
    lemma_chunks(base, total, 0, k);
}

/// The commands from number `j` on.
proof fn lemma_chunks(base: u32, total: u64, j: int, k: int)
    requires
        0 <= j,
        256 * j <= total,
        0 <= k,
    ensures
        chunks(base, (256 * j) as u64, total).len() == (total + 255) / 256 - j,
        k < chunks(base, (256 * j) as u64, total).len() ==> chunks(
            base,
            (256 * j) as u64,
            total,
        )[k] == chunk_spec(base, (256 * (j + k)) as u64, total),
    decreases total - 256 * j,
{
    if 256 * j < total {
        let c = chunk_spec(base, (256 * j) as u64, total);
        if total - 256 * j >= 256 {
            assert((256 * j) as u64 + c.1 == 256 * (j + 1));
            lemma_chunks(base, total, j + 1, if k > 0 { k - 1 } else { 0 });
        } else {
            assert(chunks(base, ((256 * j) as u64 + c.1) as u64, total).len() == 0);
        }
    }
}

/// The answer of the block service when it lists its volumes.
pub fn list_reply(vols: &Vec<Volume>, max: u64) -> (r: Vec<VolumeDesc>)
    requires
        vols.len() <= VOL_MAX,
    ensures
        r@ == Seq::new(
            if max < vols@.len() {
                max as nat
            } else {
                vols@.len()
            },
            |i: int| volume::desc_of(i, vols@[i]),
        ),
{
    volume::list_volumes(vols, max)
}

} // verus!
