//! What holds of the disk controller: which pages a transfer uses, how it is started, which of its
//! answers count, and what a request for sectors of a volume asks of which disk.
use vstd::prelude::*;

use crate::nvme;
use crate::nvme::{
    BlockPlan, BlockReq, NvmeAction, NvmeConfig, NvmeEvent, NvmeFault, NvmeState, Poll, Queue, Sqe,
    Wait,
};
use crate::volume::Volume;

verus! {

/// Where the controller finds page `k` of the `n` of a transfer: the first in the command, a second
/// and last one too, and else all but the first in the list that the command names.
pub open spec fn page_at(c: Sqe, list: Seq<u64>, n: int, k: int) -> u64 {
    if k == 0 {
        c.prp1
    } else if n == 2 {
        c.prp2
    } else {
        list[k - 1]
    }
}

/// Law: the command for `count` sectors at `lba` names them, and its pages are those given, as many
/// as the sectors take at 4096 bytes each; with more than two pages it names the list.
pub proof fn law_pages(
    opcode: u8,
    nsid: u32,
    lba: u32,
    count: u16,
    phys: Seq<u64>,
    list_phys: u64,
    n: int,
    k: int,
)
    requires
        nvme::pages_ok(count, phys, list_phys),
        4096 * (n - 1) < 512 * count <= 4096 * n,
        0 <= k < n,
    ensures
        ({
            let c = nvme::rw_command(opcode, nsid, lba, count, phys, list_phys);
            let list = if n > 2 {
                phys.subrange(1, n)
            } else {
                Seq::empty()
            };
            &&& page_at(c, list, n, k) == phys[k]
            &&& n > 2 ==> c.prp2 == list_phys
            &&& c.cdw10 == lba && c.cdw11 == 0 && c.cdw12 + 1 == count
            &&& c.opcode == opcode && c.nsid == nsid && c.flags == 0 && c.mptr == 0
        }),
{
    assert(nvme::pages_for(count) == n);
}

/// Law: a transfer is planned exactly where it is one of 1 to 256 sectors, there are enough pages,
/// the first is mapped, and, where there are more than one, starts at a page; a second one is
/// mapped; and with more than two, all of them are mapped and start at a page, and there is room for
/// the list.
pub proof fn law_pages_taken(count: u16, phys: Seq<u64>, list_phys: u64, n: int)
    requires
        4096 * (n - 1) < 512 * count <= 4096 * n,
    ensures
        nvme::pages_ok(count, phys, list_phys) <==> {
            &&& 1 <= count <= 256
            &&& n <= phys.len()
            &&& phys[0] != 0
            &&& n >= 2 ==> phys[0] % 4096 == 0 && phys[1] != 0
            &&& n >= 3 ==> list_phys != 0 && forall|i: int|
                1 <= i < n ==> (#[trigger] phys[i]) != 0 && phys[i] % 4096 == 0
        },
{
    assert(nvme::pages_for(count) == n);
    if n >= 3 && n <= phys.len() && (forall|i: int|
        1 <= i < n ==> (#[trigger] phys[i]) != 0 && phys[i] % 4096 == 0) {
        assert(phys[1] != 0);
    }
}

/// Law: submissions take the slots one after the other and start again at the first; a completion
/// counts exactly where its phase bit is the one expected, and is then reported with its status and
/// the next slot.
pub proof fn law_slots(q: Queue, sf: u16)
    requires
        q.wf(),
    ensures
        q.submitted().tail == if q.tail == q.depth - 1 {
            0
        } else {
            q.tail + 1
        },
        q.submitted().head == q.head && q.submitted().phase == q.phase,
        sf & 1 != q.phase ==> q.polled(sf) == (q, Poll::Pending),
        sf & 1 == q.phase ==> {
            let (r, p) = q.polled(sf);
            &&& p matches Poll::Done { doorbell, status } && status == sf >> 1u16 && doorbell == r.head
            &&& q.head < q.depth - 1 ==> r.head == q.head + 1 && r.phase == q.phase
            &&& q.head == q.depth - 1 ==> r.head == 0 && r.phase == 1 - q.phase
            &&& r.tail == q.tail && r.depth == q.depth
        },
{
    assert(sf & 1 == sf % 2 && sf >> 1u16 == sf / 2) by (bit_vector);
    if q.tail == q.depth - 1 {
        vstd::arithmetic::div_mod::lemma_mod_self_0(q.depth as int);
    } else {
        vstd::arithmetic::div_mod::lemma_small_mod((q.tail + 1) as nat, q.depth as nat);
    }
}

/// Law: a command has succeeded exactly where it was completed with status 0; one that was not
/// completed is looked for again, as often as it may be, and then has failed.
pub proof fn law_waiting(polls: u32, doorbell: u32, status: u16)
    requires
        polls > 0,
    ensures
        (Wait::Polling { polls }).after((Poll::Done { doorbell, status })) == (Wait::Over {
            ok: status == 0,
        }),
        polls > 1 ==> (Wait::Polling { polls }).after(Poll::Pending) == (Wait::Polling {
            polls: (polls - 1) as u32,
        }),
        (Wait::Polling { polls: 1 }).after(Poll::Pending) == (Wait::Over { ok: false }),
{
}

/// Law: the controller is started in this order: it is told to stop, then, once it has stopped, to
/// start, with queues one shorter than they are deep; once it runs it is asked what it is, then for
/// the size of each of its disks, from number 1 on; then the completion queue is made, and then the
/// submission queue that belongs to it. A step that fails, but for a disk that does not tell its
/// size, ends it there.
pub proof fn law_start(c: NvmeConfig, polls: u32, s: u32, word: u32, i: u32, n: u32, ok: bool)
    requires
        c.wf(),
        c.admin_qdepth <= 4096,
        i < n <= 8,
        polls < 1_000_000,
    ensures
        ({
            let done = NvmeEvent::AdminDone { ok, word };
            let (a1, b1) = NvmeState::Stopping { polls }.next_spec(c, NvmeEvent::Status(s));
            let (a2, b2) = NvmeState::Starting { polls }.next_spec(c, NvmeEvent::Status(s));
            let (a3, b3) = NvmeState::Identify.next_spec(c, done);
            let (a4, b4) = NvmeState::Size { i, n }.next_spec(c, done);
            let (a5, b5) = NvmeState::MakeCq.next_spec(c, done);
            let (a6, b6) = NvmeState::MakeSq.next_spec(c, done);
            let d = c.admin_qdepth - 1;
            &&& s & 1 == 0 ==> a1 == (NvmeState::Starting { polls: 0 }) && b1 == (
            NvmeAction::Enable { aqa: (d + 0x1_0000 * d) as u32, cc: 0x0046_0001 })
            &&& s & 1 != 0 ==> a1 == (NvmeState::Stopping { polls: (polls + 1) as u32 })
                && b1 is ReadStatus
            &&& s & 1 != 0 ==> a2 is Identify && (b2 matches NvmeAction::Admin(q) && q.opcode == 6
                && q.cdw10 == 1 && q.prp1 == c.data_paddr && q.nsid == 0)
            &&& s & 1 == 0 ==> a2 == (NvmeState::Starting { polls: (polls + 1) as u32 })
                && b2 is ReadStatus
            &&& ok ==> asks_size(a3, b3, c, 0, disks(word))
            &&& !ok ==> a3 == NvmeState::Failed(NvmeFault::Identify) && b3 is Stop
            &&& i + 1 < n ==> asks_size(a4, b4, c, i + 1, n as int)
            &&& i + 1 == n ==> a4 is MakeCq && (b4 matches NvmeAction::Admin(q) && q.opcode == 5
                && q.prp1 == c.icq_paddr && q.cdw10 == 0x1_0000 * (c.io_qdepth - 1) + 1 && q.cdw11
                == 1)
            &&& ok ==> a5 is MakeSq && (b5 matches NvmeAction::Admin(q) && q.opcode == 1 && q.prp1
                == c.isq_paddr && q.cdw10 == 0x1_0000 * (c.io_qdepth - 1) + 1 && q.cdw11 == 0x1_0000
                + 1)
            &&& !ok ==> a5 == NvmeState::Failed(NvmeFault::CreateCq) && b5 is Stop
            &&& ok ==> a6 is Running && b6 is Serve
            &&& !ok ==> a6 == NvmeState::Failed(NvmeFault::CreateSq) && b6 is Stop
        }),
{
    assert(s & 1 == s % 2) by (bit_vector);
    assert(nvme::nsids_spec(word).len() == disks(word));
}

/// How many disks are asked for: as many as the controller says, but no more than eight, and three
/// where it does not say.
pub open spec fn disks(word: u32) -> int {
    if word == 0 {
        3
    } else if word < 8 {
        word as int
    } else {
        8
    }
}

/// The size of disk `i + 1` of `n` is asked for.
pub open spec fn asks_size(s: NvmeState, a: NvmeAction, c: NvmeConfig, i: int, n: int) -> bool {
    &&& s matches NvmeState::Size { i: j, n: m } && j == i && m == n
    &&& a matches NvmeAction::Admin(q) && q.opcode == 6 && q.cdw10 == 0 && q.nsid == i + 1 && q.prp1
        == c.data_paddr
}

/// Law: the disks of a controller have the numbers from 1 on.
pub proof fn law_disks(word: u32, i: int)
    requires
        0 <= i < disks(word),
    ensures
        nvme::nsids_spec(word).len() == disks(word),
        nvme::nsids_spec(word)[i] == i + 1,
{
}

/// Law: the size of a disk is the one noted first under its number, and 0 where none is.
pub proof fn law_size_of_disk(ids: Seq<u32>, sizes: Seq<u32>, nsid: u32, i: int, k: int)
    requires
        0 <= i <= k <= ids.len(),
        forall|j: int| i <= j < k ==> #[trigger] ids[j] != nsid,
        k < ids.len() ==> ids[k] == nsid,
    ensures
        nvme::sectors_from(ids, sizes, nsid, i) == if k < ids.len() {
            sizes[k]
        } else {
            0
        },
    decreases k - i,
{
    if i < k {
        assert(ids[i] != nsid);
        law_size_of_disk(ids, sizes, nsid, i + 1, k);
    }
}

/// Law: the doorbells are four bytes apart, times a power of two that bits 32 to 35 of the
/// capabilities say.
pub proof fn law_stride(cap: u64)
    ensures
        nvme::stride_spec(cap) == 4 * vstd::arithmetic::power2::pow2(
            ((cap >> 32u64) & 0xF) as nat,
        ),
{
    vstd::arithmetic::power2::lemma2_to64();
    let d = (cap / 0x1_0000_0000) % 0x10;
    assert((cap >> 32u64) & 0xF == (cap / 0x1_0000_0000) % 0x10) by (bit_vector);
    assert(d < 16 ==> 4u64 << d == if d == 0 {
        4u64
    } else if d == 1 {
        8
    } else if d == 2 {
        16
    } else if d == 3 {
        32
    } else if d == 4 {
        64
    } else if d == 5 {
        128
    } else if d == 6 {
        256
    } else if d == 7 {
        512
    } else if d == 8 {
        1024
    } else if d == 9 {
        2048
    } else if d == 10 {
        4096
    } else if d == 11 {
        8192
    } else if d == 12 {
        16384
    } else if d == 13 {
        32768
    } else if d == 14 {
        65536
    } else {
        131072
    }) by (bit_vector);
}

/// Law: a request for sectors of a volume is a transfer of as many sectors of its disk, from as many
/// behind the start of the volume as the request says; operation 0 reads and 1 writes. A volume that
/// there is not, a transfer of nothing and any other operation but the listing are refused.
pub proof fn law_request(vols: Seq<Volume>, q: BlockReq, dev: u64, code: u64)
    requires
        code < 0x100,
        q.op == 0x100 * dev + code,
    ensures
        ({
            let p = nvme::plan_spec(vols, q);
            &&& code == 2 ==> p == (BlockPlan::List { max: q.count })
            &&& code > 2 ==> p is Refuse
            &&& code < 2 && (dev >= vols.len() || q.count == 0) ==> p is Refuse
            &&& code < 2 && dev < vols.len() && q.count > 0 ==> {
                &&& p matches BlockPlan::Transfer { write, nsid, base, total } && write == (code == 1)
                    && nsid == vols[dev as int].nsid && total == q.count && (
                vols[dev as int].start_lba + q.lba <= 0xFFFF_FFFF ==> base
                    == vols[dev as int].start_lba + q.lba)
            }
        }),
{
    assert(q.op / 0x100 == dev && q.op % 0x100 == code);
}

} // verus!
