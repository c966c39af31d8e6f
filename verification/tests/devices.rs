//! Keyboard, disk drivers, domains and the volume table.
use morion::disk::{Disk, Store};
use morion::domain::{
    announced_handle, echo_reply, handle_tag, page_fault_of, payload_of, role_of, Role,
};
use morion::ide::{
    read_sector_word, setup, write_sector_word, IdeAction, IdeXfer, IDE_POLLS,
};
use morion::kbd::{key_char, KeyAction, Keyboard};
use morion::nvme::{
    block_plan, clamp_sectors, doorbell_stride, list_reply, next_chunk, nsids, nvme_ns_sectors_of,
    nvme_rw_sectors, BlockPlan, BlockReq, NvmeAction, NvmeConfig, NvmeEvent, NvmeFault, NvmeState,
    Poll, Queue, Wait, Xfer, XferAction, NVME_POLL_LIMIT, NVME_READY_POLLS, OP_CREATE_IO_CQ, OP_IDENTIFY, OP_READ,
};
use morion::print::Printer;
use morion::volume::{
    extra_volumes, list_volumes, vol_claim, vol_detect_kind, vol_find_desc, vol_find_kind, vol_get,
    vol_kind_name, vol_kind_of, vol_print_table, vol_probe_kind, vol_scan_namespace, vol_sectors,
    Volume, VOL_KIND_EXFAT, VOL_KIND_EXT2, VOL_KIND_FAT, VOL_KIND_MFS, VOL_KIND_UNKNOWN, VOL_MAX,
};

#[test]
fn keys_become_characters() {
    let mut k = Keyboard::new();
    assert!(k.step(0x1E) == KeyAction::Put(b'a'));
    assert!(k.step(0x2A) == KeyAction::Nothing);
    assert!(k.step(0x1E) == KeyAction::Put(b'A'));
    assert!(k.step(0x02) == KeyAction::Put(b'!'));
    assert!(k.step(0xAA) == KeyAction::Nothing);
    assert!(k.step(0x02) == KeyAction::Put(b'1'));
    assert!(k.step(0x0E) == KeyAction::Backspace);
    assert!(k.step(0x1C) == KeyAction::Put(b'\n'));
    assert!(k.step(0x9E) == KeyAction::Nothing);
    assert!(k.step(0xE0) == KeyAction::Nothing);
    assert!(k.step(0x48) == KeyAction::ScrollUp);
    assert!(k.step(0x48) == KeyAction::Nothing);
    for (sc, a) in [(0x50u8, KeyAction::ScrollDown), (0x4B, KeyAction::CursorLeft), (0x4D, KeyAction::CursorRight)] {
        k.step(0xE0);
        assert!(k.step(sc) == a);
    }
    assert_eq!(key_char(0x39, false), Some(b' '));
    assert_eq!(key_char(0x3B, false), None);
}

#[test]
fn registers_of_an_ide_transfer() {
    assert_eq!(
        setup(0x0A12_3456, 256, false),
        vec![(0x1F2, 0), (0x1F3, 0x56), (0x1F4, 0x34), (0x1F5, 0x12), (0x1F6, 0xEA), (0x1F7, 0x20)]
    );
    assert_eq!(setup(0, 1, true)[5], (0x1F7, 0x30));
    let mut buf = vec![0u8; 512];
    read_sector_word(&mut buf, 3, 0xBEEF);
    assert_eq!(&buf[6..8], &[0xEF, 0xBE]);
    assert_eq!(write_sector_word(&buf, 3), 0xBEEF);
}

#[test]
fn ide_transfer_of_two_sectors() {
    let (x, a) = IdeXfer::begin(2);
    assert!(a == IdeAction::ReadStatus);
    let (x, a) = x.step(2, 0x80);
    assert!(a == IdeAction::ReadStatus);
    let (x, a) = x.step(2, 0x40);
    assert!(a == IdeAction::Start);
    let (x, a) = x.step(2, 0x48);
    assert!(a == IdeAction::Move { sector: 0 });
    let (x, a) = x.step(2, 0x48);
    assert!(a == IdeAction::Move { sector: 1 });
    assert!(x.step(2, 0).1 == IdeAction::Reply { ok: true });
}

#[test]
fn ide_transfer_fails() {
    assert!(IdeXfer::begin(0).1 == IdeAction::Reply { ok: false });
    assert!(IdeXfer::begin(257).1 == IdeAction::Reply { ok: false });
    let (x, _) = IdeXfer::begin(1);
    let (x, _) = x.step(1, 0x40);
    assert!(x.step(1, 0x01).1 == IdeAction::Reply { ok: false });
    let (mut x, mut a) = IdeXfer::begin(1);
    let mut n = 0;
    while a == IdeAction::ReadStatus {
        let (y, b) = x.step(1, 0x80);
        x = y;
        a = b;
        n += 1;
    }
    assert_eq!(n, IDE_POLLS);
    assert!(a == IdeAction::Reply { ok: false });
}

#[test]
fn nvme_queue_goes_round() {
    let mut q = Queue::new(2);
    assert_eq!(q.submit(), (0, 1));
    assert_eq!(q.submit(), (1, 0));
    assert!(q.poll(0) == Poll::Pending);
    assert!(q.poll(1) == Poll::Done { doorbell: 1, status: 0 });
    assert!(q.poll(0x0005) == Poll::Done { doorbell: 0, status: 2 });
    assert!(q.poll(1) == Poll::Pending);
    assert!(q.poll(0) == Poll::Done { doorbell: 1, status: 0 });
    let w = Wait::begin();
    assert!(w.step(Poll::Done { doorbell: 1, status: 0 }) == Wait::Over { ok: true });
    assert!(w.step(Poll::Done { doorbell: 1, status: 2 }) == Wait::Over { ok: false });
    let mut w = Wait::begin();
    let mut n = 0;
    while !matches!(w, Wait::Over { .. }) {
        w = w.step(Poll::Pending);
        n += 1;
    }
    assert_eq!(n, NVME_POLL_LIMIT);
    assert!(w == Wait::Over { ok: false });
}

#[test]
fn nvme_transfers_are_planned() {
    let p = nvme_rw_sectors(OP_READ, 3, 100, 8, &vec![0x5008], 0).unwrap();
    assert_eq!((p.sqe.prp1, p.sqe.prp2, p.sqe.cdw10, p.sqe.cdw12, p.sqe.nsid), (0x5008, 0, 100, 7, 3));
    assert!(p.list.is_empty());
    let p = nvme_rw_sectors(OP_READ, 1, 0, 16, &vec![0x5000, 0x9000], 0).unwrap();
    assert_eq!(p.sqe.prp2, 0x9000);
    let p = nvme_rw_sectors(OP_READ, 1, 0, 17, &vec![0x5000, 0x9000, 0xA000], 0x7000).unwrap();
    assert_eq!(p.sqe.prp2, 0x7000);
    assert_eq!(p.list, vec![0x9000, 0xA000]);
    assert!(nvme_rw_sectors(OP_READ, 1, 0, 0, &vec![0x5000], 0).is_none());
    assert!(nvme_rw_sectors(OP_READ, 1, 0, 257, &vec![0x5000; 40], 0x7000).is_none());
    assert!(nvme_rw_sectors(OP_READ, 1, 0, 16, &vec![0x5008, 0x9000], 0).is_none());
    assert!(nvme_rw_sectors(OP_READ, 1, 0, 17, &vec![0x5000, 0x9001, 0xA000], 0x7000).is_none());
    assert!(nvme_rw_sectors(OP_READ, 1, 0, 8, &vec![0], 0).is_none());
    assert_eq!(nsids(0), vec![1, 2, 3]);
    assert_eq!(nsids(2), vec![1, 2]);
    assert_eq!(nsids(100).len(), 8);
    assert_eq!(clamp_sectors(7), 7);
    assert_eq!(clamp_sectors(u64::MAX), u32::MAX);
    assert_eq!(nvme_ns_sectors_of(&vec![1, 2], &vec![10, 20], 2), 20);
    assert_eq!(nvme_ns_sectors_of(&vec![1, 2], &vec![10, 20], 9), 0);
    assert_eq!(doorbell_stride(0), 4);
    assert_eq!(doorbell_stride(2 << 32), 16);
}

fn config() -> NvmeConfig {
    NvmeConfig {
        asq_paddr: 0x1000,
        acq_paddr: 0x2000,
        isq_paddr: 0x3000,
        icq_paddr: 0x4000,
        data_paddr: 0x5000,
        admin_qdepth: 16,
        io_qdepth: 32,
    }
}

#[test]
fn nvme_controller_starts() {
    let c = config();
    let (s, a) = NvmeState::begin();
    assert!(a == NvmeAction::ReadStatus);
    let (s, a) = s.next(&c, NvmeEvent::Status(1));
    assert!(a == NvmeAction::ReadStatus);
    let (s, a) = s.next(&c, NvmeEvent::Status(0));
    assert!(a == NvmeAction::Enable { aqa: 0x000F_000F, cc: 0x0046_0001 });
    let (mut s, mut a) = s.next(&c, NvmeEvent::Status(1));
    let mut ops = vec![];
    while let NvmeAction::Admin(q) = a {
        ops.push((q.opcode, q.nsid, q.cdw10, q.cdw11));
        let (t, b) = s.next(&c, NvmeEvent::AdminDone { ok: true, word: 2 });
        s = t;
        a = b;
    }
    assert!(s == NvmeState::Running && a == NvmeAction::Serve);
    assert_eq!(
        ops,
        vec![
            (OP_IDENTIFY, 0, 1, 0),
            (OP_IDENTIFY, 1, 0, 0),
            (OP_IDENTIFY, 2, 0, 0),
            (OP_CREATE_IO_CQ, 0, 0x1F_0001, 1),
            (1, 0, 0x1F_0001, 0x1_0001),
        ]
    );
}

#[test]
fn nvme_controller_fails() {
    let c = config();
    let fail = NvmeEvent::AdminDone { ok: false, word: 0 };
    for (s, f) in [
        (NvmeState::Identify, NvmeFault::Identify),
        (NvmeState::MakeCq, NvmeFault::CreateCq),
        (NvmeState::MakeSq, NvmeFault::CreateSq),
    ] {
        let (t, a) = s.next(&c, fail);
        assert!(t == NvmeState::Failed(f) && a == NvmeAction::Stop);
    }
    let late = NvmeState::Stopping { polls: NVME_READY_POLLS };
    assert!(late.next(&c, NvmeEvent::Status(1)).0 == NvmeState::Failed(NvmeFault::StopTimeout));
    let late = NvmeState::Starting { polls: NVME_READY_POLLS };
    assert!(late.next(&c, NvmeEvent::Status(0)).0 == NvmeState::Failed(NvmeFault::StartTimeout));
}

#[test]
fn block_requests_are_planned() {
    let vols = vec![
        Volume { nsid: 1, start_lba: 0, sectors: 100, kind: VOL_KIND_FAT },
        Volume { nsid: 4, start_lba: 2048, sectors: 100, kind: VOL_KIND_EXT2 },
    ];
    let plan = |op, lba, count| block_plan(&vols, &BlockReq { op, lba, count });
    assert!(plan(0, 5, 8) == BlockPlan::Transfer { write: false, nsid: 1, base: 5, total: 8 });
    assert!(plan(0x101, 5, 8) == BlockPlan::Transfer { write: true, nsid: 4, base: 2053, total: 8 });
    assert!(plan(2, 0, 16) == BlockPlan::List { max: 16 });
    assert!(plan(0x200, 0, 1) == BlockPlan::Refuse);
    assert!(plan(3, 0, 1) == BlockPlan::Refuse);
    assert!(plan(0, 0, 0) == BlockPlan::Refuse);
    let (mut done, total) = (0u64, 600u64);
    let mut seen = vec![];
    while done < total {
        let (lba, n) = next_chunk(1000, done, total);
        seen.push((lba, n));
        done += n as u64;
    }
    assert_eq!(seen, vec![(1000, 256), (1256, 256), (1512, 88)]);
    assert_eq!(list_reply(&vols, 1).len(), 1);
    let l = list_reply(&vols, 16);
    assert_eq!((l[1].id, l[1].nsid, l[1].start_lba), (1, 4, 2048));
}

/// What a transfer does where the commands end as `oks` says.
fn run_transfer(base: u32, total: u64, oks: &[bool]) -> (Vec<(u32, u16, u64)>, bool) {
    let mut seen = vec![];
    let (mut x, mut a) = Xfer::begin(base, total);
    loop {
        match a {
            XferAction::Command { lba, count, offset } => {
                let ok = oks[seen.len()];
                seen.push((lba, count, offset));
                (x, a) = x.step(ok);
            }
            XferAction::Reply { ok } => return (seen, ok),
        }
    }
}

#[test]
fn transfer_runs_to_its_end_or_to_a_failure() {
    let all = vec![(1000, 256, 0), (1256, 256, 131072), (1512, 88, 262144)];
    assert_eq!(run_transfer(1000, 600, &[true, true, true]), (all.clone(), true));
    assert_eq!(run_transfer(1000, 600, &[true, true, false]), (all.clone(), false));
    assert_eq!(run_transfer(1000, 600, &[true, false, true]), (all[..2].to_vec(), false));
    assert_eq!(run_transfer(1000, 600, &[false]), (all[..1].to_vec(), false));
    assert_eq!(run_transfer(7, 256, &[true]), (vec![(7, 256, 0)], true));
    assert_eq!(run_transfer(7, 1, &[true]), (vec![(7, 1, 0)], true));
}

fn mbr_entry(d: &mut Disk, i: usize, kind: u8, start: u32, sectors: u32) {
    let o = 446 + 16 * i;
    d.data[o + 4] = kind;
    d.data[o + 8..o + 12].copy_from_slice(&start.to_le_bytes());
    d.data[o + 12..o + 16].copy_from_slice(&sectors.to_le_bytes());
    d.data[510] = 0x55;
    d.data[511] = 0xAA;
}

fn gpt_entry(d: &mut Disk, i: usize, first: u64, last: u64) {
    let o = 1024 + 128 * i;
    d.data[o] = 1;
    d.data[o + 0x20..o + 0x28].copy_from_slice(&first.to_le_bytes());
    d.data[o + 0x28..o + 0x30].copy_from_slice(&last.to_le_bytes());
}

#[test]
fn volumes_of_the_disks() {
    // Disk 0 is no disk: numbers start at 1.
    let none = Disk::blank(0);
    let mut fat = Disk::blank(64);
    fat.data[510] = 0x55;
    fat.data[511] = 0xAA;
    let mut parted = Disk::blank(40000);
    mbr_entry(&mut parted, 0, 0x0C, 2048, 32768);
    mbr_entry(&mut parted, 1, 0x83, 34816, 4096);
    parted.data[2048 * 512 + 510] = 0x55;
    parted.data[2048 * 512 + 511] = 0xAA;
    parted.data[34816 * 512 + 1080] = 0x53;
    parted.data[34816 * 512 + 1081] = 0xEF;
    let mut ex = Disk::blank(64);
    ex.data[3..11].copy_from_slice(b"EXFAT   ");
    let mut gpt = Disk::blank(200);
    mbr_entry(&mut gpt, 0, 0xEE, 1, 199);
    gpt.data[512..520].copy_from_slice(b"EFI PART");
    gpt.data[512 + 0x48] = 2;
    gpt.data[512 + 0x50] = 4;
    gpt.data[512 + 0x54] = 128;
    gpt_entry(&mut gpt, 0, 40, 99);
    gpt_entry(&mut gpt, 2, 100, 150);
    gpt.data[40 * 512..40 * 512 + 4].copy_from_slice(&0x4D46_5338u32.to_le_bytes());
    let ns = Store::new(vec![none, fat, parted, ex, gpt]).unwrap();
    let mut vols = vec![];
    for nsid in 1..6 {
        vol_scan_namespace(&mut vols, &ns, nsid, 64);
    }
    let l = list_volumes(&vols, 16);
    let seen: Vec<_> = l.iter().map(|d| (d.id, d.nsid, d.start_lba, d.sectors, d.kind)).collect();
    assert_eq!(
        seen,
        vec![
            (0, 1, 0, 64, VOL_KIND_FAT),
            (1, 2, 2048, 32768, VOL_KIND_FAT),
            (2, 2, 34816, 4096, VOL_KIND_EXT2),
            (3, 3, 0, 64, VOL_KIND_EXFAT),
            (4, 4, 40, 60, VOL_KIND_MFS),
            (5, 4, 100, 51, VOL_KIND_UNKNOWN),
        ]
    );
    assert_eq!(vol_probe_kind(&ns, 4, 40), VOL_KIND_MFS);
    assert_eq!(vol_probe_kind(&ns, 9, 0), VOL_KIND_UNKNOWN);
    assert_eq!(vol_find_kind(&l, VOL_KIND_EXT2), Some(2));
    assert_eq!(vol_claim(&l, VOL_KIND_EXFAT, 5), 3);
    assert_eq!(vol_claim(&l[..1].to_vec(), VOL_KIND_EXFAT, 5), 5);
    assert_eq!(vol_find_desc(&l, 4).unwrap().sectors, 60);
    assert!(vol_find_desc(&l, 44).is_none());
    assert_eq!(vol_kind_of(&l, 44), VOL_KIND_UNKNOWN);
    assert_eq!(vol_sectors(&l, 1), 32768);
    assert_eq!(extra_volumes(&l, VOL_KIND_FAT, 0), vec![1]);
    assert_eq!(vol_get(&vols, 2).unwrap().start_lba, 34816);
    assert!(vol_get(&vols, 6).is_none());
    let mut p = Printer::new();
    vol_print_table(&mut p, &vols[..1].to_vec());
    assert_eq!(p.lines, vec![b"vol: 0 nsid=1 lba=0 sectors=64 kind=fat32\n".to_vec()]);
    assert_eq!(vol_kind_name(VOL_KIND_MFS), "mfs");
    // A full table takes no more.
    for _ in 0..20 {
        vol_scan_namespace(&mut vols, &ns, 1, 64);
    }
    assert_eq!(vols.len(), VOL_MAX);
}

#[test]
fn signatures_of_a_volume() {
    let mut head = vec![0u8; 4096];
    assert_eq!(vol_detect_kind(&head), VOL_KIND_UNKNOWN);
    head[510] = 0x55;
    head[511] = 0xAA;
    assert_eq!(vol_detect_kind(&head), VOL_KIND_FAT);
    head[1080] = 0x53;
    head[1081] = 0xEF;
    assert_eq!(vol_detect_kind(&head), VOL_KIND_EXT2);
    head[..4].copy_from_slice(&0x4D46_5338u32.to_le_bytes());
    assert_eq!(vol_detect_kind(&head), VOL_KIND_MFS);
    head[3..11].copy_from_slice(b"EXFAT   ");
    assert_eq!(vol_detect_kind(&head), VOL_KIND_EXFAT);
}

#[test]
fn messages_between_domains() {
    assert!(role_of(0) == Role::Sender && role_of(13) == Role::Exfat && role_of(99) == Role::Idle);
    assert_eq!(announced_handle(0xCA07), Some(7));
    assert_eq!(announced_handle(0xCB07), None);
    assert_eq!(handle_tag(7), 0xCA07);
    assert_eq!(echo_reply(41), 42);
    assert_eq!(echo_reply(u64::MAX), 0);
    let mut p = [0u8; 24];
    p[0] = 3;
    p[8] = 0x10;
    p[16] = 2;
    let f = page_fault_of(&p).unwrap();
    assert_eq!((f.fault_domain, f.fault_addr, f.error_code), (3, 0x10, 2));
    assert!(page_fault_of(&p[..23]).is_none());
    let m = payload_of(b"hi");
    assert_eq!(m.len(), 96);
    assert_eq!(&m[..3], b"hi\0");
}
