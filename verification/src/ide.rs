//! The IDE disk driver (PIO): what to write to which port, and how the status
//! register steers a transfer.
use vstd::prelude::*;

use crate::bytes;

verus! {

/// Data register.
pub const IDE_DATA: u16 = 0x1F0;

/// Sector count register.
pub const IDE_SECT_CNT: u16 = 0x1F2;

/// Address bits 0 to 7.
pub const IDE_LBA_LO: u16 = 0x1F3;

/// Address bits 8 to 15.
pub const IDE_LBA_MID: u16 = 0x1F4;

/// Address bits 16 to 23.
pub const IDE_LBA_HI: u16 = 0x1F5;

/// Drive select and address bits 24 to 27.
pub const IDE_DRIVE: u16 = 0x1F6;

/// Status (read) and command (write) register.
pub const IDE_STATUS: u16 = 0x1F7;

/// Read sectors.
pub const ATA_READ_SECTORS: u8 = 0x20;

/// Write sectors.
pub const ATA_WRITE_SECTORS: u8 = 0x30;

/// Status bit: busy.
pub const ATA_BSY: u8 = 0x80;

/// Status bit: ready.
pub const ATA_DRDY: u8 = 0x40;

/// Status bit: data wanted.
pub const ATA_DRQ: u8 = 0x08;

/// Status bit: error.
pub const ATA_ERR: u8 = 0x01;

/// Times the status register is read before a transfer is given up.
pub const IDE_POLLS: u32 = 100_000;

/// The six register writes that start a transfer of `count` sectors at `lba`
/// (28 bits; 256 sectors are written as 0).
pub open spec fn setup_spec(lba: u32, count: u16, write: bool) -> Seq<(u16, u8)> {
    seq![
        (IDE_SECT_CNT, (count % 0x100) as u8),
        (IDE_LBA_LO, (lba % 0x100) as u8),
        (IDE_LBA_MID, (lba / 0x100 % 0x100) as u8),
        (IDE_LBA_HI, (lba / 0x1_0000 % 0x100) as u8),
        (IDE_DRIVE, (0xE0 + lba / 0x100_0000 % 0x10) as u8),
        (
            IDE_STATUS,
            if write {
                ATA_WRITE_SECTORS
            } else {
                ATA_READ_SECTORS
            },
        ),
    ]
}

/// The six register writes that start a transfer.
pub fn setup(lba: u32, count: u16, write: bool) -> (r: Vec<(u16, u8)>)
    ensures
        r@ == setup_spec(lba, count, write),
{
    let cmd: u8 = if write {
        ATA_WRITE_SECTORS
    } else {
        ATA_READ_SECTORS
    };
    let mut r: Vec<(u16, u8)> = Vec::new();
    r.push((IDE_SECT_CNT, (count % 0x100) as u8));
    r.push((IDE_LBA_LO, (lba % 0x100) as u8));
    r.push((IDE_LBA_MID, (lba / 0x100 % 0x100) as u8));
    r.push((IDE_LBA_HI, (lba / 0x1_0000 % 0x100) as u8));
    r.push((IDE_DRIVE, (0xE0 + lba / 0x100_0000 % 0x10) as u8));
    r.push((IDE_STATUS, cmd));
    assert(r@ =~= setup_spec(lba, count, write));
    r
}

/// A transfer in progress.
#[derive(Clone, Copy, PartialEq, Eq, Structural)]
pub enum IdeXfer {
    /// Waiting for the drive; `polls` reads of the status register are left.
    Ready { polls: u32 },
    /// Waiting for the data of sector `sector`.
    Data { sector: u16, polls: u32 },
    /// Over; whether it succeeded.
    Over { ok: bool },
}

/// What the driver does next.
#[derive(Clone, Copy, PartialEq, Eq, Structural)]
pub enum IdeAction {
    /// Read the status register.
    ReadStatus,
    /// Write the setup registers, then read the status register.
    Start,
    /// Move the 256 words of a sector, then read the status register.
    Move { sector: u16 },
    /// Reply.
    Reply { ok: bool },
}

impl IdeXfer {
    /// The state in which a transfer of `count` sectors starts: 1 to 256 sectors are
    /// accepted.
    pub open spec fn begin_spec(count: u16) -> (IdeXfer, IdeAction) {
        if count == 0 || count > 256 {
            (IdeXfer::Over { ok: false }, IdeAction::Reply { ok: false })
        } else {
            (IdeXfer::Ready { polls: IDE_POLLS }, IdeAction::ReadStatus)
        }
    }

    /// The state after the status register read as `status`, in a transfer of `count`
    /// sectors.
    pub open spec fn step_spec(self, count: u16, status: u8) -> (IdeXfer, IdeAction) {
        match self {
            IdeXfer::Ready { polls } => if status & ATA_BSY == 0 && status & ATA_DRDY != 0 {
                (IdeXfer::Data { sector: 0, polls: IDE_POLLS }, IdeAction::Start)
            } else if polls <= 1 {
                (IdeXfer::Over { ok: false }, IdeAction::Reply { ok: false })
            } else {
                (IdeXfer::Ready { polls: (polls - 1) as u32 }, IdeAction::ReadStatus)
            },
            IdeXfer::Data { sector, polls } => if status & ATA_BSY == 0 && status & ATA_ERR != 0 {
                (IdeXfer::Over { ok: false }, IdeAction::Reply { ok: false })
            } else if status & ATA_BSY == 0 && status & ATA_DRQ != 0 {
                if sector + 1 >= count {
                    (IdeXfer::Over { ok: true }, IdeAction::Move { sector })
                } else {
                    (
                        IdeXfer::Data { sector: (sector + 1) as u16, polls: IDE_POLLS },
                        IdeAction::Move { sector },
                    )
                }
            } else if polls <= 1 {
                (IdeXfer::Over { ok: false }, IdeAction::Reply { ok: false })
            } else {
                (IdeXfer::Data { sector, polls: (polls - 1) as u32 }, IdeAction::ReadStatus)
            },
            IdeXfer::Over { ok } => (self, IdeAction::Reply { ok }),
        }
    }

    /// Starts a transfer of `count` sectors.
    pub fn begin(count: u16) -> (r: (IdeXfer, IdeAction))
        ensures
            r == Self::begin_spec(count),
    {
        if count == 0 || count > 256 {
            (IdeXfer::Over { ok: false }, IdeAction::Reply { ok: false })
        } else {
            (IdeXfer::Ready { polls: IDE_POLLS }, IdeAction::ReadStatus)
        }
    }

    /// Takes in a value of the status register.
    pub fn step(self, count: u16, status: u8) -> (r: (IdeXfer, IdeAction))
        ensures
            r == self.step_spec(count, status),
    {
        match self {
            IdeXfer::Ready { polls } => {
                if status & ATA_BSY == 0 && status & ATA_DRDY != 0 {
                    return (IdeXfer::Data { sector: 0, polls: IDE_POLLS }, IdeAction::Start);
                }
                if polls <= 1 {
                    return (IdeXfer::Over { ok: false }, IdeAction::Reply { ok: false });
                }
                (IdeXfer::Ready { polls: polls - 1 }, IdeAction::ReadStatus)
            },
            IdeXfer::Data { sector, polls } => {
                if status & ATA_BSY == 0 {
                    if status & ATA_ERR != 0 {
                        return (IdeXfer::Over { ok: false }, IdeAction::Reply { ok: false });
                    }
                    if status & ATA_DRQ != 0 {
                        if sector as u32 + 1 >= count as u32 {
                            return (IdeXfer::Over { ok: true }, IdeAction::Move { sector });
                        }
                        return (
                            IdeXfer::Data { sector: sector + 1, polls: IDE_POLLS },
                            IdeAction::Move { sector },
                        );
                    }
                }
                if polls <= 1 {
                    return (IdeXfer::Over { ok: false }, IdeAction::Reply { ok: false });
                }
                (IdeXfer::Data { sector, polls: polls - 1 }, IdeAction::ReadStatus)
            },
            IdeXfer::Over { ok } => (self, IdeAction::Reply { ok }),
        }
    }

    /// Sectors still to be moved, and status reads left, as one falling number.
    pub open spec fn left(self, count: u16) -> int {
        match self {
            IdeXfer::Ready { polls } => (count + 1) * (IDE_POLLS + 1) + polls,
            IdeXfer::Data { sector, polls } => (count - sector) * (IDE_POLLS + 1) + polls,
            IdeXfer::Over { .. } => -1,
        }
    }
}

/// Law: whatever the status register reads, a transfer gets nearer to its end with
/// every read: it cannot wait for ever.
pub proof fn law_transfer_ends(x: IdeXfer, count: u16, status: u8)
    requires
        0 < count <= 256,
        x matches IdeXfer::Ready { polls } ==> polls <= IDE_POLLS,
        x matches IdeXfer::Data { sector, polls } ==> sector < count && polls <= IDE_POLLS,
    ensures
        x is Over || x.step_spec(count, status).0.left(count) < x.left(count),
        x.step_spec(count, status).0 matches IdeXfer::Ready { polls } ==> polls <= IDE_POLLS,
        x.step_spec(count, status).0 matches IdeXfer::Data { sector, polls } ==> sector < count
            && polls <= IDE_POLLS,
{
    match x {
        IdeXfer::Ready { polls } => {},
        IdeXfer::Data { sector, polls } => {
            assert((count - (sector + 1)) * (IDE_POLLS + 1) == (count - sector) * (IDE_POLLS + 1)
                - (IDE_POLLS + 1)) by (nonlinear_arith);
            assert((count - sector) * (IDE_POLLS + 1) >= IDE_POLLS + 1) by (nonlinear_arith)
                requires
                    count - sector >= 1,
            ;
        },
        IdeXfer::Over { .. } => {},
    }
}

/// Law: a transfer succeeds only by moving its last sector, and moves sectors in
/// order.
pub proof fn law_success_moves_last(x: IdeXfer, count: u16, status: u8)
    requires
        x !is Over,
        x.step_spec(count, status).0 == (IdeXfer::Over { ok: true }),
    ensures
        x is Data,
        x->sector + 1 >= count,
        x.step_spec(count, status).1 == (IdeAction::Move { sector: x->sector }),
{
}

/// Stores word `i` of a sector as it came from the data register.
pub fn read_sector_word(buf: &mut Vec<u8>, i: usize, w: u16)
    requires
        i < 256,
        old(buf).len() >= 512,
    ensures
        final(buf)@ == bytes::put16(old(buf)@, i * 2, w),
{
    bytes::write_u16(buf, i * 2, w);
}

/// Word `i` of a sector as it goes to the data register.
pub fn write_sector_word(buf: &[u8], i: usize) -> (r: u16)
    requires
        i < 256,
        buf.len() >= 512,
    ensures
        r == bytes::le16(buf@, i * 2),
{
    bytes::read_u16(buf, i * 2)
}

} // verus!
