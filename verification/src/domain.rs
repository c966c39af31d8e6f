//! Roles of the domains, and what the smallest of them decide.
use vstd::prelude::*;

use crate::bytes;
use crate::vfs::PAYLOAD_LEN;

verus! {

/// What a domain runs.
#[derive(Clone, Copy, PartialEq, Eq, Structural)]
pub enum Role {
    Sender,
    Receiver,
    Pager,
    Echo,
    Keyboard,
    Block,
    Fat32,
    App,
    Shell,
    Mount,
    Tmpfs,
    Mfs,
    Ext2,
    Exfat,
    Idle,
}

/// The role of a domain, by its number; domains without a role exit at once.
pub open spec fn role_spec(domain: u64) -> Role {
    match domain {
        0 => Role::Sender,
        1 => Role::Receiver,
        2 => Role::Pager,
        3 => Role::Echo,
        4 => Role::Keyboard,
        5 => Role::Block,
        6 => Role::Fat32,
        7 => Role::App,
        8 => Role::Shell,
        9 => Role::Mount,
        10 => Role::Tmpfs,
        11 => Role::Mfs,
        12 => Role::Ext2,
        13 => Role::Exfat,
        _ => Role::Idle,
    }
}

/// The role of a domain, by its number.
pub fn role_of(domain: u64) -> (r: Role)
    ensures
        r == role_spec(domain),
{
    match domain {
        0 => Role::Sender,
        1 => Role::Receiver,
        2 => Role::Pager,
        3 => Role::Echo,
        4 => Role::Keyboard,
        5 => Role::Block,
        6 => Role::Fat32,
        7 => Role::App,
        8 => Role::Shell,
        9 => Role::Mount,
        10 => Role::Tmpfs,
        11 => Role::Mfs,
        12 => Role::Ext2,
        13 => Role::Exfat,
        _ => Role::Idle,
    }
}

/// Tag of the message that tells a receiver of a handle; the handle's index is in
/// its lowest byte.
pub const CAP_HANDLE_TAG: u64 = 0xCA00;

/// The handle that a message announces; `None` for any other message.
pub fn announced_handle(tag: u64) -> (r: Option<u64>)
    ensures
        r == (if tag / 0x100 == 0xCA {
            Some((tag % 0x100) as u64)
        } else {
            None
        }),
{
    if tag / 0x100 == CAP_HANDLE_TAG / 0x100 {
        Some(tag % 0x100)
    } else {
        None
    }
}

/// The message that announces a handle.
pub fn handle_tag(handle: u64) -> (r: u64)
    requires
        handle < 0x100,
    ensures
        r == CAP_HANDLE_TAG + handle,
{
    CAP_HANDLE_TAG + handle
}

/// The answer of the echo service: one more than the tag, round the end of the
/// range.
pub fn echo_reply(tag: u64) -> (r: u64)
    ensures
        r == (tag + 1) % 0x1_0000_0000_0000_0000,
{
    if tag == u64::MAX {
        0
    } else {
        tag + 1
    }
}

/// A page fault to be resolved.
#[derive(Clone, Copy)]
pub struct PageFaultInfo {
    pub fault_domain: u64,
    pub fault_addr: u64,
    pub error_code: u64,
}

/// The page fault that a message describes.
pub fn page_fault_of(payload: &[u8]) -> (r: Option<PageFaultInfo>)
    ensures
        r is Some <==> payload@.len() >= 24,
        r matches Some(i) ==> i == (PageFaultInfo {
            fault_domain: bytes::le64(payload@, 0),
            fault_addr: bytes::le64(payload@, 8),
            error_code: bytes::le64(payload@, 16),
        }),
{
    if payload.len() < 24 {
        return None;
    }
    Some(
        PageFaultInfo {
            fault_domain: bytes::read_u64(payload, 0),
            fault_addr: bytes::read_u64(payload, 8),
            error_code: bytes::read_u64(payload, 16),
        },
    )
}

/// The body of a message that carries `data`: cut to the body's size or filled up
/// with zeros.
pub open spec fn body(data: Seq<u8>) -> Seq<u8> {
    Seq::new(
        PAYLOAD_LEN as nat,
        |i: int|
            if i < data.len() {
                data[i]
            } else {
                0u8
            },
    )
}

/// The body of a message that carries `data`.
pub fn payload_of(data: &[u8]) -> (r: Vec<u8>)
    ensures
        r@ == body(data@),
{
    let mut out: Vec<u8> = bytes::zero_vec(PAYLOAD_LEN);
    let n: usize = if data.len() < PAYLOAD_LEN {
        data.len()
    } else {
        PAYLOAD_LEN
    };
    bytes::copy_into(&mut out, 0, data, 0, n);
    assert(out@ =~= body(data@));
    out
}

} // verus!
