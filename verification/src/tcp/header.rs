//! The fixed part of a TCP header, the states of a connection, and what identifies one.
use vstd::prelude::*;

use crate::addr::Ipv4Addr;
use crate::utils::{read_be16, read_be32};

verus! {

// Control-flag bit masks (RFC 9293 section 3.1).
pub const FIN: u8 = 0x01;

pub const SYN: u8 = 0x02;

pub const RST: u8 = 0x04;

pub const PSH: u8 = 0x08;

pub const ACK: u8 = 0x10;

pub const URG: u8 = 0x20;

/// A connection is identified by both endpoints: `remote` is the peer, `local` is us.
#[derive(Debug, Clone, Copy, PartialEq, Eq, Hash)]
pub struct Quad {
    pub remote: (Ipv4Addr, u16),
    pub local: (Ipv4Addr, u16),
}

impl Quad {
    /// Do both name the same connection?
    pub fn same(&self, other: &Quad) -> (r: bool)
        ensures
            r == (*self == *other),
    {
        self.remote.0 == other.remote.0 && self.remote.1 == other.remote.1 && self.local.0
            == other.local.0 && self.local.1 == other.local.1
    }
}

/// The states of a connection.
#[derive(Debug, Clone, Copy, PartialEq, Eq, Structural)]
pub enum State {
    /// Active open: we sent a SYN and await the peer's SYN-ACK.
    SynSent,
    /// Passive open: we answered a SYN with a SYN-ACK and await the peer's ACK.
    SynRcvd,
    Established,
    /// Passive close: the peer sent its FIN. Our send side stays open until `close`.
    CloseWait,
    /// Passive close: we sent our FIN too and await its ACK.
    LastAck,
    /// Active close: we sent our FIN and await its ACK or the peer's FIN.
    FinWait1,
    /// Active close: our FIN was acknowledged; await the peer's FIN.
    FinWait2,
    /// Simultaneous close: both sent a FIN; await the ACK of ours.
    Closing,
    /// Active close complete; linger to absorb retransmitted FINs.
    TimeWait,
    /// Fully closed.
    Closed,
}

/// A parsed TCP header: its fixed 20 bytes. Options lie between those and `data_offset`.
#[derive(Debug, Clone, Copy, PartialEq, Eq, Structural)]
pub struct TcpHeader {
    pub src_port: u16,
    pub dst_port: u16,
    pub seq: u32,
    pub ack: u32,
    /// Header length in bytes; the segment's data begins here.
    pub data_offset: usize,
    pub flags: u8,
    pub window: u16,
}

/// The header at the front of `seg`: none if the segment is too short, or if the data offset is
/// below the fixed header or beyond the segment.
pub open spec fn parsed(seg: Seq<u8>) -> Option<TcpHeader> {
    let data_offset = (seg[12] / 16) as usize * 4;
    if seg.len() < 20 || data_offset < 20 || data_offset > seg.len() {
        None
    } else {
        Some(
            TcpHeader {
                src_port: crate::utils::be16_at(seg, 0),
                dst_port: crate::utils::be16_at(seg, 2),
                seq: crate::utils::be32_at(seg, 4),
                ack: crate::utils::be32_at(seg, 8),
                data_offset: data_offset as usize,
                flags: seg[13],
                window: crate::utils::be16_at(seg, 14),
            },
        )
    }
}

/// Parse a TCP header, rejecting one whose length field cannot be trusted.
pub fn parse(seg: &[u8]) -> (r: Option<TcpHeader>)
    ensures
        r == parsed(seg@),
{
    if seg.len() < 20 {
        return None;
    }
    let data_offset: usize = (seg[12] / 16) as usize * 4;
    if data_offset < 20 || data_offset > seg.len() {
        return None;
    }
    Some(
        TcpHeader {
            src_port: read_be16(seg, 0),
            dst_port: read_be16(seg, 2),
            seq: read_be32(seg, 4),
            ack: read_be32(seg, 8),
            data_offset,
            flags: seg[13],
            window: read_be16(seg, 14),
        },
    )
}

/// `text` with `name` appended, separated by a space, if the flag is set.
pub open spec fn named(text: Seq<char>, flags: u8, bit: u8, name: Seq<char>) -> Seq<char> {
    if flags & bit == 0 {
        text
    } else if text.len() == 0 {
        name
    } else {
        text.push(' ') + name
    }
}

/// The names of the flags that are set, separated by single spaces.
pub open spec fn flag_names(flags: u8) -> Seq<char> {
    let t = named(Seq::empty(), flags, SYN, "SYN"@);
    let t = named(t, flags, ACK, "ACK"@);
    let t = named(t, flags, FIN, "FIN"@);
    let t = named(t, flags, RST, "RST"@);
    let t = named(t, flags, PSH, "PSH"@);
    named(t, flags, URG, "URG"@)
}

fn append_name(text: &mut String, flags: u8, bit: u8, name: &str)
    ensures
        final(text)@ == named(old(text)@, flags, bit, name@),
{
    if flags & bit != 0 {
        if !text.as_str().is_empty() {
            text.append(" ");
            proof {
                reveal_strlit(" ");
            }
            assert(text@ =~= old(text)@.push(' '));
        }
        text.append(name);
        assert(text@ =~= named(old(text)@, flags, bit, name@));
    }
}

/// Human-readable flag list, such as "SYN ACK".
pub fn flags_str(flags: u8) -> (s: String)
    ensures
        s@ == flag_names(flags),
{
    let mut s: String = String::new();
    append_name(&mut s, flags, SYN, "SYN");
    append_name(&mut s, flags, ACK, "ACK");
    append_name(&mut s, flags, FIN, "FIN");
    append_name(&mut s, flags, RST, "RST");
    append_name(&mut s, flags, PSH, "PSH");
    append_name(&mut s, flags, URG, "URG");
    s
}

} // verus!
