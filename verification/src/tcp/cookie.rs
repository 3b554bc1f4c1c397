//! SYN cookies (RFC 4987): under a SYN flood the handshake is encoded into the initial sequence
//! number of the SYN-ACK, and no connection state exists until a valid cookie comes back.
//!
//! Layout of the 32 bits: a slow counter (6) that bounds a cookie's life, an index into a table of
//! segment sizes (2), and a keyed hash (24) of the endpoints and the peer's sequence number.
use vstd::prelude::*;

use crate::addr::Ipv4Addr;
use crate::tcp::header::{TcpHeader, ACK, SYN};
use crate::tcp::options::{push_mss, OUR_MSS};
use crate::tcp::packet::{build_packet, Endpoint};

verus! {

/// The counter advances about once a minute.
pub const COOKIE_TICK_MS: u64 = 64_000;

/// The multiplier of the hash: the 64-bit FNV prime.
pub const COOKIE_PRIME: u64 = 0x0000_0100_0000_01B3;

/// The segment sizes a cookie can carry.
pub open spec fn cookie_mss(index: int) -> u16 {
    if index == 0 {
        536
    } else if index == 1 {
        1220
    } else if index == 2 {
        1460
    } else {
        8960
    }
}

/// The index of the largest size not above `mss`, or 0 if all are above it.
pub open spec fn cookie_mss_index(mss: u16) -> int {
    if mss >= 8960 {
        3
    } else if mss >= 1460 {
        2
    } else if mss >= 1220 {
        1
    } else {
        0
    }
}

/// One round of the hash.
pub open spec fn mixed(h: u64, v: u64) -> u64 {
    (h ^ v).wrapping_mul(COOKIE_PRIME)
}

/// The keyed hash of a handshake at counter `counter`. It is not cryptographic.
pub open spec fn cookie_word(
    secret: u64,
    local: Endpoint,
    remote: Endpoint,
    peer_isn: u32,
    counter: u32,
) -> u64 {
    let h = mixed(secret, crate::addr::addr_number(remote.0) as u64);
    let h = mixed(h, remote.1 as u64);
    let h = mixed(h, crate::addr::addr_number(local.0) as u64);
    let h = mixed(h, local.1 as u64);
    let h = mixed(h, peer_isn as u64);
    mixed(h, counter as u64)
}

/// That hash folded into 32 bits.
pub open spec fn cookie_hash(
    secret: u64,
    local: Endpoint,
    remote: Endpoint,
    peer_isn: u32,
    counter: u32,
) -> int {
    let h = cookie_word(secret, local, remote, peer_isn, counter);
    (h ^ (h >> 32)) as int % 0x1_0000_0000
}

/// The counter at `now_ms`.
pub open spec fn cookie_counter(now_ms: u64) -> u32 {
    (now_ms / COOKIE_TICK_MS % 0x1_0000_0000) as u32
}

/// The three parts of a cookie put together.
pub open spec fn cookie_of(counter: u32, index: int, hash: int) -> u32 {
    (counter % 64 * 0x400_0000 + index * 0x100_0000 + hash % 0x100_0000) as u32
}

/// The cookie for a handshake.
pub open spec fn cookie_for(
    secret: u64,
    local: Endpoint,
    remote: Endpoint,
    peer_isn: u32,
    peer_mss: u16,
    now_ms: u64,
) -> u32 {
    let counter = cookie_counter(now_ms);
    cookie_of(
        counter,
        cookie_mss_index(peer_mss),
        cookie_hash(secret, local, remote, peer_isn, counter),
    )
}

/// `cookie` is the one that this handshake got at counter `counter`, with some segment size.
pub open spec fn cookie_matches(
    secret: u64,
    local: Endpoint,
    remote: Endpoint,
    peer_isn: u32,
    cookie: u32,
    counter: u32,
) -> bool {
    &&& cookie / 0x400_0000 == counter % 64
    &&& cookie % 0x100_0000 == cookie_hash(secret, local, remote, peer_isn, counter) % 0x100_0000
}

/// `cookie` belongs to this handshake and is at most two ticks old.
pub open spec fn cookie_valid(
    secret: u64,
    local: Endpoint,
    remote: Endpoint,
    peer_isn: u32,
    cookie: u32,
    now_ms: u64,
) -> bool {
    let now = cookie_counter(now_ms);
    ||| cookie_matches(secret, local, remote, peer_isn, cookie, now)
    ||| cookie_matches(secret, local, remote, peer_isn, cookie, now.wrapping_sub(1))
    ||| cookie_matches(secret, local, remote, peer_isn, cookie, now.wrapping_sub(2))
}

fn cookie_mix(secret: u64, local: Endpoint, remote: Endpoint, peer_isn: u32, counter: u32) -> (r:
    u32)
    ensures
        r == cookie_hash(secret, local, remote, peer_isn, counter),
{
    let mut h: u64 = (secret ^ remote.0.to_bits() as u64).wrapping_mul(COOKIE_PRIME);
    h = (h ^ remote.1 as u64).wrapping_mul(COOKIE_PRIME);
    h = (h ^ local.0.to_bits() as u64).wrapping_mul(COOKIE_PRIME);
    h = (h ^ local.1 as u64).wrapping_mul(COOKIE_PRIME);
    h = (h ^ peer_isn as u64).wrapping_mul(COOKIE_PRIME);
    h = (h ^ counter as u64).wrapping_mul(COOKIE_PRIME);
    ((h ^ (h >> 32)) % 0x1_0000_0000) as u32
}

/// Compute a SYN cookie to use as the initial sequence number of our SYN-ACK, for a SYN that
/// carried `peer_isn` and advertised `peer_mss`. Nothing is stored: the cookie is the state.
pub fn syn_cookie(
    secret: u64,
    local: (Ipv4Addr, u16),
    remote: (Ipv4Addr, u16),
    peer_isn: u32,
    peer_mss: u16,
    now_ms: u64,
) -> (cookie: u32)
    ensures
        cookie == cookie_for(secret, local, remote, peer_isn, peer_mss, now_ms),
{
    let counter: u32 = (now_ms / COOKIE_TICK_MS % 0x1_0000_0000) as u32;
    let index: u32 = if peer_mss >= 8960 {
        3
    } else if peer_mss >= 1460 {
        2
    } else if peer_mss >= 1220 {
        1
    } else {
        0
    };
    let hash: u32 = cookie_mix(secret, local, remote, peer_isn, counter);
    counter % 64 * 0x400_0000 + index * 0x100_0000 + hash % 0x100_0000
}

/// Validate a returned cookie (the final ACK's number less one). Gives the encoded segment size if
/// the cookie is authentic for this handshake and recent, else `None`: a stray ACK, or a forged or
/// expired cookie.
pub fn check_syn_cookie(
    secret: u64,
    local: (Ipv4Addr, u16),
    remote: (Ipv4Addr, u16),
    peer_isn: u32,
    cookie: u32,
    now_ms: u64,
) -> (mss: Option<u16>)
    ensures
        mss == (if cookie_valid(secret, local, remote, peer_isn, cookie, now_ms) {
            Some(cookie_mss((cookie / 0x100_0000 % 4) as int))
        } else {
            None
        }),
{
    let now: u32 = (now_ms / COOKIE_TICK_MS % 0x1_0000_0000) as u32;
    let index: u32 = cookie / 0x100_0000 % 4;
    let mut back: u32 = 0;
    while back <= 2
        invariant
            back <= 3,
            now == cookie_counter(now_ms),
            index == cookie / 0x100_0000 % 4,
            forall|b: u32|
                b < back ==> !cookie_matches(
                    secret,
                    local,
                    remote,
                    peer_isn,
                    cookie,
                    #[trigger] now.wrapping_sub(b),
                ),
        decreases 3 - back,
    {
        let c: u32 = now.wrapping_sub(back);
        if cookie / 0x400_0000 == c % 64 && cookie % 0x100_0000 == cookie_mix(
            secret,
            local,
            remote,
            peer_isn,
            c,
        ) % 0x100_0000 {
            let mss: u16 = if index == 0 {
                536
            } else if index == 1 {
                1220
            } else if index == 2 {
                1460
            } else {
                8960
            };
            return Some(mss);
        }
        back += 1;
    }
    assert(now.wrapping_sub(0) == now);
    None
}

/// The SYN-ACK of a cookie handshake: it carries only our MSS option.
pub open spec fn cookie_synack(
    ip_src: Ipv4Addr,
    ip_dst: Ipv4Addr,
    th: TcpHeader,
    cookie: u32,
) -> Seq<u8> {
    crate::tcp::packet::packet_bytes(
        (ip_dst, th.dst_port),
        (ip_src, th.src_port),
        cookie,
        th.seq.wrapping_add(1),
        SYN | ACK,
        1024,
        crate::tcp::options::mss_bytes(OUR_MSS),
        Seq::empty(),
    )
}

/// Build the SYN-ACK for a cookie handshake: its sequence number is the cookie.
pub fn build_syn_cookie_synack(
    ip_src: Ipv4Addr,
    ip_dst: Ipv4Addr,
    th: &TcpHeader,
    cookie: u32,
) -> (packet: Vec<u8>)
    ensures
        packet@ == cookie_synack(ip_src, ip_dst, *th, cookie),
{
    let mut opts: Vec<u8> = Vec::new();
    push_mss(&mut opts, OUR_MSS);
    assert(opts@ =~= crate::tcp::options::mss_bytes(OUR_MSS));
    let none: [u8; 0] = [];
    assert(none@ =~= Seq::<u8>::empty());
    build_packet(
        (ip_dst, th.dst_port),
        (ip_src, th.src_port),
        cookie,
        th.seq.wrapping_add(1),
        SYN | ACK,
        1024,
        opts.as_slice(),
        none.as_slice(),
    )
}

/// A cookie round trip: a cookie presented for the same handshake, in the same tick or one of the
/// next two, is accepted and gives back the table's size for the advertised one.
pub proof fn law_cookie_round_trip(
    secret: u64,
    local: Endpoint,
    remote: Endpoint,
    peer_isn: u32,
    peer_mss: u16,
    issued_ms: u64,
    now_ms: u64,
)
    requires
        0 <= now_ms / COOKIE_TICK_MS - issued_ms / COOKIE_TICK_MS <= 2,
    ensures
        ({
            let cookie = cookie_for(secret, local, remote, peer_isn, peer_mss, issued_ms);
            &&& cookie_valid(secret, local, remote, peer_isn, cookie, now_ms)
            &&& cookie_mss((cookie / 0x100_0000 % 4) as int) == cookie_mss(
                cookie_mss_index(peer_mss),
            )
        }),
{
    let counter = cookie_counter(issued_ms);
    let now = cookie_counter(now_ms);
    let cookie = cookie_for(secret, local, remote, peer_isn, peer_mss, issued_ms);
    let back = now_ms / COOKIE_TICK_MS - issued_ms / COOKIE_TICK_MS;
    assert(now == counter || now.wrapping_sub(1) == counter || now.wrapping_sub(2) == counter);
    assert(cookie_matches(secret, local, remote, peer_isn, cookie, counter));
}

/// Cookies expire: three ticks after it was issued, and until the counter's six bits come round
/// again, a cookie is rejected, whatever it is presented for.
pub proof fn law_cookies_expire(
    secret: u64,
    local: Endpoint,
    remote: Endpoint,
    peer_isn: u32,
    peer_mss: u16,
    issued_ms: u64,
    other_secret: u64,
    other_local: Endpoint,
    other_remote: Endpoint,
    other_isn: u32,
    now_ms: u64,
)
    requires
        3 <= now_ms / COOKIE_TICK_MS - issued_ms / COOKIE_TICK_MS <= 63,
    ensures
        !cookie_valid(
            other_secret,
            other_local,
            other_remote,
            other_isn,
            cookie_for(secret, local, remote, peer_isn, peer_mss, issued_ms),
            now_ms,
        ),
{
    let counter = cookie_counter(issued_ms);
    let now = cookie_counter(now_ms);
    let cookie = cookie_for(secret, local, remote, peer_isn, peer_mss, issued_ms);
    assert(cookie / 0x400_0000 == counter % 64);
    lemma_tick_bits(issued_ms / COOKIE_TICK_MS, 0);
    lemma_tick_bits(now_ms / COOKIE_TICK_MS, 0);
    lemma_tick_bits(now_ms / COOKIE_TICK_MS, 1);
    lemma_tick_bits(now_ms / COOKIE_TICK_MS, 2);
    lemma_ticks_differ(issued_ms / COOKIE_TICK_MS, now_ms / COOKIE_TICK_MS, 0);
    lemma_ticks_differ(issued_ms / COOKIE_TICK_MS, now_ms / COOKIE_TICK_MS, 1);
    lemma_ticks_differ(issued_ms / COOKIE_TICK_MS, now_ms / COOKIE_TICK_MS, 2);
}

/// The low six bits of a counter, taken back by `back` ticks.
proof fn lemma_tick_bits(tick: u64, back: u32)
    ensures
        ((tick % 0x1_0000_0000) as u32).wrapping_sub(back) % 64 == (tick - back) % 64,
{
}

/// Ticks less than 64 apart have different low six bits.
proof fn lemma_ticks_differ(issued: u64, now: u64, back: int)
    requires
        3 <= now - issued <= 63,
        0 <= back <= 2,
    ensures
        (now - back) % 64 != issued as int % 64,
{
}

/// A cookie never promises the peer more than it advertised, down to the smallest size it can
/// carry.
pub proof fn law_cookie_mss_is_not_above_advertised(peer_mss: u16)
    ensures
        peer_mss >= 536 ==> cookie_mss(cookie_mss_index(peer_mss)) <= peer_mss,
        peer_mss < 536 ==> cookie_mss(cookie_mss_index(peer_mss)) == 536,
{
}

} // verus!
