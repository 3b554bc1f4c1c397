//! The TCP wire format, byte by byte, and what a SYN cookie holds.
use vstd::prelude::*;

use crate::addr::Ipv4Addr;
use crate::tcp::header::TcpHeader;
use crate::tcp::options::OptionSet;
use crate::tcp::packet::Endpoint;

verus! {

/// Which segments are accepted, and where each field stands: ports at 0 and 2, the numbers at 4 and
/// 8, the header length in words in the high half of byte 12, flags at 13, window at 14.
pub proof fn law_tcp_header_fields(seg: Seq<u8>)
    ensures
        ({
            let words = seg[12] as int / 16;
            match crate::tcp::header::parsed(seg) {
                None => seg.len() < 20 || words < 5 || 4 * words > seg.len(),
                Some(h) => {
                    &&& seg.len() >= 20 && words >= 5 && 4 * words <= seg.len()
                    &&& h.src_port == 256 * seg[0] + seg[1] && h.dst_port == 256 * seg[2] + seg[3]
                    &&& h.seq == 0x100_0000 * seg[4] + 0x1_0000 * seg[5] + 256 * seg[6] + seg[7]
                    &&& h.ack == 0x100_0000 * seg[8] + 0x1_0000 * seg[9] + 256 * seg[10] + seg[11]
                    &&& h.data_offset == 4 * words && h.flags == seg[13]
                    &&& h.window == 256 * seg[14] + seg[15]
                },
            }
        }),
{
}

/// What a packet is made of besides what a receiver reads back: a plain header of five words, no
/// fragments, TTL 64, and no urgent pointer; its length is that of its parts.
pub proof fn law_packet_bytes(
    src: Endpoint,
    dst: Endpoint,
    seq: u32,
    ack: u32,
    flags: u8,
    window: u16,
    options: Seq<u8>,
    payload: Seq<u8>,
)
    requires
        40 + options.len() + payload.len() <= 0xffff,
    ensures
        ({
            let p = crate::tcp::packet::packet_bytes(
                src,
                dst,
                seq,
                ack,
                flags,
                window,
                options,
                payload,
            );
            &&& p.len() == 40 + options.len() + payload.len()
            &&& p[0] == 0x45 && p[1] == 0 && 256 * p[2] + p[3] == p.len()
            &&& p[4] == 0 && p[5] == 0 && p[6] == 0x40 && p[7] == 0 && p[8] == 64 && p[9] == 6
            &&& p[38] == 0 && p[39] == 0
            &&& p.subrange(40, 40int + options.len()) == options
            &&& p.skip(40int + options.len()) == payload
            &&& crate::utils::internet_checksum(p.take(20)) == 0
        }),
{
    reveal(crate::tcp::packet::packet_bytes);
    let p = crate::tcp::packet::packet_bytes(src, dst, seq, ack, flags, window, options, payload);
    let total = (40 + options.len() + payload.len()) as int;
    let fields = crate::tcp::packet::ip_fields(src.0, dst.0, total);
    let header = crate::tcp::packet::ip_header(src.0, dst.0, total);
    crate::utils::law_written_checksum_verifies(fields, 10);
    assert(p.take(20) =~= header);
    assert(p.subrange(40, 40int + options.len()) =~= options);
    assert(p.skip(40int + options.len()) =~= payload);
}

/// A stray segment is answered from the place it was sent to, back to its sender, with nothing
/// attached: a bare RST at the number it acknowledges, or, if it acknowledges nothing, a RST that
/// acknowledges its data and one number each for SYN and FIN.
pub proof fn law_reset_reads_back(
    ip_src: Ipv4Addr,
    ip_dst: Ipv4Addr,
    th: TcpHeader,
    payload_len: int,
)
    requires
        payload_len >= 0,
    ensures
        ({
            let seg = crate::tcp::arrival::segment_in(
                crate::tcp::packet::rst_bytes(ip_src, ip_dst, th, payload_len),
            );
            let r = seg->0;
            let syn = if th.flags & 0x02u8 != 0 {
                1int
            } else {
                0
            };
            let fin = if th.flags & 0x01u8 != 0 {
                1int
            } else {
                0
            };
            &&& seg is Some
            &&& r.quad.remote == (ip_dst, th.dst_port) && r.quad.local == (ip_src, th.src_port)
            &&& r.payload.len() == 0 && r.opts == crate::tcp::options::no_options()
            &&& r.th.window == 0
            &&& if th.flags & 0x10u8 != 0 {
                r.th.flags == 0x04 && r.th.seq == th.ack && r.th.ack == 0
            } else {
                r.th.flags == 0x14 && r.th.seq == 0 && r.th.ack == (th.seq + payload_len + syn
                    + fin) % 0x1_0000_0000
            }
        }),
{
    let us = (ip_dst, th.dst_port);
    let peer = (ip_src, th.src_port);
    let none = Seq::<u8>::empty();
    let end = crate::seq::advance(
        th.seq,
        crate::tcp::packet::segment_len(th, payload_len),
    );
    assert(0x04u8 | 0x10u8 == 0x14u8) by (bit_vector);
    crate::tcp::arrival::law_packet_reads_back(us, peer, th.ack, 0, 0x04, 0, none, none);
    crate::tcp::arrival::law_packet_reads_back(us, peer, 0, end, 0x14, 0, none, none);
}

// ---- Options ----

/// What stands before the options does not matter to how they are read.
proof fn lemma_walk_ignores_the_past(past: Seq<u8>, opts: Seq<u8>, i: int, out: OptionSet)
    requires
        0 <= i,
    ensures
        crate::tcp::options::walked(past + opts, past.len() + i, out)
            == crate::tcp::options::walked(opts, i, out),
    decreases opts.len() - i,
{
    let all = past + opts;
    let at = past.len() + i;
    if i < opts.len() {
        assert(all[at] == opts[i]);
        if opts[i] == 1 {
            lemma_walk_ignores_the_past(past, opts, i + 1, out);
        } else if opts[i] != 0 {
            if i + 1 < opts.len() {
                assert(all[at + 1] == opts[i + 1]);
            }
            if crate::tcp::options::whole_option_at(opts, i) {
                assert(all.subrange(at + 2, at + opts[i + 1]) =~= opts.subrange(
                    i + 2,
                    i + opts[i + 1],
                ));
                lemma_walk_ignores_the_past(
                    past,
                    opts,
                    i + opts[i + 1],
                    crate::tcp::options::with_option(
                        out,
                        opts[i],
                        opts.subrange(i + 2, i + opts[i + 1]),
                    ),
                );
            }
        }
    }
}

/// Padding is skipped, and nothing behind an end marker is read.
pub proof fn law_padding_and_end(rest: Seq<u8>, out: OptionSet)
    ensures
        crate::tcp::options::walked(seq![1u8] + rest, 0, out) == crate::tcp::options::walked(
            rest,
            0,
            out,
        ),
        crate::tcp::options::walked(seq![0u8] + rest, 0, out) == out,
        crate::tcp::options::walked(Seq::empty(), 0, out) == out,
{
    lemma_walk_ignores_the_past(seq![1u8], rest, 0, out);
    assert((seq![1u8] + rest)[0] == 1);
    assert((seq![0u8] + rest)[0] == 0);
}

/// An option that is cut off, or whose length is less than its own two bytes, ends the walk.
pub proof fn law_truncated_option_ends_the_walk(opts: Seq<u8>, out: OptionSet)
    requires
        opts.len() > 0,
        opts[0] >= 2,
        opts.len() == 1 || opts[1] < 2 || opts[1] > opts.len(),
    ensures
        crate::tcp::options::walked(opts, 0, out) == out,
{
}

/// Each whole option is taken and the walk goes on behind it. MSS (2), window scale (3, cut off at
/// 14), SACK permitted (4), SACK blocks (5, at most four) and timestamps (8) are taken if their data
/// has the right length; any other option changes nothing.
pub proof fn law_options_are_taken_in_turn(
    kind: u8,
    data: Seq<u8>,
    rest: Seq<u8>,
    out: OptionSet,
)
    requires
        kind >= 2,
        data.len() <= 253,
        out.sack_blocks.len() == 4,
    ensures
        ({
            let n = data.len() as int;
            let all = seq![kind, (2 + n) as u8] + data + rest;
            let word = |i: int|
                (0x100_0000 * data[i] + 0x1_0000 * data[i + 1] + 256 * data[i + 2] + data[i
                    + 3]) as u32;
            let count = if n / 8 > 4 {
                4
            } else {
                n / 8
            };
            let taken = if kind == 2 && n == 2 {
                OptionSet { mss: Some((256 * data[0] + data[1]) as u16), ..out }
            } else if kind == 3 && n == 1 {
                OptionSet {
                    window_scale: Some(
                        if data[0] > 14 {
                            14
                        } else {
                            data[0]
                        },
                    ),
                    ..out
                }
            } else if kind == 4 && n == 0 {
                OptionSet { sack_permitted: true, ..out }
            } else if kind == 5 && n > 0 && n % 8 == 0 {
                OptionSet {
                    sack_blocks: Seq::new(count as nat, |k: int| (word(8 * k), word(8 * k + 4)))
                        + out.sack_blocks.skip(count),
                    sack_block_count: count as usize,
                    ..out
                }
            } else if kind == 8 && n == 8 {
                OptionSet { timestamps: Some((word(0), word(4))), ..out }
            } else {
                out
            };
            crate::tcp::options::walked(all, 0, out) == crate::tcp::options::walked(rest, 0, taken)
        }),
{
    let n = data.len() as int;
    let front = seq![kind, (2 + n) as u8] + data;
    let all = front + rest;
    assert(all =~= seq![kind, (2 + n) as u8] + data + rest);
    assert(all[0] == kind && all[1] == 2 + n);
    assert(all.subrange(2, 2 + n) =~= data);
    let word = |i: int|
        (0x100_0000 * data[i] + 0x1_0000 * data[i + 1] + 256 * data[i + 2] + data[i + 3]) as u32;
    let count = if n / 8 > 4 {
        4
    } else {
        n / 8
    };
    let own = crate::tcp::options::with_option(out, kind, data);
    if kind == 5 && n > 0 && n % 8 == 0 {
        let blocks = Seq::new(count as nat, |k: int| (word(8 * k), word(8 * k + 4)))
            + out.sack_blocks.skip(count);
        assert forall|k: int| 0 <= k < 4 implies own.sack_blocks[k] == blocks[k] by {
            if k < count {
                assert(crate::tcp::options::block_at(data, k) == (word(8 * k), word(8 * k + 4)));
            }
        }
        assert(own.sack_blocks =~= blocks);
    }
    lemma_walk_ignores_the_past(front, rest, 0, own);
}

// ---- SYN cookies ----

/// A hash that takes in `values` one after the other, as FNV-1a does with bytes.
pub open spec fn hashed(h: u64, values: Seq<u64>) -> u64
    decreases values.len(),
{
    if values.len() == 0 {
        h
    } else {
        hashed(
            ((h ^ values[0]) * 0x100_0000_01B3 % 0x1_0000_0000_0000_0000) as u64,
            values.drop_first(),
        )
    }
}

/// What a handshake is hashed from, in order: the peer's address and port, ours, the peer's initial
/// number, and the counter.
pub open spec fn handshake_values(
    local: Endpoint,
    remote: Endpoint,
    peer_isn: u32,
    counter: u32,
) -> Seq<u64> {
    seq![
        crate::addr::addr_number(remote.0) as u64,
        remote.1 as u64,
        crate::addr::addr_number(local.0) as u64,
        local.1 as u64,
        peer_isn as u64,
        counter as u64,
    ]
}

/// The hash of a cookie takes in the whole handshake, starting from the secret.
pub proof fn law_cookie_hashes_the_handshake(
    secret: u64,
    local: Endpoint,
    remote: Endpoint,
    peer_isn: u32,
    counter: u32,
)
    ensures
        ({
            let word = hashed(secret, handshake_values(local, remote, peer_isn, counter));
            let folded = crate::tcp::cookie::cookie_hash(secret, local, remote, peer_isn, counter);
            &&& crate::tcp::cookie::cookie_word(secret, local, remote, peer_isn, counter) == word
            &&& folded == ((word / 0x1_0000_0000) ^ (word % 0x1_0000_0000))
        }),
{
    let v = handshake_values(local, remote, peer_isn, counter);
    let a = v.drop_first();
    let b = a.drop_first();
    let c = b.drop_first();
    let d = c.drop_first();
    let e = d.drop_first();
    assert(e.drop_first() =~= Seq::<u64>::empty());
    reveal_with_fuel(hashed, 7);
    let word = crate::tcp::cookie::cookie_word(secret, local, remote, peer_isn, counter);
    assert((word ^ (word >> 32)) % 0x1_0000_0000 == ((word / 0x1_0000_0000) ^ (word
        % 0x1_0000_0000))) by (bit_vector);
}

/// A hash depends on every value: two lists that differ in one place only have different hashes from
/// the same start, and one list has different hashes from different starts. `i` is the place, or -1
/// if the starts differ.
pub proof fn law_every_value_counts(h: u64, g: u64, a: Seq<u64>, b: Seq<u64>, i: int)
    requires
        a.len() == b.len(),
        -1 <= i < a.len(),
        i < 0 ==> h != g,
        i >= 0 ==> h == g && a[i] != b[i],
        forall|j: int| 0 <= j < a.len() && j != i ==> a[j] == b[j],
    ensures
        hashed(h, a) != hashed(g, b),
    decreases a.len(),
{
    if a.len() > 0 {
        let x = h ^ a[0];
        let y = g ^ b[0];
        let (p, q) = (a[0], b[0]);
        assert(x == y && h == g ==> p == q) by (bit_vector)
            requires
                x == h ^ p,
                y == g ^ q,
        ;
        assert(x == y && p == q ==> h == g) by (bit_vector)
            requires
                x == h ^ p,
                y == g ^ q,
        ;
        let h1 = (x * 0x100_0000_01B3 % 0x1_0000_0000_0000_0000) as u64;
        let g1 = (y * 0x100_0000_01B3 % 0x1_0000_0000_0000_0000) as u64;
        lemma_unmultiplied(x as int);
        lemma_unmultiplied(y as int);
        let next = if i <= 0 {
            -1
        } else {
            i - 1
        };
        if i > 0 {
            assert(a.drop_first()[i - 1] == a[i] && b.drop_first()[i - 1] == b[i]);
        }
        assert forall|j: int| 0 <= j < a.len() - 1 && j != next implies a.drop_first()[j]
            == b.drop_first()[j] by {
            assert(a[j + 1] == b[j + 1]);
        }
        law_every_value_counts(h1, g1, a.drop_first(), b.drop_first(), next);
    }
}

/// The multiplier of a round is odd, so a round can be undone.
proof fn lemma_unmultiplied(a: int)
    requires
        0 <= a < 0x1_0000_0000_0000_0000,
    ensures
        (a * 0x100_0000_01B3 % 0x1_0000_0000_0000_0000) * 0xCE96_5057_AFF6_957B
            % 0x1_0000_0000_0000_0000 == a,
{
    let m = 0x1_0000_0000_0000_0000int;
    let p = 0x100_0000_01B3int;
    let q = 0xCE96_5057_AFF6_957Bint;
    let k = 0xCE_9650_590Fint;
    assert(p * q == 1 + k * m);
    vstd::arithmetic::div_mod::lemma_mul_mod_noop_left(a * p, q, m);
    assert(a * p * q == m * (a * k) + a) by (nonlinear_arith)
        requires
            p * q == 1 + k * m,
    ;
    vstd::arithmetic::div_mod::lemma_mod_multiples_vanish(a * k, a, m);
}

/// What a cookie holds: the low six bits of the minute counter, which of the four segment sizes, and
/// twenty-four bits of the hash of the handshake at that counter. The size is the largest of them
/// that the peer's own allows, or the smallest.
pub proof fn law_what_a_cookie_holds(
    secret: u64,
    local: Endpoint,
    remote: Endpoint,
    peer_isn: u32,
    peer_mss: u16,
    now_ms: u64,
)
    ensures
        ({
            let cookie = crate::tcp::cookie::cookie_for(
                secret,
                local,
                remote,
                peer_isn,
                peer_mss,
                now_ms,
            );
            let counter = (now_ms / 64_000) % 0x1_0000_0000;
            let size = crate::tcp::cookie::cookie_mss((cookie / 0x100_0000 % 4) as int);
            &&& cookie / 0x400_0000 == counter % 64
            &&& cookie % 0x100_0000 == crate::tcp::cookie::cookie_hash(
                secret,
                local,
                remote,
                peer_isn,
                counter as u32,
            ) % 0x100_0000
            &&& size == 536 || size == 1220 || size == 1460 || size == 8960
            &&& size == 536 || size <= peer_mss
            &&& peer_mss >= 1220 ==> size >= 1220
            &&& peer_mss >= 1460 ==> size >= 1460
            &&& peer_mss >= 8960 ==> size >= 8960
        }),
{
}

/// When a cookie is taken: if it carries the counter of this minute or of one of the two before, and
/// the hash of the handshake at that counter.
pub proof fn law_when_a_cookie_is_taken(
    secret: u64,
    local: Endpoint,
    remote: Endpoint,
    peer_isn: u32,
    cookie: u32,
    now_ms: u64,
)
    ensures
        crate::tcp::cookie::cookie_valid(secret, local, remote, peer_isn, cookie, now_ms)
            <==> exists|back: int|
            0 <= back <= 2 && {
                let counter = #[trigger] minute(now_ms, back);
                &&& cookie / 0x400_0000 == counter % 64
                &&& cookie % 0x100_0000 == crate::tcp::cookie::cookie_hash(
                    secret,
                    local,
                    remote,
                    peer_isn,
                    counter,
                ) % 0x100_0000
            },
{
    let now = crate::tcp::cookie::cookie_counter(now_ms);
    assert(minute(now_ms, 0) == now);
    assert(minute(now_ms, 1) == now.wrapping_sub(1));
    assert(minute(now_ms, 2) == now.wrapping_sub(2));
}

/// The counter `back` steps of 64 seconds before `now_ms`.
pub open spec fn minute(now_ms: u64, back: int) -> u32 {
    ((now_ms / 64_000 - back) % 0x1_0000_0000) as u32
}

/// The SYN-ACK of a cookie handshake goes back to the sender of the SYN, numbered with the cookie,
/// acknowledges the SYN, and offers our segment size and nothing else.
pub proof fn law_cookie_synack_reads_back(
    ip_src: Ipv4Addr,
    ip_dst: Ipv4Addr,
    th: TcpHeader,
    cookie: u32,
)
    ensures
        ({
            let seg = crate::tcp::arrival::segment_in(
                crate::tcp::cookie::cookie_synack(ip_src, ip_dst, th, cookie),
            );
            let r = seg->0;
            &&& seg is Some
            &&& r.quad.remote == (ip_dst, th.dst_port) && r.quad.local == (ip_src, th.src_port)
            &&& r.th.seq == cookie && r.th.ack == (th.seq + 1) % 0x1_0000_0000
            &&& r.th.flags == 0x12 && r.th.window == 1024 && r.payload.len() == 0
            &&& r.opts == (OptionSet { mss: Some(1460u16), ..crate::tcp::options::no_options() })
        }),
{
    let opts = crate::tcp::options::mss_bytes(1460);
    let none = Seq::<u8>::empty();
    assert(0x02u8 | 0x10u8 == 0x12u8) by (bit_vector);
    crate::tcp::arrival::law_packet_reads_back(
        (ip_dst, th.dst_port),
        (ip_src, th.src_port),
        cookie,
        th.seq.wrapping_add(1),
        0x12,
        1024,
        opts,
        none,
    );
    let size = seq![5u8, 180u8];
    assert(opts =~= seq![2u8, 4u8] + size + none);
    law_options_are_taken_in_turn(2, size, none, crate::tcp::options::no_options());
    let taken = OptionSet { mss: Some(1460u16), ..crate::tcp::options::no_options() };
    law_padding_and_end(none, taken);
}

/// `name` and a space, if the flag is set.
pub open spec fn named_flag(flags: u8, bit: u8, name: Seq<char>) -> Seq<char> {
    if flags & bit != 0 {
        name.push(' ')
    } else {
        Seq::empty()
    }
}

/// The list of flags is the names of those that are set, in a fixed order, with one space between
/// each and the next and none at the ends; it is empty if none is set.
pub proof fn law_flag_list(flags: u8)
    ensures
        ({
            let list = crate::tcp::header::flag_names(flags);
            let names = named_flag(flags, 0x02, "SYN"@) + named_flag(flags, 0x10, "ACK"@)
                + named_flag(flags, 0x01, "FIN"@) + named_flag(flags, 0x04, "RST"@) + named_flag(
                flags,
                0x08,
                "PSH"@,
            ) + named_flag(flags, 0x20, "URG"@);
            if list.len() == 0 {
                names.len() == 0
            } else {
                list.push(' ') == names
            }
        }),
{
    reveal_strlit("SYN");
    reveal_strlit("ACK");
    reveal_strlit("FIN");
    reveal_strlit("RST");
    reveal_strlit("PSH");
    reveal_strlit("URG");
    let t0 = Seq::<char>::empty();
    let t1 = crate::tcp::header::named(t0, flags, 0x02, "SYN"@);
    let t2 = crate::tcp::header::named(t1, flags, 0x10, "ACK"@);
    let t3 = crate::tcp::header::named(t2, flags, 0x01, "FIN"@);
    let t4 = crate::tcp::header::named(t3, flags, 0x04, "RST"@);
    let t5 = crate::tcp::header::named(t4, flags, 0x08, "PSH"@);
    lemma_name_added(t0, flags, 0x02, "SYN"@);
    lemma_name_added(t1, flags, 0x10, "ACK"@);
    lemma_name_added(t2, flags, 0x01, "FIN"@);
    lemma_name_added(t3, flags, 0x04, "RST"@);
    lemma_name_added(t4, flags, 0x08, "PSH"@);
    lemma_name_added(t5, flags, 0x20, "URG"@);
    assert(t0 + named_flag(flags, 0x02, "SYN"@) =~= named_flag(flags, 0x02, "SYN"@));
}

/// `text` and a space, if there is any text.
pub open spec fn spaced(text: Seq<char>) -> Seq<char> {
    if text.len() == 0 {
        text
    } else {
        text.push(' ')
    }
}

proof fn lemma_name_added(text: Seq<char>, flags: u8, bit: u8, name: Seq<char>)
    requires
        name.len() > 0,
    ensures
        spaced(crate::tcp::header::named(text, flags, bit, name)) == spaced(text) + named_flag(
            flags,
            bit,
            name,
        ),
{
    assert(spaced(crate::tcp::header::named(text, flags, bit, name)) =~= spaced(text) + named_flag(
        flags,
        bit,
        name,
    ));
}

} // verus!
