//! The TCP connection, its retransmission queue, options and cookies.
use tcp_stack::addr::Ipv4Addr;
use tcp_stack::congestion::MSS;
use tcp_stack::tcp::arrival::parse_datagram;
use tcp_stack::tcp::{
    build_rst, build_syn_cookie_synack, check_syn_cookie, flags_str, parse, parse_options,
    syn_cookie, tcp_checksum, Connection, RetxQueue, State,
    TcpHeader, TcpOptions, ACK, CHALLENGE_ACK_MAX, COOKIE_TICK_MS, DEFAULT_SEND_MSS, FIN,
    KEEPALIVE_IDLE_MS, KEEPALIVE_INTVL_MS, MAX_WSCALE, OPT_END, OPT_MSS, OPT_NOP, OPT_SACK,
    OPT_SACK_PERM, OPT_TS, OPT_WS, OUR_MSS, OUR_RCV_WSCALE, PSH, RST, SYN,
};
use tcp_stack::{ip, utils};

const ME: Ipv4Addr = Ipv4Addr { a: 192, b: 168, c: 0, d: 2 };
const PEER: Ipv4Addr = Ipv4Addr { a: 192, b: 168, c: 0, d: 1 };

/// A client SYN: sport 0x1234, dport 80, seq 100, no ack, flags SYN, window 0xffff.
fn syn_segment() -> [u8; 20] {
    [
        0x12, 0x34, 0x00, 0x50, // ports 4660 → 80
        0x00, 0x00, 0x00, 0x64, // seq = 100
        0x00, 0x00, 0x00, 0x00, // ack = 0
        0x50, SYN, 0xff, 0xff, // data offset 5, flags SYN, window 0xffff
        0x00, 0x00, 0x00, 0x00, // checksum, urgent
    ]
}

#[test]
fn parses_syn() {
    let th = parse(&syn_segment()).unwrap();
    assert_eq!(th.src_port, 0x1234);
    assert_eq!(th.dst_port, 80);
    assert_eq!(th.seq, 100);
    assert_eq!(th.data_offset, 20);
    assert_eq!(th.flags, SYN);
}

#[test]
fn rejects_bad_data_offset() {
    let mut small = syn_segment();
    small[12] = 0x40; // 4 words = 16 bytes < 20-byte minimum → reject
    assert!(parse(&small).is_none());
    let mut big = syn_segment();
    big[12] = 0xf0; // 15 words = 60 bytes, more than the 20-byte segment → reject
    assert!(parse(&big).is_none());
}

#[test]
fn accept_produces_valid_synack() {
    let th = parse(&syn_segment()).unwrap();
    let (conn, synack) = Connection::accept_with_iss(PEER, ME, &th, 0).expect("a SYN-ACK");

    assert_eq!(conn.state(), State::SynRcvd);
    assert_eq!(synack.len(), 44); // 20 IP + 24 TCP (20 fixed + 4-byte MSS option), no payload

    // IP layer: addresses swapped, valid header checksum.
    let iph = ip::parse(&synack).unwrap();
    assert_eq!(iph.src, ME);
    assert_eq!(iph.dst, PEER);
    assert_eq!(iph.protocol, 6);
    assert_eq!(utils::checksum(&synack[..20]), 0, "IP checksum invalid");

    // TCP layer: SYN|ACK, our seq = ISS (0), ack = client_seq + 1 = 101, data offset 24 (options).
    let th2 = parse(&synack[20..]).unwrap();
    assert_eq!(th2.flags, SYN | ACK);
    assert_eq!(th2.seq, 0); // ISS
    assert_eq!(th2.ack, 101); // 100 + 1
    assert_eq!(th2.src_port, 80);
    assert_eq!(th2.dst_port, 0x1234);
    assert_eq!(th2.data_offset, 24); // 20-byte fixed header + 4-byte MSS option

    // The SYN-ACK advertises OUR receive MSS.
    let emitted = parse_options(&synack[20 + 20..20 + th2.data_offset]);
    assert_eq!(emitted.mss, Some(OUR_MSS));

    // TCP checksum must verify to 0 (includes the pseudo-header AND the option bytes).
    assert_eq!(tcp_checksum(ME, PEER, &synack[20..]), 0, "TCP checksum invalid");
}

#[test]
fn final_ack_reaches_established() {
    let th = parse(&syn_segment()).unwrap();
    let (mut conn, _synack) = Connection::accept_with_iss(PEER, ME, &th, 0).unwrap();

    // Client's final ACK: seq 101, ack 1 (acks our ISS+1), flags ACK.
    let ack = TcpHeader {
        src_port: 0x1234,
        dst_port: 80,
        seq: 101,
        ack: 1, // our send.nxt (iss 0 + 1)
        data_offset: 20,
        flags: ACK,
        window: 0xffff,
    };
    assert!(conn.on_packet(&ack, &[]).is_none());
    assert_eq!(conn.state(), State::Established);
}

#[test]
fn established_delivers_data_then_app_echoes() {
    // Establish the connection first.
    let th = parse(&syn_segment()).unwrap();
    let (mut conn, _synack) = Connection::accept_with_iss(PEER, ME, &th, 0).unwrap();
    let handshake_ack = TcpHeader {
        src_port: 0x1234, dst_port: 80, seq: 101, ack: 1,
        data_offset: 20, flags: ACK, window: 0xffff,
    };
    conn.on_packet(&handshake_ack, &[]);
    assert_eq!(conn.state(), State::Established);

    // Client sends 2 bytes "hi" in-order at seq 101. We reply with a bare ACK and deliver the
    // bytes to the application's receive buffer (no inline echo).
    let data = TcpHeader {
        src_port: 0x1234, dst_port: 80, seq: 101, ack: 1,
        data_offset: 20, flags: PSH | ACK, window: 0xffff,
    };
    let ackseg = conn.on_packet(&data, b"hi").expect("an ACK");
    assert_eq!(conn.rcv_nxt(), 103); // 101 + 2 received
    let ah = parse(&ackseg[20..]).unwrap();
    assert_eq!(ah.flags, ACK);
    assert_eq!(ah.ack, 103);
    assert_eq!(ackseg.len(), 40); // header only — no payload
    assert_eq!(conn.take_received(), b"hi"); // delivered to the application

    // The echo application writes the bytes back; poll_transmit puts them on the wire.
    conn.write(b"hi");
    let segs = conn.poll_transmit(0);
    assert_eq!(segs.len(), 1);
    let echo = &segs[0];
    assert_eq!(conn.snd_nxt(), 3); // 1 + 2 sent
    let iph = ip::parse(echo).unwrap();
    assert_eq!(iph.src, ME);
    assert_eq!(iph.dst, PEER);
    assert_eq!(utils::checksum(&echo[..20]), 0, "IP checksum invalid");
    let eth = parse(&echo[20..]).unwrap();
    assert_eq!(eth.flags, PSH | ACK);
    assert_eq!(eth.seq, 1); // our send position before the echo
    assert_eq!(eth.ack, 103); // acknowledges the 2 bytes we received
    assert_eq!(&echo[20 + eth.data_offset..], b"hi"); // echoed payload
    assert_eq!(tcp_checksum(ME, PEER, &echo[20..]), 0, "TCP checksum invalid");
}

#[test]
fn active_close_to_timewait_then_closed() {
    let th = parse(&syn_segment()).unwrap();
    let (mut conn, _s) = Connection::accept_with_iss(PEER, ME, &th, 0).unwrap();
    let hs_ack = TcpHeader {
        src_port: 0x1234, dst_port: 80, seq: 101, ack: 1,
        data_offset: 20, flags: ACK, window: 0xffff,
    };
    conn.on_packet_at(&hs_ack, &[], 0);
    assert_eq!(conn.state(), State::Established);

    // We actively close → our FIN, FIN_WAIT_1.
    let fin = conn.close(0).expect("our FIN");
    assert_eq!(conn.state(), State::FinWait1);
    let finh = parse(&fin[20..]).unwrap();
    assert_eq!(finh.flags, FIN | ACK);
    assert_eq!(finh.seq, 1); // SND.NXT before its +1
    assert_eq!(tcp_checksum(ME, PEER, &fin[20..]), 0);

    // Peer ACKs our FIN (SND.NXT is now 2) → FIN_WAIT_2.
    let ack = TcpHeader {
        src_port: 0x1234, dst_port: 80, seq: 101, ack: 2,
        data_offset: 20, flags: ACK, window: 0xffff,
    };
    assert!(conn.on_packet_at(&ack, &[], 0).is_none());
    assert_eq!(conn.state(), State::FinWait2);

    // Peer sends its FIN → we ACK it and enter TIME_WAIT.
    let peer_fin = TcpHeader {
        src_port: 0x1234, dst_port: 80, seq: 101, ack: 2,
        data_offset: 20, flags: FIN | ACK, window: 0xffff,
    };
    let our_ack = conn.on_packet_at(&peer_fin, &[], 1000).expect("ACK of their FIN");
    assert_eq!(conn.state(), State::TimeWait);
    let ah = parse(&our_ack[20..]).unwrap();
    assert_eq!(ah.flags, ACK);
    assert_eq!(ah.ack, 102); // their FIN at seq 101, +1

    // TIME_WAIT expires after 2·MSL → CLOSED.
    conn.on_tick(1000); // before timeout: still TIME_WAIT
    assert_eq!(conn.state(), State::TimeWait);
    conn.on_tick(1000 + 240_000); // after 2·MSL
    assert_eq!(conn.state(), State::Closed);
}

#[test]
fn passive_close_via_fin() {
    let th = parse(&syn_segment()).unwrap();
    let (mut conn, _s) = Connection::accept_with_iss(PEER, ME, &th, 0).unwrap();
    let hs_ack = TcpHeader {
        src_port: 0x1234, dst_port: 80, seq: 101, ack: 1,
        data_offset: 20, flags: ACK, window: 0xffff,
    };
    conn.on_packet(&hs_ack, &[]);
    assert_eq!(conn.state(), State::Established);

    // Client closes: FIN at seq 101. Half-close: we ACK with a *pure ACK* and enter CLOSE_WAIT; our send side stays open.
    let fin = TcpHeader {
        src_port: 0x1234, dst_port: 80, seq: 101, ack: 1,
        data_offset: 20, flags: FIN | ACK, window: 0xffff,
    };
    let ack = conn.on_packet(&fin, &[]).expect("a pure ACK of their FIN");
    assert_eq!(conn.state(), State::CloseWait);
    assert!(conn.peer_closed()); // the application now sees EOF

    let t = parse(&ack[20..]).unwrap();
    assert_eq!(t.flags, ACK); // a bare ACK — no FIN yet
    assert_eq!(t.seq, 1); // our send position, unconsumed
    assert_eq!(t.ack, 102); // acknowledges their FIN (101 + 1)
    assert_eq!(tcp_checksum(ME, PEER, &ack[20..]), 0, "TCP checksum invalid");

    // The application has nothing more to send, so it closes its half → our FIN, LAST_ACK.
    let our_fin = conn.close(0).expect("our FIN");
    assert_eq!(conn.state(), State::LastAck);
    let f = parse(&our_fin[20..]).unwrap();
    assert_eq!(f.flags, FIN | ACK);
    assert_eq!(f.seq, 1); // our FIN at SND.NXT
    assert_eq!(f.ack, 102);

    // Client ACKs our FIN → fully closed.
    let last = TcpHeader {
        src_port: 0x1234, dst_port: 80, seq: 102, ack: 2,
        data_offset: 20, flags: ACK, window: 0xffff,
    };
    assert!(conn.on_packet(&last, &[]).is_none());
    assert_eq!(conn.state(), State::Closed);
}

#[test]
fn ignores_non_syn_open() {
    let mut seg = syn_segment();
    seg[13] = ACK; // an ACK to a closed connection is not a valid open
    let th = parse(&seg).unwrap();
    assert!(Connection::accept(PEER, ME, &th, &TcpOptions::default(), 0).is_none());
}

#[test]
fn rst_for_stray_ack() {
    // A stray ACK to a closed port: reset with seq = SEG.ACK, no ACK flag.
    let ack = TcpHeader {
        src_port: 0x1234, dst_port: 80, seq: 100, ack: 500,
        data_offset: 20, flags: ACK, window: 0xffff,
    };
    let rst = build_rst(PEER, ME, &ack, 0);

    let iph = ip::parse(&rst).unwrap();
    assert_eq!(iph.src, ME); // RST comes from us
    assert_eq!(iph.dst, PEER);
    assert_eq!(utils::checksum(&rst[..20]), 0, "IP checksum invalid");

    let t = parse(&rst[20..]).unwrap();
    assert_eq!(t.flags, RST);
    assert_eq!(t.seq, 500); // SEG.ACK
    assert_eq!(t.src_port, 80);
    assert_eq!(t.dst_port, 0x1234);
    assert_eq!(tcp_checksum(ME, PEER, &rst[20..]), 0, "TCP checksum invalid");
}

#[test]
fn tracks_peer_window() {
    let th = parse(&syn_segment()).unwrap();
    let (mut conn, _s) = Connection::accept_with_iss(PEER, ME, &th, 0).unwrap();
    let hs_ack = TcpHeader {
        src_port: 0x1234, dst_port: 80, seq: 101, ack: 1,
        data_offset: 20, flags: ACK, window: 0xffff,
    };
    conn.on_packet_at(&hs_ack, &[], 0);
    // Peer advertises a 500-byte window; nothing is in flight yet → usable = 500.
    let probe = TcpHeader {
        src_port: 0x1234, dst_port: 80, seq: 101, ack: 1,
        data_offset: 20, flags: ACK, window: 500,
    };
    conn.on_packet_at(&probe, &[], 0);
    assert_eq!(conn.usable_window(), 500);
}

#[test]
fn advertises_our_receive_window_not_the_peers() {
    let th = parse(&syn_segment()).unwrap();
    let (mut conn, _s) = Connection::accept_with_iss(PEER, ME, &th, 0).unwrap();
    let hs_ack = TcpHeader {
        src_port: 0x1234, dst_port: 80, seq: 101, ack: 1,
        data_offset: 20, flags: ACK, window: 0xffff,
    };
    conn.on_packet_at(&hs_ack, &[], 0);

    // The peer advertises a huge window; our ACK must still advertise OUR 1024-byte receive
    // window, never parrot the peer's (which would over-claim buffer we lack).
    let data = TcpHeader {
        src_port: 0x1234, dst_port: 80, seq: 101, ack: 1,
        data_offset: 20, flags: PSH | ACK, window: 0xffff,
    };
    let ackseg = conn.on_packet_at(&data, b"hi", 0).expect("an ACK");
    let ah = parse(&ackseg[20..]).unwrap();
    assert_eq!(ah.window, 1024);
}

#[test]
fn reassembles_out_of_order_data() {
    let th = parse(&syn_segment()).unwrap();
    let (mut conn, _s) = Connection::accept_with_iss(PEER, ME, &th, 0).unwrap();
    let hs_ack = TcpHeader {
        src_port: 0x1234, dst_port: 80, seq: 101, ack: 1,
        data_offset: 20, flags: ACK, window: 0xffff,
    };
    conn.on_packet_at(&hs_ack, &[], 0);
    assert_eq!(conn.state(), State::Established);

    // The peer's SECOND chunk arrives first: "lo" at seq 103 (we still expect 101). We can't
    // deliver it → reply with a bare duplicate ACK still acknowledging seq 101.
    let second = TcpHeader {
        src_port: 0x1234, dst_port: 80, seq: 103, ack: 1,
        data_offset: 20, flags: PSH | ACK, window: 0xffff,
    };
    let dup = conn.on_packet_at(&second, b"lo", 0).expect("a duplicate ACK");
    let dh = parse(&dup[20..]).unwrap();
    assert_eq!(dh.flags, ACK);
    assert_eq!(dh.ack, 101); // still waiting for byte 101
    assert_eq!(dup.len(), 40); // header only, no payload
    assert_eq!(conn.rcv_nxt(), 101); // RCV.NXT unmoved

    // Now the FIRST chunk "he" at seq 101 arrives → the gap fills, both flush, and we echo
    // the contiguous "helo", acknowledging through seq 105 (101 + 4 bytes).
    let first = TcpHeader {
        src_port: 0x1234, dst_port: 80, seq: 101, ack: 1,
        data_offset: 20, flags: PSH | ACK, window: 0xffff,
    };
    let ackseg = conn.on_packet_at(&first, b"he", 0).expect("an ACK");
    let ah = parse(&ackseg[20..]).unwrap();
    assert_eq!(ah.flags, ACK);
    assert_eq!(ah.ack, 105); // 101 + 4 bytes (he + lo)
    assert_eq!(ackseg.len(), 40); // header only
    assert_eq!(conn.rcv_nxt(), 105);
    assert_eq!(conn.take_received(), b"helo"); // both chunks delivered, in order
}

#[test]
fn three_dup_acks_fast_retransmit_the_oldest_segment() {
    let th = parse(&syn_segment()).unwrap();
    let (mut conn, _s) = Connection::accept_with_iss(PEER, ME, &th, 0).unwrap();
    let hs_ack = TcpHeader {
        src_port: 0x1234, dst_port: 80, seq: 101, ack: 1,
        data_offset: 20, flags: ACK, window: 0xffff,
    };
    conn.on_packet_at(&hs_ack, &[], 0);

    // The app sends "hi" → it's now unacknowledged in flight (seq 1).
    conn.write(b"hi");
    let segs = conn.poll_transmit(0);
    assert_eq!(segs.len(), 1);
    let echo = segs[0].clone();

    // Three duplicate ACKs (each acks seq 1, no new data, no payload). The first two do
    // nothing; the third fast-retransmits the oldest unacked segment — our echo — at once.
    let dup = TcpHeader {
        src_port: 0x1234, dst_port: 80, seq: 103, ack: 1,
        data_offset: 20, flags: ACK, window: 0xffff,
    };
    assert!(conn.on_packet_at(&dup, &[], 1).is_none()); // 1st dup
    assert!(conn.on_packet_at(&dup, &[], 2).is_none()); // 2nd dup
    let resent = conn.on_packet_at(&dup, &[], 3).expect("fast retransmit"); // 3rd dup
    assert_eq!(resent, echo);
}

#[test]
fn bulk_send_is_gated_by_the_congestion_window() {
    let th = parse(&syn_segment()).unwrap();
    let (mut conn, _s) = Connection::accept_with_iss(PEER, ME, &th, 0).unwrap();
    let hs_ack = TcpHeader {
        src_port: 0x1234, dst_port: 80, seq: 101, ack: 1,
        data_offset: 20, flags: ACK, window: 0xffff,
    };
    conn.on_packet_at(&hs_ack, &[], 0);

    // Queue 5000 bytes. cwnd starts at 1 MSS, so only ONE full-MSS segment leaves now.
    conn.write(&vec![b'x'; 5000]);
    let first = conn.poll_transmit(0);
    assert_eq!(first.len(), 1);
    let fh = parse(&first[0][20..]).unwrap();
    assert_eq!(first[0].len() - 20 - fh.data_offset, MSS as usize); // 1460-byte payload
    assert_eq!(fh.seq, 1);

    // Until it's acked the window is full — nothing more goes out.
    assert!(conn.poll_transmit(0).is_empty());

    // Peer ACKs the 1460 bytes → slow start grows cwnd to 2 MSS, so two segments now fit.
    let ack = TcpHeader {
        src_port: 0x1234, dst_port: 80, seq: 101, ack: 1 + MSS,
        data_offset: 20, flags: ACK, window: 0xffff,
    };
    conn.on_packet_at(&ack, &[], 0);
    assert_eq!(conn.poll_transmit(0).len(), 2);
}

#[test]
fn connection_retransmits_then_clears_on_ack() {
    let th = parse(&syn_segment()).unwrap();
    let (mut conn, _s) = Connection::accept_with_iss(PEER, ME, &th, 0).unwrap();
    let hs_ack = TcpHeader {
        src_port: 0x1234, dst_port: 80, seq: 101, ack: 1,
        data_offset: 20, flags: ACK, window: 0xffff,
    };
    conn.on_packet_at(&hs_ack, &[], 0);
    assert_eq!(conn.state(), State::Established);

    // App writes "hi"; poll_transmit emits it at t=0 (queued for retransmission).
    conn.write(b"hi");
    let segs = conn.poll_transmit(0);
    assert_eq!(segs.len(), 1);
    let echo = segs[0].clone();

    // No RTT sample yet → RTO is the 200 ms default, so the Tail Loss Probe is due at
    // ~RTO/2 = 100 ms — ahead of the full RTO.
    assert_eq!(conn.rto(), 200);
    assert!(conn.on_tick(50).is_empty()); // before the probe deadline
    let resent = conn.on_tick(150); // the tail loss probe resends the echo (ahead of the RTO)
    assert_eq!(resent, vec![echo]);

    // Peer ACKs our echoed data (SND.NXT advanced to 3) → the retx queue clears. The segment was
    // retransmitted, so Karn suppresses the RTT sample (no fresh sample; a probe doesn't back
    // off) — the RTO stays at the 200 ms default.
    let ack = TcpHeader {
        src_port: 0x1234, dst_port: 80, seq: 103, ack: 3,
        data_offset: 20, flags: ACK, window: 0xffff,
    };
    conn.on_packet_at(&ack, &[], 300);
    assert_eq!(conn.rto(), 200);
    assert!(conn.on_tick(600).is_empty());
}

#[test]
fn ack_of_new_data_samples_rtt_and_adapts_rto() {
    let th = parse(&syn_segment()).unwrap();
    let (mut conn, _s) = Connection::accept_with_iss(PEER, ME, &th, 0).unwrap();
    let hs_ack = TcpHeader {
        src_port: 0x1234, dst_port: 80, seq: 101, ack: 1,
        data_offset: 20, flags: ACK, window: 0xffff,
    };
    conn.on_packet_at(&hs_ack, &[], 0);

    // App writes "hi"; poll_transmit sends it at t=0 (queued for retransmission).
    conn.write(b"hi");
    conn.poll_transmit(0);
    assert_eq!(conn.rto(), 200); // still the default — no sample yet

    // Peer ACKs the sent bytes 120 ms later, never having forced a retransmission.
    let ack = TcpHeader {
        src_port: 0x1234, dst_port: 80, seq: 103, ack: 3,
        data_offset: 20, flags: ACK, window: 0xffff,
    };
    conn.on_packet_at(&ack, &[], 120);

    // First sample R=120 → SRTT=120, RTTVAR=60 → RTO = 120 + 4·60 = 360.
    assert_eq!(conn.rto(), 360);
}

#[test]
fn retx_records_acks_and_clears() {
    let mut q = RetxQueue::default();
    q.record(8, 11, vec![1, 2, 3], 0); // segment [8,11)
    q.record(18, 21, vec![4, 5, 6], 0); // segment [18,21)
    assert_eq!(q.len(), 2);
    assert_eq!(q.ack(11, 30), Some(30)); // UNA=11 → first acked at t=30 → RTT sample 30
    assert_eq!(q.len(), 1);
    assert_eq!(q.ack(21, 40), Some(40)); // second fully acked → sample 40
    assert!(q.is_empty());
}

#[test]
fn retx_partial_ack_keeps_unacked() {
    let mut q = RetxQueue::default();
    q.record(10, 11, vec![1], 0);
    q.record(20, 21, vec![2], 0);
    q.ack(15, 0); // covers the first (end 11 <= 15), not the second (end 21 > 15)
    assert_eq!(q.len(), 1);
}

#[test]
fn retx_fires_after_rto() {
    let mut q = RetxQueue::default();
    q.record(10, 11, vec![0xAB], 0);
    assert!(q.due(50, 100).is_empty()); // 50ms < 100ms RTO → nothing due
    let resent = q.due(150, 100); // 150ms >= RTO → due
    assert_eq!(resent, vec![vec![0xABu8]]);
    assert!(q.due(160, 100).is_empty()); // timer reset → not due again yet
    assert_eq!(q.due(300, 100).len(), 1); // due again after another RTO
}

#[test]
fn retx_ack_wraparound() {
    let mut q = RetxQueue::default();
    // Segment ends just past the wrap; an ack past it (mod 2^32) clears it.
    q.record(2, 3, vec![9], 0); // [2,3), end_seq 3, conceptually after wrapping from ~0xFFFFFFFF
    q.ack(3, 0);
    assert!(q.is_empty());
}

#[test]
fn active_open_completes() {
    // We initiate: connect from ME:50000 to PEER:80, ISS 0.
    let (mut conn, syn) = Connection::connect_with_iss((ME, 50000), (PEER, 80), 0, 0);
    assert_eq!(conn.state(), State::SynSent);

    // The SYN we emit: flags SYN, seq 0, from us to the peer, valid checksums.
    let synh = parse(&syn[20..]).unwrap();
    assert_eq!(synh.flags, SYN);
    assert_eq!(synh.seq, 0);
    assert_eq!(synh.src_port, 50000);
    assert_eq!(synh.dst_port, 80);
    assert_eq!(utils::checksum(&syn[..20]), 0);
    assert_eq!(tcp_checksum(ME, PEER, &syn[20..]), 0);

    // The peer answers SYN-ACK: its seq 900, ack 1 (acks our ISS+1).
    let synack = TcpHeader {
        src_port: 80, dst_port: 50000, seq: 900, ack: 1,
        data_offset: 20, flags: SYN | ACK, window: 0xffff,
    };
    let out = conn.on_packet(&synack, &[]).expect("the final ACK");
    assert_eq!(conn.state(), State::Established);

    // The ACK we send: seq = our SND.NXT (1), ack = peer seq + 1 (901), flags ACK.
    let ackh = parse(&out[20..]).unwrap();
    assert_eq!(ackh.flags, ACK);
    assert_eq!(ackh.seq, 1);
    assert_eq!(ackh.ack, 901);
    assert_eq!(tcp_checksum(ME, PEER, &out[20..]), 0, "TCP checksum invalid");
}

// control-segment (SYN / SYN-ACK / FIN) retransmission

#[test]
fn synack_retransmits_until_final_ack() {
    let th = parse(&syn_segment()).unwrap();
    // The SYN-ACK is queued for retransmission at send time (t=0), end_seq = ISS+1 = 1.
    let (mut conn, synack) = Connection::accept_with_iss(PEER, ME, &th, 0).unwrap();

    // No RTT sample yet → 200 ms default RTO. Before it, nothing is resent…
    assert!(conn.on_tick(150).is_empty());
    // …after it, the SYN-ACK goes out again, byte-for-byte.
    assert_eq!(conn.on_tick(250), vec![synack.clone()]);

    // The client's final ACK acknowledges our SYN-ACK → it leaves the queue and stays gone.
    let hs_ack = TcpHeader {
        src_port: 0x1234, dst_port: 80, seq: 101, ack: 1,
        data_offset: 20, flags: ACK, window: 0xffff,
    };
    conn.on_packet_at(&hs_ack, &[], 300);
    assert_eq!(conn.state(), State::Established);
    assert!(conn.on_tick(1000).is_empty(), "SYN-ACK must not be resent after it is acked");
}

#[test]
fn syn_retransmits_until_synack() {
    // Active open: the SYN is queued at t=0, end_seq = ISS+1 = 1.
    let (mut conn, syn) = Connection::connect_with_iss((ME, 50000), (PEER, 80), 0, 0);
    assert_eq!(conn.state(), State::SynSent);

    assert!(conn.on_tick(150).is_empty());
    assert_eq!(conn.on_tick(250), vec![syn.clone()]); // resent after the RTO

    // The peer's SYN-ACK acknowledges our SYN → it clears.
    let synack = TcpHeader {
        src_port: 80, dst_port: 50000, seq: 900, ack: 1,
        data_offset: 20, flags: SYN | ACK, window: 0xffff,
    };
    conn.on_packet_at(&synack, &[], 300);
    assert_eq!(conn.state(), State::Established);
    assert!(conn.on_tick(1000).is_empty(), "SYN must not be resent after it is acked");
}

#[test]
fn passive_fin_retransmits_until_acked() {
    let th = parse(&syn_segment()).unwrap();
    let (mut conn, _s) = Connection::accept_with_iss(PEER, ME, &th, 0).unwrap();
    let hs_ack = TcpHeader {
        src_port: 0x1234, dst_port: 80, seq: 101, ack: 1,
        data_offset: 20, flags: ACK, window: 0xffff,
    };
    conn.on_packet_at(&hs_ack, &[], 0);

    // Peer closes; we ACK and enter CLOSE_WAIT (no FIN queued yet).
    let fin = TcpHeader {
        src_port: 0x1234, dst_port: 80, seq: 101, ack: 1,
        data_offset: 20, flags: FIN | ACK, window: 0xffff,
    };
    conn.on_packet_at(&fin, &[], 0).expect("a pure ACK of their FIN");
    assert_eq!(conn.state(), State::CloseWait);

    // The app closes its half → our FIN (LAST_ACK), queued at t=0, end_seq = SND.NXT = 2.
    let our_fin = conn.close(0).expect("our FIN");
    assert_eq!(conn.state(), State::LastAck);
    assert_eq!(conn.on_tick(250), vec![our_fin.clone()]); // resent after the RTO

    // The peer's ACK of our FIN closes the connection and clears the queue.
    let last = TcpHeader {
        src_port: 0x1234, dst_port: 80, seq: 102, ack: 2,
        data_offset: 20, flags: ACK, window: 0xffff,
    };
    conn.on_packet_at(&last, &[], 300);
    assert_eq!(conn.state(), State::Closed);
    assert!(conn.on_tick(1000).is_empty(), "FIN must not be resent after it is acked");
}

#[test]
fn active_fin_retransmits_until_acked() {
    let th = parse(&syn_segment()).unwrap();
    let (mut conn, _s) = Connection::accept_with_iss(PEER, ME, &th, 0).unwrap();
    let hs_ack = TcpHeader {
        src_port: 0x1234, dst_port: 80, seq: 101, ack: 1,
        data_offset: 20, flags: ACK, window: 0xffff,
    };
    conn.on_packet_at(&hs_ack, &[], 0);

    // We actively close; our FIN is queued at t=0, end_seq = SND.NXT = 2.
    let fin = conn.close(0).expect("our FIN");
    assert_eq!(conn.state(), State::FinWait1);
    assert_eq!(conn.on_tick(250), vec![fin.clone()]); // resent after the RTO

    // The peer ACKs our FIN → it clears and we advance to FIN_WAIT_2.
    let ack = TcpHeader {
        src_port: 0x1234, dst_port: 80, seq: 101, ack: 2,
        data_offset: 20, flags: ACK, window: 0xffff,
    };
    conn.on_packet_at(&ack, &[], 300);
    assert_eq!(conn.state(), State::FinWait2);
    assert!(conn.on_tick(1000).is_empty(), "FIN must not be resent after it is acked");
}

// Nagle's algorithm + TCP_NODELAY

/// Helper: establish a connection (ISS 0, peer window 0xffff) ready for sending.
fn established_conn() -> Connection {
    let th = parse(&syn_segment()).unwrap();
    let (mut conn, _s) = Connection::accept_with_iss(PEER, ME, &th, 0).unwrap();
    let hs_ack = TcpHeader {
        src_port: 0x1234, dst_port: 80, seq: 101, ack: 1,
        data_offset: 20, flags: ACK, window: 0xffff,
    };
    conn.on_packet_at(&hs_ack, &[], 0);
    assert_eq!(conn.state(), State::Established);
    conn
}

fn payload_of(pkt: &[u8]) -> Vec<u8> {
    let h = parse(&pkt[20..]).unwrap();
    pkt[20 + h.data_offset..].to_vec()
}

#[test]
fn nagle_holds_small_write_until_prior_data_acked() {
    let mut conn = established_conn();

    // First small write: nothing in flight → sent immediately.
    conn.write(b"hello");
    let first = conn.poll_transmit(0);
    assert_eq!(first.len(), 1);
    assert_eq!(payload_of(&first[0]), b"hello");

    // Second small write while "hello" is still unacknowledged → Nagle holds it.
    conn.write(b"abc");
    assert!(conn.poll_transmit(0).is_empty(), "Nagle must hold the sub-MSS write");

    // Peer ACKs "hello" (seq 1..6 → ack 6): nothing in flight → the held bytes flush.
    let ack = TcpHeader {
        src_port: 0x1234, dst_port: 80, seq: 101, ack: 6,
        data_offset: 20, flags: ACK, window: 0xffff,
    };
    conn.on_packet_at(&ack, &[], 0);
    let flushed = conn.poll_transmit(0);
    assert_eq!(flushed.len(), 1);
    assert_eq!(payload_of(&flushed[0]), b"abc");
}

#[test]
fn nodelay_sends_small_write_immediately() {
    let mut conn = established_conn();
    conn.set_nodelay(true); // disable Nagle

    conn.write(b"hello");
    assert_eq!(conn.poll_transmit(0).len(), 1);

    // With TCP_NODELAY, the second small write goes out at once despite data in flight.
    conn.write(b"abc");
    let segs = conn.poll_transmit(0);
    assert_eq!(segs.len(), 1);
    assert_eq!(payload_of(&segs[0]), b"abc");
}

#[test]
fn nagle_never_holds_a_full_segment() {
    let mut conn = established_conn();

    // Grow cwnd to 2·MSS: send one full segment and have it acknowledged.
    conn.write(&vec![b'x'; MSS as usize]);
    assert_eq!(conn.poll_transmit(0).len(), 1);
    let ack = TcpHeader {
        src_port: 0x1234, dst_port: 80, seq: 101, ack: 1 + MSS,
        data_offset: 20, flags: ACK, window: 0xffff,
    };
    conn.on_packet_at(&ack, &[], 0);

    // Now send 2·MSS: BOTH full segments go out, even though the second leaves while the first
    // is in flight — Nagle only ever holds a *sub-MSS* tail.
    conn.write(&vec![b'y'; 2 * MSS as usize]);
    let segs = conn.poll_transmit(0);
    assert_eq!(segs.len(), 2);
    for s in &segs {
        assert_eq!(payload_of(s).len(), MSS as usize);
    }
}

// zero-window probes (persist timer)

#[test]
fn zero_window_arms_then_fires_persist_probe() {
    let mut conn = established_conn();

    // The peer slams its receive window shut.
    let zero = TcpHeader {
        src_port: 0x1234, dst_port: 80, seq: 101, ack: 1,
        data_offset: 20, flags: ACK, window: 0,
    };
    conn.on_packet_at(&zero, &[], 0);

    // The app has data, but a zero window blocks it — poll sends nothing.
    conn.write(b"hello");
    assert!(conn.poll_transmit(0).is_empty());

    // The first tick only arms the persist timer (one RTO = 200 ms default); no probe yet.
    assert!(conn.on_tick(100).is_empty());

    // After the persist timeout, a single byte is poked into the closed window at SND.NXT.
    let probes = conn.on_tick(350);
    assert_eq!(probes.len(), 1);
    assert_eq!(payload_of(&probes[0]), b"h");
    assert_eq!(parse(&probes[0][20..]).unwrap().seq, 1);
}

#[test]
fn persist_probe_recovers_when_window_reopens() {
    let mut conn = established_conn();
    let zero = TcpHeader {
        src_port: 0x1234, dst_port: 80, seq: 101, ack: 1,
        data_offset: 20, flags: ACK, window: 0,
    };
    conn.on_packet_at(&zero, &[], 0);
    conn.write(b"hello");

    // Arm and fire the probe (byte 'h' at seq 1).
    conn.on_tick(100);
    assert_eq!(conn.on_tick(350).len(), 1);

    // The peer's window reopens and its ACK acknowledges the probe byte (ack = 2).
    let reopen = TcpHeader {
        src_port: 0x1234, dst_port: 80, seq: 101, ack: 2,
        data_offset: 20, flags: ACK, window: 1000,
    };
    conn.on_packet_at(&reopen, &[], 400);

    // The deadlock is broken: the rest of "hello" now flows.
    let segs = conn.poll_transmit(400);
    assert_eq!(segs.len(), 1);
    assert_eq!(payload_of(&segs[0]), b"ello");
}

#[test]
fn window_updates_and_zero_windows_are_not_duplicate_acks() {
    let mut conn = established_conn();
    // Put 5 bytes in flight so the duplicate-ACK conditions could otherwise be met.
    conn.write(b"hello");
    assert_eq!(conn.poll_transmit(0).len(), 1);

    // Three ACKs for the same seq, each carrying a *changed* window — pure window updates, not
    // duplicate ACKs. Without the RFC 5681 §2 window condition the third would fast-retransmit;
    // with it, all three are inert (return None).
    for win in [500u16, 400, 300] {
        let upd = TcpHeader {
            src_port: 0x1234, dst_port: 80, seq: 101, ack: 1,
            data_offset: 20, flags: ACK, window: win,
        };
        assert!(conn.on_packet_at(&upd, &[], 0).is_none(), "window update must not be a dup ACK");
    }

    // Three zero-window ACKs (the receiver is full) are likewise not duplicate ACKs.
    let zero = TcpHeader {
        src_port: 0x1234, dst_port: 80, seq: 101, ack: 1,
        data_offset: 20, flags: ACK, window: 0,
    };
    for _ in 0..3 {
        assert!(conn.on_packet_at(&zero, &[], 0).is_none(), "zero-window re-ack must not be a dup ACK");
    }
}

// MSS option + outgoing segmentation

#[test]
fn parse_options_handles_mss_nop_eol_and_malformed() {
    // NOP, NOP, MSS=1460 (0x05b4), End-of-Options, then trailing garbage (ignored after EOL).
    let bytes = [OPT_NOP, OPT_NOP, OPT_MSS, 4, 0x05, 0xb4, OPT_END, 0xff];
    assert_eq!(parse_options(&bytes).mss, Some(1460));
    // No options at all.
    assert_eq!(parse_options(&[]).mss, None);
    // Truncated MSS (length says 4 but only 1 value byte present) → ignored, no panic.
    assert_eq!(parse_options(&[OPT_MSS, 4, 0x05]).mss, None);
    // A zero length is malformed → parsing stops without looping forever.
    assert_eq!(parse_options(&[OPT_MSS, 0, 1, 2]).mss, None);
}

#[test]
fn synack_advertises_our_mss_and_negotiates_send_mss() {
    let th = parse(&syn_segment()).unwrap();
    // The peer's SYN advertised a 600-byte MSS.
    let opts = TcpOptions { mss: Some(600), ..Default::default() };
    let (conn, synack) = Connection::accept_with_iss_at(PEER, ME, &th, &opts, 0, 0).unwrap();

    // We advertise OUR receive MSS in the SYN-ACK…
    let h = parse(&synack[20..]).unwrap();
    let emitted = parse_options(&synack[20 + 20..20 + h.data_offset]);
    assert_eq!(emitted.mss, Some(OUR_MSS));
    // …and our *send* MSS becomes min(OUR_MSS, peer's 600) = 600.
    assert_eq!(conn.send_mss(), 600);
}

#[test]
fn missing_peer_mss_falls_back_to_default() {
    // syn_segment() carries no options → no peer MSS → we segment at the default (OUR_MSS).
    let th = parse(&syn_segment()).unwrap();
    let (conn, _s) = Connection::accept_with_iss(PEER, ME, &th, 0).unwrap();
    assert_eq!(conn.send_mss(), DEFAULT_SEND_MSS);
}

#[test]
fn outgoing_data_is_segmented_to_negotiated_mss() {
    // The peer advertised a small 500-byte MSS, so our segments are capped at 500 — not the
    // 1460 congestion MSS — even though cwnd (1·1460) would allow a bigger one.
    let th = parse(&syn_segment()).unwrap();
    let opts = TcpOptions { mss: Some(500), ..Default::default() };
    let (mut conn, _s) = Connection::accept_with_iss_at(PEER, ME, &th, &opts, 0, 0).unwrap();
    let hs_ack = TcpHeader {
        src_port: 0x1234, dst_port: 80, seq: 101, ack: 1,
        data_offset: 20, flags: ACK, window: 0xffff,
    };
    conn.on_packet_at(&hs_ack, &[], 0);
    assert_eq!(conn.state(), State::Established);

    conn.write(&vec![b'x'; 1200]);
    let segs = conn.poll_transmit(0);
    // cwnd=1460 admits 1000 bytes of in-flight here → two 500-byte segments; the 200-byte tail
    // is held by Nagle (sub-MSS with data in flight), confirming the MSS bound.
    assert_eq!(segs.len(), 2);
    assert_eq!(payload_of(&segs[0]).len(), 500);
    assert_eq!(payload_of(&segs[1]).len(), 500);
}

#[test]
fn active_open_learns_peer_mss_from_synack() {
    let (mut conn, _syn) = Connection::connect_with_iss((ME, 50000), (PEER, 80), 0, 0);
    assert_eq!(conn.send_mss(), DEFAULT_SEND_MSS); // unknown until the SYN-ACK

    // The peer's SYN-ACK advertises a 700-byte MSS; on_segment learns it.
    let synack = TcpHeader {
        src_port: 80, dst_port: 50000, seq: 900, ack: 1,
        data_offset: 24, flags: SYN | ACK, window: 0xffff,
    };
    let opts = TcpOptions { mss: Some(700), ..Default::default() };
    conn.on_segment(&synack, &[], &opts, 0);
    assert_eq!(conn.state(), State::Established);
    assert_eq!(conn.send_mss(), 700);
}

// TCP timestamps + RTTM + PAWS

#[test]
fn parse_options_reads_timestamps() {
    // NOP, NOP, TS(kind 8, len 10), TSval=0x01020304, TSecr=0x0a0b0c0d.
    let bytes = [OPT_NOP, OPT_NOP, OPT_TS, 10, 1, 2, 3, 4, 0x0a, 0x0b, 0x0c, 0x0d];
    assert_eq!(parse_options(&bytes).timestamps, Some((0x0102_0304, 0x0a0b_0c0d)));
    // Wrong length (6, not 10) → not a valid timestamps option.
    assert_eq!(parse_options(&[OPT_TS, 6, 1, 2, 3, 4]).timestamps, None);
}

#[test]
fn timestamps_negotiated_and_synack_echoes_peer() {
    let th = parse(&syn_segment()).unwrap();
    let opts = TcpOptions { mss: Some(1460), timestamps: Some((5000, 0)), ..Default::default() };
    let (conn, synack) = Connection::accept_with_iss_at(PEER, ME, &th, &opts, 0, 100).unwrap();
    assert!(conn.ts_enabled());

    // The SYN-ACK carries both MSS and a Timestamps option: TSval = our clock (100), TSecr =
    // the peer's SYN TSval (5000).
    let h = parse(&synack[20..]).unwrap();
    let emitted = parse_options(&synack[20 + 20..20 + h.data_offset]);
    assert_eq!(emitted.mss, Some(OUR_MSS));
    assert_eq!(emitted.timestamps, Some((100, 5000)));
}

#[test]
fn timestamps_disabled_when_peer_does_not_offer() {
    let th = parse(&syn_segment()).unwrap();
    let opts = TcpOptions { mss: Some(1460), timestamps: None, ..Default::default() };
    let (conn, synack) = Connection::accept_with_iss_at(PEER, ME, &th, &opts, 0, 0).unwrap();
    assert!(!conn.ts_enabled());
    let h = parse(&synack[20..]).unwrap();
    assert_eq!(parse_options(&synack[20 + 20..20 + h.data_offset]).timestamps, None);
}

/// Establish a timestamps-enabled connection (peer SYN TSval = `peer_ts`), handshake at t=0.
fn established_ts_conn(peer_ts: u32) -> Connection {
    let th = parse(&syn_segment()).unwrap();
    let opts = TcpOptions { mss: Some(1460), timestamps: Some((peer_ts, 0)), ..Default::default() };
    let (mut conn, _s) = Connection::accept_with_iss_at(PEER, ME, &th, &opts, 0, 0).unwrap();
    let hs_ack = TcpHeader {
        src_port: 0x1234, dst_port: 80, seq: 101, ack: 1,
        data_offset: 20, flags: ACK, window: 0xffff,
    };
    let ack_opts = TcpOptions { mss: None, timestamps: Some((peer_ts, 0)), ..Default::default() };
    conn.on_segment(&hs_ack, &[], &ack_opts, 0);
    assert_eq!(conn.state(), State::Established);
    conn
}

#[test]
fn rttm_samples_rtt_from_echoed_timestamp() {
    let mut conn = established_ts_conn(5000);

    // We send "hi" at t=0 → its TSval is 0.
    conn.write(b"hi");
    conn.poll_transmit(0);

    // The peer ACKs at t=120, echoing TSecr = 0 (our send time).
    let ack = TcpHeader {
        src_port: 0x1234, dst_port: 80, seq: 101, ack: 3,
        data_offset: 20, flags: ACK, window: 0xffff,
    };
    let ack_opts = TcpOptions { mss: None, timestamps: Some((5002, 0)), ..Default::default() };
    conn.on_segment(&ack, &[], &ack_opts, 120);

    // Sample R = 120 − 0 = 120 → first sample → SRTT 120, RTTVAR 60 → RTO = 120 + 4·60 = 360.
    assert_eq!(conn.rto(), 360);
}

#[test]
fn paws_rejects_an_old_timestamp_segment() {
    let mut conn = established_ts_conn(5000);
    // TS.Recent is 5000 after the handshake.

    // An old duplicate: in-window seq, but a stale TSval (4000 < 5000). PAWS drops it — the data
    // is NOT delivered and we re-ACK current state.
    let old = TcpHeader {
        src_port: 0x1234, dst_port: 80, seq: 101, ack: 1,
        data_offset: 20, flags: PSH | ACK, window: 0xffff,
    };
    let old_opts = TcpOptions { mss: None, timestamps: Some((4000, 0)), ..Default::default() };
    let resp = conn.on_segment(&old, b"XX", &old_opts, 10).expect("a current ACK");
    assert_eq!(parse(&resp[20..]).unwrap().ack, 101); // RCV.NXT unmoved
    assert_eq!(conn.take_received(), b""); // nothing delivered

    // The same data with a fresh timestamp IS accepted.
    let fresh = TcpHeader {
        src_port: 0x1234, dst_port: 80, seq: 101, ack: 1,
        data_offset: 20, flags: PSH | ACK, window: 0xffff,
    };
    let fresh_opts = TcpOptions { mss: None, timestamps: Some((5002, 0)), ..Default::default() };
    conn.on_segment(&fresh, b"hi", &fresh_opts, 20);
    assert_eq!(conn.take_received(), b"hi");
}

#[test]
fn timestamped_connection_emits_timestamps_on_data() {
    let mut conn = established_ts_conn(5000);
    conn.write(b"hi");
    let segs = conn.poll_transmit(7);
    assert_eq!(segs.len(), 1);
    // The data segment carries a Timestamps option: TSval = clock (7), TSecr = TS.Recent (5000).
    let h = parse(&segs[0][20..]).unwrap();
    let emitted = parse_options(&segs[0][20 + 20..20 + h.data_offset]);
    assert_eq!(emitted.timestamps, Some((7, 5000)));
}

// window scaling

#[test]
fn parse_options_reads_and_clamps_window_scale() {
    assert_eq!(parse_options(&[OPT_WS, 3, 7]).window_scale, Some(7));
    // A shift above 14 is clamped to 14 (RFC 7323 §2.3).
    assert_eq!(parse_options(&[OPT_WS, 3, 20]).window_scale, Some(MAX_WSCALE));
    // Wrong length → not a valid window-scale option.
    assert_eq!(parse_options(&[OPT_WS, 4, 7, 0]).window_scale, None);
}

#[test]
fn synack_offers_window_scale_when_peer_does() {
    let th = parse(&syn_segment()).unwrap();
    let opts = TcpOptions { window_scale: Some(8), ..Default::default() };
    let (conn, synack) = Connection::accept_with_iss_at(PEER, ME, &th, &opts, 0, 0).unwrap();
    assert_eq!(conn.snd_wscale(), 8);
    let h = parse(&synack[20..]).unwrap();
    let emitted = parse_options(&synack[20 + 20..20 + h.data_offset]);
    assert_eq!(emitted.window_scale, Some(OUR_RCV_WSCALE));
    assert_eq!(emitted.mss, Some(OUR_MSS));
}

#[test]
fn synack_omits_window_scale_when_peer_silent() {
    let th = parse(&syn_segment()).unwrap();
    let opts = TcpOptions { window_scale: None, ..Default::default() };
    let (conn, synack) = Connection::accept_with_iss_at(PEER, ME, &th, &opts, 0, 0).unwrap();
    assert_eq!(conn.snd_wscale(), 0);
    let h = parse(&synack[20..]).unwrap();
    assert_eq!(parse_options(&synack[20 + 20..20 + h.data_offset]).window_scale, None);
}

#[test]
fn peer_window_is_left_shifted_by_negotiated_scale() {
    let th = parse(&syn_segment()).unwrap();
    // The peer offers window scale 7 (×128).
    let opts = TcpOptions { window_scale: Some(7), ..Default::default() };
    let (mut conn, _s) = Connection::accept_with_iss_at(PEER, ME, &th, &opts, 0, 0).unwrap();
    assert_eq!(conn.snd_wscale(), 7);

    // A later ACK whose window FIELD is 1000 really advertises 1000 << 7 = 128000 bytes.
    let ack = TcpHeader {
        src_port: 0x1234, dst_port: 80, seq: 101, ack: 1,
        data_offset: 20, flags: ACK, window: 1000,
    };
    conn.on_packet_at(&ack, &[], 0);
    assert_eq!(conn.snd_wnd(), 1000 << 7);
}

#[test]
fn active_open_adopts_peer_window_scale() {
    let (mut conn, _syn) = Connection::connect_with_iss((ME, 50000), (PEER, 80), 0, 0);
    assert_eq!(conn.snd_wscale(), 0); // unknown until the SYN-ACK

    let synack = TcpHeader {
        src_port: 80, dst_port: 50000, seq: 900, ack: 1,
        data_offset: 24, flags: SYN | ACK, window: 0xffff,
    };
    let opts = TcpOptions { window_scale: Some(5), ..Default::default() };
    conn.on_segment(&synack, &[], &opts, 0);
    assert_eq!(conn.state(), State::Established);
    assert_eq!(conn.snd_wscale(), 5);
}

// Selective Acknowledgment (SACK, RFC 2018)

/// Establish a SACK-negotiated connection (peer SYN offered SACK-Permitted), handshake at t=0.
/// RCV.NXT = 101 (peer ISN 100, SYN consumed it); SND.UNA = SND.NXT = 1.
fn established_sack_conn() -> Connection {
    let th = parse(&syn_segment()).unwrap();
    let syn_opts = TcpOptions { sack_permitted: true, ..Default::default() };
    let (mut conn, _s) = Connection::accept_with_iss_at(PEER, ME, &th, &syn_opts, 0, 0).unwrap();
    let hs_ack = TcpHeader {
        src_port: 0x1234, dst_port: 80, seq: 101, ack: 1,
        data_offset: 20, flags: ACK, window: 0xffff,
    };
    conn.on_packet_at(&hs_ack, &[], 0);
    assert_eq!(conn.state(), State::Established);
    assert!(conn.sack_ok());
    conn
}

#[test]
fn parse_options_reads_sack_permitted() {
    // SACK-Permitted is kind=4, len=2, no payload.
    assert!(parse_options(&[OPT_SACK_PERM, 2]).sack_permitted);
    assert!(!parse_options(&[]).sack_permitted);
    // Bundled after an MSS option with NOP padding — both parse.
    let o = parse_options(&[OPT_MSS, 4, 0x05, 0xb4, OPT_NOP, OPT_NOP, OPT_SACK_PERM, 2]);
    assert_eq!(o.mss, Some(1460));
    assert!(o.sack_permitted);
}

#[test]
fn parse_options_reads_sack_blocks() {
    // Two blocks [1000,2000) and [3000,4000): kind=5, len = 2 + 2×8 = 18.
    let mut bytes = vec![OPT_SACK, 18];
    for edge in [1000u32, 2000, 3000, 4000] {
        bytes.extend_from_slice(&edge.to_be_bytes());
    }
    let o = parse_options(&bytes);
    assert_eq!(o.sack_block_count, 2);
    assert_eq!(o.sack_blocks[0], (1000, 2000));
    assert_eq!(o.sack_blocks[1], (3000, 4000));
    // A length that isn't a positive multiple of 8 is malformed → ignored.
    assert_eq!(parse_options(&[OPT_SACK, 6, 0, 0, 0, 1]).sack_block_count, 0);
}

#[test]
fn syn_offers_sack_permitted() {
    let (_conn, syn) = Connection::connect_with_iss((ME, 50000), (PEER, 80), 0, 0);
    let h = parse(&syn[20..]).unwrap();
    let o = parse_options(&syn[20 + 20..20 + h.data_offset]);
    assert!(o.sack_permitted, "our SYN must offer SACK");
    assert_eq!(o.mss, Some(OUR_MSS)); // alongside MSS / window scale / timestamps
}

#[test]
fn synack_offers_sack_when_peer_permits() {
    let th = parse(&syn_segment()).unwrap();
    let opts = TcpOptions { sack_permitted: true, ..Default::default() };
    let (conn, synack) = Connection::accept_with_iss_at(PEER, ME, &th, &opts, 0, 0).unwrap();
    assert!(conn.sack_ok());
    let h = parse(&synack[20..]).unwrap();
    assert!(parse_options(&synack[20 + 20..20 + h.data_offset]).sack_permitted);
}

#[test]
fn synack_omits_sack_when_peer_silent() {
    let th = parse(&syn_segment()).unwrap();
    let opts = TcpOptions { sack_permitted: false, ..Default::default() };
    let (conn, synack) = Connection::accept_with_iss_at(PEER, ME, &th, &opts, 0, 0).unwrap();
    assert!(!conn.sack_ok());
    let h = parse(&synack[20..]).unwrap();
    assert!(!parse_options(&synack[20 + 20..20 + h.data_offset]).sack_permitted);
}

#[test]
fn active_open_enables_sack_from_synack() {
    let (mut conn, _syn) = Connection::connect_with_iss((ME, 50000), (PEER, 80), 0, 0);
    assert!(!conn.sack_ok()); // not until the SYN-ACK confirms it
    let synack = TcpHeader {
        src_port: 80, dst_port: 50000, seq: 900, ack: 1,
        data_offset: 20, flags: SYN | ACK, window: 0xffff,
    };
    let opts = TcpOptions { sack_permitted: true, ..Default::default() };
    conn.on_segment(&synack, &[], &opts, 0);
    assert_eq!(conn.state(), State::Established);
    assert!(conn.sack_ok());
}

#[test]
fn out_of_order_data_acks_with_a_sack_block() {
    let mut conn = established_sack_conn(); // RCV.NXT = 101
    // Data at seq 104 arrives before the [101,104) gap is filled: a hole remains, so the dup ACK
    // must SACK the buffered range [104,106) (RFC 2018 §3) while its cumulative ack stays at 101.
    let ooo = TcpHeader {
        src_port: 0x1234, dst_port: 80, seq: 104, ack: 1,
        data_offset: 20, flags: PSH | ACK, window: 0xffff,
    };
    let ack = conn.on_packet_at(&ooo, b"DE", 0).expect("a dup ACK carrying SACK");
    let h = parse(&ack[20..]).unwrap();
    assert_eq!(h.ack, 101, "cumulative ack unmoved — the gap remains");
    let o = parse_options(&ack[20 + 20..20 + h.data_offset]);
    assert_eq!(o.sack_block_count, 1);
    assert_eq!(o.sack_blocks[0], (104, 106));
}

#[test]
fn no_sack_block_when_data_is_in_order() {
    let mut conn = established_sack_conn();
    let inorder = TcpHeader {
        src_port: 0x1234, dst_port: 80, seq: 101, ack: 1,
        data_offset: 20, flags: PSH | ACK, window: 0xffff,
    };
    let ack = conn.on_packet_at(&inorder, b"hi", 0).expect("an ACK");
    let h = parse(&ack[20..]).unwrap();
    assert_eq!(h.ack, 103); // delivered in order → RCV.NXT advanced, no hole
    assert_eq!(parse_options(&ack[20 + 20..20 + h.data_offset]).sack_block_count, 0);
}

#[test]
fn sack_marks_segment_so_retransmit_skips_it() {
    // The selective-retransmit core (RFC 2018 §4), exercised directly on the queue.
    let mut q = RetxQueue::default();
    q.record(0, 100, vec![0xAA], 0); //   segment A [0,100)
    q.record(100, 200, vec![0xBB], 0); // segment B [100,200)
    q.record(200, 300, vec![0xCC], 0); // segment C [200,300)
    // The peer SACKs the middle range — B is now selectively acknowledged.
    q.mark_sacked(&[(100, 200)]);
    // Fast retransmit resends the first NON-sacked segment (A), not the SACKed B.
    assert_eq!(q.fast_retransmit(10), Some(vec![0xAA]));
    // An RTO sweep resends only the holes A and C, never B.
    assert_eq!(q.due(10_000, 200), vec![vec![0xAAu8], vec![0xCCu8]]);
}

#[test]
fn partial_sack_block_does_not_mark_a_segment() {
    // A block must FULLY cover a segment to mark it: half-coverage leaves it retransmittable.
    let mut q = RetxQueue::default();
    q.record(0, 100, vec![0xAA], 0);
    q.mark_sacked(&[(0, 50)]); // covers only the first half of [0,100)
    assert_eq!(q.fast_retransmit(10), Some(vec![0xAA]));
}

// half-close (CLOSE_WAIT) + RFC 5961 RST/SYN validation

/// A peer's pure FIN at seq 101 (helper): the common "client half-closes" segment.
fn peer_fin_segment() -> TcpHeader {
    TcpHeader {
        src_port: 0x1234, dst_port: 80, seq: 101, ack: 1,
        data_offset: 20, flags: FIN | ACK, window: 0xffff,
    }
}

#[test]
fn data_and_fin_in_one_segment_delivers_data_and_enters_close_wait() {
    // The peer sends its last 2 bytes "hi" AND its FIN in a single segment at seq 101. The FIN
    // sits at seq 103 (one past the data). We must deliver "hi", consume the FIN, ACK through
    // 104, and reach CLOSE_WAIT: a piggybacked FIN is not dropped.
    let mut conn = established_conn();
    let data_fin = TcpHeader {
        src_port: 0x1234, dst_port: 80, seq: 101, ack: 1,
        data_offset: 20, flags: FIN | PSH | ACK, window: 0xffff,
    };
    let ack = conn.on_packet(&data_fin, b"hi").expect("an ACK of data + FIN");
    assert_eq!(conn.state(), State::CloseWait);
    assert!(conn.peer_closed());
    assert_eq!(conn.take_received(), b"hi"); // data delivered, not dropped
    let h = parse(&ack[20..]).unwrap();
    assert_eq!(h.flags, ACK);
    assert_eq!(h.ack, 104); // 101 + 2 data + 1 FIN
    assert_eq!(conn.rcv_nxt(), 104);
}

#[test]
fn half_close_lets_local_side_keep_sending() {
    let mut conn = established_conn();
    // Peer closes its half (pure FIN at 101) → we ACK, CLOSE_WAIT.
    let ack = conn.on_packet(&peer_fin_segment(), &[]).expect("a pure ACK");
    assert_eq!(conn.state(), State::CloseWait);
    assert_eq!(parse(&ack[20..]).unwrap().ack, 102);

    // Our send side is still open: the app writes and poll_transmit puts it on the wire even in
    // CLOSE_WAIT (this is the whole point of half-close).
    conn.write(b"bye");
    let segs = conn.poll_transmit(0);
    assert_eq!(segs.len(), 1);
    assert_eq!(payload_of(&segs[0]), b"bye");
    assert_eq!(parse(&segs[0][20..]).unwrap().seq, 1); // our data at SND.NXT

    // The peer ACKs our 3 bytes (ack 4) — handled in CLOSE_WAIT just like ESTABLISHED.
    let peer_ack = TcpHeader {
        src_port: 0x1234, dst_port: 80, seq: 102, ack: 4,
        data_offset: 20, flags: ACK, window: 0xffff,
    };
    assert!(conn.on_packet_at(&peer_ack, &[], 0).is_none());

    // Now the app closes its half → our FIN, LAST_ACK, sequenced after the data.
    let our_fin = conn.close(0).expect("our FIN");
    assert_eq!(conn.state(), State::LastAck);
    let f = parse(&our_fin[20..]).unwrap();
    assert_eq!(f.flags, FIN | ACK);
    assert_eq!(f.seq, 4); // after the 3 sent bytes (1 + 3)
    assert_eq!(f.ack, 102);
}

#[test]
fn close_wait_reacks_a_retransmitted_fin() {
    let mut conn = established_conn();
    conn.on_packet(&peer_fin_segment(), &[]).expect("first ACK");
    assert_eq!(conn.state(), State::CloseWait);

    // The peer never saw our ACK and retransmits its FIN. We must re-ACK current state (RCV.NXT
    // is already past the FIN) rather than ignore it, so the peer can complete its teardown.
    let reack = conn.on_packet(&peer_fin_segment(), &[]).expect("a re-ACK");
    let h = parse(&reack[20..]).unwrap();
    assert_eq!(h.flags, ACK);
    assert_eq!(h.ack, 102);
    assert_eq!(conn.state(), State::CloseWait); // unchanged
}

#[test]
fn out_of_order_data_with_fin_defers_then_completes_the_close() {
    let mut conn = established_conn(); // RCV.NXT = 101
    // A data+FIN segment arrives out of order (seq 103, the [101,103) gap missing). The FIN sits
    // at seq 105 and MUST be deferred — we stay ESTABLISHED and dup-ACK 101, not jump to
    // CLOSE_WAIT on a FIN whose preceding bytes we don't yet have.
    let ooo = TcpHeader {
        src_port: 0x1234, dst_port: 80, seq: 103, ack: 1,
        data_offset: 20, flags: FIN | PSH | ACK, window: 0xffff,
    };
    let dup = conn.on_packet(&ooo, b"XY").expect("a dup ACK");
    assert_eq!(parse(&dup[20..]).unwrap().ack, 101); // gap remains
    assert_eq!(conn.state(), State::Established); // FIN not yet honored
    assert!(!conn.peer_closed());

    // The missing bytes arrive (seq 101) → the gap fills, "ABXY" delivers, and the deferred FIN
    // is now honored in the same call: CLOSE_WAIT, ACK through 106 (101 + 4 data + 1 FIN).
    let fill = TcpHeader {
        src_port: 0x1234, dst_port: 80, seq: 101, ack: 1,
        data_offset: 20, flags: PSH | ACK, window: 0xffff,
    };
    let ack = conn.on_packet(&fill, b"AB").expect("an ACK");
    assert_eq!(conn.state(), State::CloseWait);
    assert!(conn.peer_closed());
    assert_eq!(parse(&ack[20..]).unwrap().ack, 106);
    assert_eq!(conn.take_received(), b"ABXY");
}

#[test]
fn rst_at_rcv_nxt_resets_the_connection() {
    // RFC 5961 §3.2: a RST whose seq is exactly RCV.NXT is honored — the connection is reset.
    let mut conn = established_conn(); // RCV.NXT = 101
    let rst = TcpHeader {
        src_port: 0x1234, dst_port: 80, seq: 101, ack: 1,
        data_offset: 20, flags: RST, window: 0,
    };
    assert!(conn.on_packet(&rst, &[]).is_none()); // honored silently, no reply
    assert_eq!(conn.state(), State::Closed);
}

#[test]
fn in_window_rst_is_challenged_not_honored() {
    // RFC 5961 §3.2: a RST inside the window but NOT exactly at RCV.NXT is suspicious → send a
    // challenge ACK and do NOT reset. (RCV.NXT = 101, RCV.WND = 1024 → window [101, 1125).)
    let mut conn = established_conn();
    let rst = TcpHeader {
        src_port: 0x1234, dst_port: 80, seq: 200, ack: 1,
        data_offset: 20, flags: RST, window: 0,
    };
    let chal = conn.on_packet(&rst, &[]).expect("a challenge ACK");
    let h = parse(&chal[20..]).unwrap();
    assert_eq!(h.flags, ACK);
    assert_eq!(h.seq, 1); // SND.NXT
    assert_eq!(h.ack, 101); // RCV.NXT
    assert_eq!(conn.state(), State::Established); // NOT reset
}

#[test]
fn out_of_window_rst_is_ignored() {
    // A RST far outside the receive window is dropped silently (RFC 5961 §3.2).
    let mut conn = established_conn(); // window [101, 1125)
    let rst = TcpHeader {
        src_port: 0x1234, dst_port: 80, seq: 5000, ack: 1,
        data_offset: 20, flags: RST, window: 0,
    };
    assert!(conn.on_packet(&rst, &[]).is_none());
    assert_eq!(conn.state(), State::Established); // untouched
}

#[test]
fn rst_in_time_wait_is_ignored() {
    // RFC 1337: a RST in TIME_WAIT can only be a delayed segment from the old connection; honoring
    // it risks "TIME-WAIT assassination". Drive a full active close to TIME_WAIT, then RST it.
    let mut conn = established_conn();
    conn.close(0).expect("our FIN"); // → FIN_WAIT_1
    let ack = TcpHeader {
        src_port: 0x1234, dst_port: 80, seq: 101, ack: 2,
        data_offset: 20, flags: ACK, window: 0xffff,
    };
    conn.on_packet_at(&ack, &[], 0); // our FIN acked → FIN_WAIT_2
    let peer_fin = TcpHeader {
        src_port: 0x1234, dst_port: 80, seq: 101, ack: 2,
        data_offset: 20, flags: FIN | ACK, window: 0xffff,
    };
    conn.on_packet_at(&peer_fin, &[], 0); // their FIN → TIME_WAIT
    assert_eq!(conn.state(), State::TimeWait);

    // A RST exactly at RCV.NXT (102) would reset a synchronized connection — but not in TIME_WAIT.
    let rst = TcpHeader {
        src_port: 0x1234, dst_port: 80, seq: 102, ack: 2,
        data_offset: 20, flags: RST, window: 0,
    };
    assert!(conn.on_packet_at(&rst, &[], 0).is_none());
    assert_eq!(conn.state(), State::TimeWait); // ignored, not assassinated
}

#[test]
fn in_window_syn_gets_a_challenge_ack() {
    // RFC 5961 §4: a SYN into a synchronized connection earns a challenge ACK and is dropped —
    // never a reset (which an attacker could exploit to kill connections).
    let mut conn = established_conn();
    let syn = TcpHeader {
        src_port: 0x1234, dst_port: 80, seq: 101, ack: 0,
        data_offset: 20, flags: SYN, window: 0xffff,
    };
    let chal = conn.on_packet(&syn, &[]).expect("a challenge ACK");
    let h = parse(&chal[20..]).unwrap();
    assert_eq!(h.flags, ACK);
    assert_eq!(h.seq, 1);
    assert_eq!(h.ack, 101);
    assert_eq!(conn.state(), State::Established); // NOT reset
}

#[test]
fn syn_sent_rst_that_acks_our_syn_refuses_the_connection() {
    // RFC 9293 §3.10.7.3: in SYN_SENT a RST is acceptable only if it acknowledges our SYN.
    let (mut conn, _syn) = Connection::connect_with_iss((ME, 50000), (PEER, 80), 0, 0);
    assert_eq!(conn.state(), State::SynSent);
    let rst = TcpHeader {
        src_port: 80, dst_port: 50000, seq: 0, ack: 1, // ack == SND.NXT (ISS 0 + 1)
        data_offset: 20, flags: RST | ACK, window: 0,
    };
    assert!(conn.on_packet(&rst, &[]).is_none());
    assert_eq!(conn.state(), State::Closed); // connection refused

    // A RST that does NOT acknowledge our SYN is ignored in SYN_SENT.
    let (mut conn2, _s2) = Connection::connect_with_iss((ME, 50000), (PEER, 80), 0, 0);
    let stray = TcpHeader {
        src_port: 80, dst_port: 50000, seq: 0, ack: 999,
        data_offset: 20, flags: RST | ACK, window: 0,
    };
    assert!(conn2.on_packet(&stray, &[]).is_none());
    assert_eq!(conn2.state(), State::SynSent); // unchanged
}

// NewReno fast recovery (RFC 6582)

#[test]
fn newreno_partial_ack_retransmits_the_next_hole_and_stays_in_recovery() {
    let mut conn = established_conn(); // cwnd = 1·MSS, SND.NXT = 1

    // Grow cwnd to 3·MSS over two slow-start rounds so three segments can be in flight together.
    conn.write(&vec![b'x'; 6 * MSS as usize]);
    assert_eq!(conn.poll_transmit(0).len(), 1); // seg1 [1, 1+MSS)
    let ack1 = TcpHeader {
        src_port: 0x1234, dst_port: 80, seq: 101, ack: 1 + MSS,
        data_offset: 20, flags: ACK, window: 0xffff,
    };
    conn.on_packet_at(&ack1, &[], 0); // cwnd → 2·MSS
    assert_eq!(conn.poll_transmit(0).len(), 2); // seg2, seg3
    let ack2 = TcpHeader {
        src_port: 0x1234, dst_port: 80, seq: 101, ack: 1 + 3 * MSS,
        data_offset: 20, flags: ACK, window: 0xffff,
    };
    conn.on_packet_at(&ack2, &[], 0); // cwnd → 3·MSS
    assert_eq!(conn.poll_transmit(0).len(), 3); // seg4, seg5, seg6 → SND.NXT = 1 + 6·MSS

    // seg4 and seg5 are "lost"; seg6 arrives → the peer dup-ACKs at 1+3·MSS.
    let dup = TcpHeader {
        src_port: 0x1234, dst_port: 80, seq: 101, ack: 1 + 3 * MSS,
        data_offset: 20, flags: ACK, window: 0xffff,
    };
    assert!(conn.on_packet_at(&dup, &[], 1).is_none()); // dup #1
    assert!(conn.on_packet_at(&dup, &[], 2).is_none()); // dup #2
    let rx4 = conn.on_packet_at(&dup, &[], 3).expect("fast retransmit"); // dup #3
    assert_eq!(parse(&rx4[20..]).unwrap().seq, 1 + 3 * MSS); // the first hole, seg4
    assert!(conn.in_recovery());

    // The retransmitted seg4 reaches the peer; seg5 is still missing, so the cumulative ACK only
    // advances to 1+4·MSS — a PARTIAL ACK. NewReno retransmits the next hole (seg5) and stays in
    // recovery, rather than declaring victory and waiting for an RTO to find the second loss.
    let partial = TcpHeader {
        src_port: 0x1234, dst_port: 80, seq: 101, ack: 1 + 4 * MSS,
        data_offset: 20, flags: ACK, window: 0xffff,
    };
    let rx5 = conn.on_packet_at(&partial, &[], 4).expect("partial-ACK retransmit");
    assert_eq!(parse(&rx5[20..]).unwrap().seq, 1 + 4 * MSS); // the next hole, seg5
    assert!(conn.in_recovery());

    // seg5 arrives → everything through `recover` (1+6·MSS) is acked: a FULL ACK ends recovery.
    let full = TcpHeader {
        src_port: 0x1234, dst_port: 80, seq: 101, ack: 1 + 6 * MSS,
        data_offset: 20, flags: ACK, window: 0xffff,
    };
    assert!(conn.on_packet_at(&full, &[], 5).is_none()); // no more holes to retransmit
    assert!(!conn.in_recovery());
    // On exit cwnd deflates to ssthresh, set at the 3rd dup ACK by CUBIC to
    // max(cwnd·0.7, 2·MSS). cwnd was 3·MSS there → ssthresh = 3·MSS·7/10 = 3066 bytes.
    assert_eq!(conn.cwnd(), 3 * MSS * 7 / 10);
}

// RFC 6675 SACK-based loss recovery (the pipe estimator)

#[test]
fn pipe_excludes_sacked_and_lost_counts_retransmitted() {
    let mut q = RetxQueue::default();
    for i in 0..5u32 {
        q.record(i * 100, i * 100 + 100, vec![i as u8], 0); // [0,100) … [400,500)
    }
    // SACK the top three segments → the bottom two each have 3 SACKed above ⇒ presumed lost.
    q.mark_sacked(&[(200, 300), (300, 400), (400, 500)]);
    // Nothing in flight: seg0/seg1 lost-not-retransmitted (0), seg2/3/4 SACKed (0).
    assert_eq!(q.pipe(3), 0);
    // Retransmit the first hole → it re-enters the pipe.
    assert!(q.next_lost_retransmit(3, 10).is_some());
    assert_eq!(q.pipe(3), 100);
    // Retransmit the second hole → both holes now in flight.
    assert!(q.next_lost_retransmit(3, 10).is_some());
    assert_eq!(q.pipe(3), 200);
    // No more lost, un-retransmitted segments remain.
    assert!(q.next_lost_retransmit(3, 10).is_none());
}

#[test]
fn pipe_does_not_presume_loss_below_threshold() {
    let mut q = RetxQueue::default();
    for i in 0..4u32 {
        q.record(i * 100, i * 100 + 100, vec![i as u8], 0);
    }
    q.mark_sacked(&[(200, 300), (300, 400)]); // only TWO SACKed above the holes (< DupThresh 3)
    // seg0, seg1 are NOT presumed lost → still in flight; seg2, seg3 SACKed → out. pipe = 200.
    assert_eq!(q.pipe(3), 200);
    assert!(q.next_lost_retransmit(3, 0).is_none()); // nothing crosses the loss threshold yet
}

#[test]
fn sack_recovery_retransmits_all_holes_in_one_round() {
    let mut conn = established_sack_conn(); // SACK negotiated; cwnd = 1·MSS

    // A bare cumulative ACK carrying `ack`.
    let cum = |ack: u32| TcpHeader {
        src_port: 0x1234, dst_port: 80, seq: 101, ack,
        data_offset: 20, flags: ACK, window: 0xffff,
    };

    // Ramp cwnd to 5·MSS over slow-start rounds so five segments (s11..s15) end up in flight.
    conn.write(&vec![b'x'; 15 * MSS as usize]);
    conn.poll_transmit(0); // s1                       (cwnd 1)
    conn.on_packet_at(&cum(1 + MSS), &[], 0); //         → cwnd 2
    conn.poll_transmit(0); // s2, s3
    conn.on_packet_at(&cum(1 + 3 * MSS), &[], 0); //     → cwnd 3
    conn.poll_transmit(0); // s4, s5, s6
    conn.on_packet_at(&cum(1 + 6 * MSS), &[], 0); //     → cwnd 4
    conn.poll_transmit(0); // s7..s10
    conn.on_packet_at(&cum(1 + 10 * MSS), &[], 0); //    → cwnd 5
    conn.poll_transmit(0); // s11..s15, SND.NXT = 1 + 15·MSS
    assert_eq!(conn.snd_nxt(), 1 + 15 * MSS);

    // The peer receives s13,s14,s15 but loses s11,s12 → dup-ACKs at 1+10·MSS, SACKing the top
    // three as one coalesced block [1+12·MSS, 1+15·MSS).
    let sack_opts = TcpOptions {
        sack_blocks: [(1 + 12 * MSS, 1 + 15 * MSS), (0, 0), (0, 0), (0, 0)],
        sack_block_count: 1,
        ..Default::default()
    };
    let dup = cum(1 + 10 * MSS);
    conn.on_segment(&dup, &[], &sack_opts, 1); // dup #1 (SACK marks s13..s15)
    conn.on_segment(&dup, &[], &sack_opts, 2); // dup #2
    let rx11 = conn.on_segment(&dup, &[], &sack_opts, 3).expect("fast retransmit"); // dup #3
    assert_eq!(parse(&rx11[20..]).unwrap().seq, 1 + 10 * MSS); // first hole, s11
    assert!(conn.in_recovery());

    // RFC 6675: the SACK scoreboard already shows the SECOND hole (s12) is lost, so poll_transmit
    // retransmits it in the SAME round — no waiting an RTT for a partial ACK (NewReno) or an RTO.
    let more = conn.poll_transmit(3);
    assert_eq!(more.len(), 1);
    assert_eq!(parse(&more[0][20..]).unwrap().seq, 1 + 11 * MSS); // second hole, s12
}

// robustness — RFC 5961 §5 ACK acceptability, challenge-ACK throttle, reaper timeouts

#[test]
fn ack_for_unsent_data_gets_challenge_ack() {
    // RFC 5961 §5: an ACK above SND.NXT (acking data we never sent) is a blind-injection probe —
    // answer with a challenge ACK and drop it, rather than acting on it.
    let mut conn = established_conn(); // SND.NXT = 1, RCV.NXT = 101
    let bogus = TcpHeader {
        src_port: 0x1234, dst_port: 80, seq: 101, ack: 5000, // far above SND.NXT
        data_offset: 20, flags: ACK, window: 0xffff,
    };
    let chal = conn.on_packet(&bogus, &[]).expect("a challenge ACK");
    let h = parse(&chal[20..]).unwrap();
    assert_eq!(h.flags, ACK);
    assert_eq!(h.seq, 1); // SND.NXT
    assert_eq!(h.ack, 101); // RCV.NXT
    assert_eq!(conn.state(), State::Established); // unperturbed
}

#[test]
fn challenge_acks_are_rate_limited() {
    // RFC 5961 ACK throttling (CVE-2016-5696 hardening): within one window the number of challenge
    // ACKs is capped by the randomized budget, so they can't be farmed as an off-path oracle.
    let mut conn = established_conn();
    // An in-window-but-inexact RST is challenged; fire many at the SAME time so the
    // budget never refills between them.
    let rst = TcpHeader {
        src_port: 0x1234, dst_port: 80, seq: 300, ack: 1,
        data_offset: 20, flags: RST, window: 0,
    };
    let challenges = (0..50).filter(|_| conn.on_packet_at(&rst, &[], 0).is_some()).count() as u32;
    assert!(challenges >= 1, "the first challenge is sent");
    assert!(challenges <= CHALLENGE_ACK_MAX, "but they are capped per window (got {challenges})");
    assert_eq!(conn.state(), State::Established); // an in-window RST never resets
}

#[test]
fn fin_wait2_reaped_after_idle_timeout() {
    // A peer that vanishes after ACKing our FIN leaves us in FIN_WAIT_2; the reaper collects it.
    let mut conn = established_conn();
    conn.close(0).expect("our FIN"); // → FIN_WAIT_1
    let ack = TcpHeader {
        src_port: 0x1234, dst_port: 80, seq: 101, ack: 2,
        data_offset: 20, flags: ACK, window: 0xffff,
    };
    conn.on_packet_at(&ack, &[], 0); // ACK of our FIN → FIN_WAIT_2 (last activity at t=0)
    assert_eq!(conn.state(), State::FinWait2);
    conn.on_tick(59_000); // within tcp_fin_timeout — still waiting
    assert_eq!(conn.state(), State::FinWait2);
    conn.on_tick(61_000); // idle past the timeout → reaped
    assert_eq!(conn.state(), State::Closed);
}

#[test]
fn close_wait_reaped_after_idle_timeout() {
    // A peer that sends FIN then disappears (the app never calls close) leaves us in CLOSE_WAIT —
    // the famous fd leak. The reaper bounds it.
    let mut conn = established_conn();
    let fin = TcpHeader {
        src_port: 0x1234, dst_port: 80, seq: 101, ack: 1,
        data_offset: 20, flags: FIN | ACK, window: 0xffff,
    };
    conn.on_packet_at(&fin, &[], 0); // peer FIN → CLOSE_WAIT (last activity at t=0)
    assert_eq!(conn.state(), State::CloseWait);
    conn.on_tick(119_000);
    assert_eq!(conn.state(), State::CloseWait);
    conn.on_tick(121_000); // idle past the CLOSE_WAIT reaper → reaped
    assert_eq!(conn.state(), State::Closed);
}

// RACK-TLP — time-based loss detection + Tail Loss Probe (RFC 8985)

#[test]
fn tail_loss_probe_retransmits_the_last_segment() {
    // The classic tail loss: the last segment is dropped, so NO dup-ACKs come and there's nothing
    // above it to SACK. Instead of waiting for the full RTO, the TLP probes at ~RTO/2.
    let mut conn = established_conn(); // cwnd 1·MSS, no RTT sample → RTO 200, PTO ≈ 100
    conn.write(b"hi");
    let segs = conn.poll_transmit(0); // sends the tail; arms the TLP at ~100 ms
    assert_eq!(segs.len(), 1);
    let sent = segs[0].clone();
    assert!(conn.on_tick(50).is_empty()); // before the PTO
    // At the PTO (before the RTO) the probe retransmits the last segment.
    assert_eq!(conn.on_tick(120), vec![sent.clone()]);
    // One probe per tail — it doesn't fire again.
    assert!(conn.on_tick(150).is_empty());
}

#[test]
fn rack_marks_earlier_segment_lost_once_reorder_window_passes() {
    // RACK detects a loss by TIME: a later-sent segment was SACKed, and the reordering window has
    // elapsed since the earlier one — so it was dropped, not merely reordered. (Exercised on the
    // queue directly, where the per-segment send times live.)
    let mut q = RetxQueue::default();
    q.record(0, 100, vec![0xAA], 0); //    segment A, sent at t=0
    q.record(100, 200, vec![0xBB], 10); // segment B, sent at t=10
    q.mark_sacked(&[(100, 200)]); //       B SACKed → RACK reference = (xmit_ts 10, end_seq 200)
    // Within the reordering window, A is NOT yet declared lost (it may still be in transit)…
    assert!(q.rack_mark_lost(15, 20).is_empty()); // elapsed since A = 15 ≤ reo_wnd 20
    // …but once more than the reordering window has elapsed, RACK retransmits A.
    assert_eq!(q.rack_mark_lost(30, 20), vec![vec![0xAAu8]]); // elapsed 30 > 20
    // Its timer reset on retransmit, so it isn't resent again immediately.
    assert!(q.rack_mark_lost(40, 20).is_empty());
}

// TCP keepalive (SO_KEEPALIVE, RFC 9293 §3.8.4)

#[test]
fn keepalive_probes_idle_connection_then_declares_it_dead() {
    let mut conn = established_conn(); // last activity at t=0 (the handshake)
    conn.set_keepalive(true);
    // Nothing before the idle threshold.
    assert!(conn.on_tick(KEEPALIVE_IDLE_MS - 1).is_empty());
    // First probe at the idle threshold: a segment at SND.NXT − 1 (a byte the peer has acked).
    let p1 = conn.on_tick(KEEPALIVE_IDLE_MS);
    assert_eq!(p1.len(), 1);
    assert_eq!(parse(&p1[0][20..]).unwrap().seq, conn.snd_nxt().wrapping_sub(1));
    // Probes repeat every interval; the connection survives while probing, up to the limit.
    assert!(conn.on_tick(KEEPALIVE_IDLE_MS + 1).is_empty()); // before the next interval
    assert_eq!(conn.on_tick(KEEPALIVE_IDLE_MS + KEEPALIVE_INTVL_MS).len(), 1); // 2nd probe
    assert_eq!(conn.on_tick(KEEPALIVE_IDLE_MS + 2 * KEEPALIVE_INTVL_MS).len(), 1); // 3rd probe
    assert_eq!(conn.state(), State::Established); // still alive while probes go unanswered
    // After KEEPALIVE_PROBES unanswered probes → the peer is declared dead.
    conn.on_tick(KEEPALIVE_IDLE_MS + 3 * KEEPALIVE_INTVL_MS);
    assert_eq!(conn.state(), State::Closed);
}

#[test]
fn keepalive_is_reset_by_a_peer_response() {
    let mut conn = established_conn();
    conn.set_keepalive(true);
    assert_eq!(conn.on_tick(KEEPALIVE_IDLE_MS).len(), 1); // 1st probe sent
    // The peer answers (a bare ACK) → it's alive; keepalive restarts from this moment.
    let ack = TcpHeader {
        src_port: 0x1234, dst_port: 80, seq: 101, ack: 1,
        data_offset: 20, flags: ACK, window: 0xffff,
    };
    let t = KEEPALIVE_IDLE_MS + 1;
    conn.on_packet_at(&ack, &[], t);
    // No probe until idle again, now measured from the response.
    assert!(conn.on_tick(t + KEEPALIVE_IDLE_MS - 1).is_empty());
    assert_eq!(conn.on_tick(t + KEEPALIVE_IDLE_MS).len(), 1);
    assert_eq!(conn.state(), State::Established);
}

// SYN cookies (RFC 4987)

#[test]
fn syn_cookie_round_trips_and_recovers_mss() {
    let secret = 0xdead_beef_cafe_f00d;
    let (local, remote) = ((ME, 80), (PEER, 0x1234));
    let cookie = syn_cookie(secret, local, remote, 1000, 1460, 5000);
    // The matching final ACK validates and recovers the (table-rounded) MSS.
    assert_eq!(check_syn_cookie(secret, local, remote, 1000, cookie, 5000), Some(1460));
    // A smaller advertised MSS rounds down to the nearest table entry (1220).
    let c2 = syn_cookie(secret, local, remote, 1000, 1300, 5000);
    assert_eq!(check_syn_cookie(secret, local, remote, 1000, c2, 5000), Some(1220));
}

#[test]
fn syn_cookie_rejects_tampering() {
    let secret = 0x1111_2222_3333_4444;
    let (local, remote) = ((ME, 80), (PEER, 0x1234));
    let cookie = syn_cookie(secret, local, remote, 1000, 1460, 5000);
    // A wrong secret, 4-tuple, peer ISN, or a flipped bit all fail to validate.
    assert!(check_syn_cookie(0xffff, local, remote, 1000, cookie, 5000).is_none());
    assert!(check_syn_cookie(secret, (ME, 81), remote, 1000, cookie, 5000).is_none());
    assert!(check_syn_cookie(secret, local, (PEER, 0x9999), 1000, cookie, 5000).is_none());
    assert!(check_syn_cookie(secret, local, remote, 1001, cookie, 5000).is_none());
    assert!(check_syn_cookie(secret, local, remote, 1000, cookie ^ 1, 5000).is_none());
}

#[test]
fn syn_cookie_expires() {
    let secret = 0xabcd_1234;
    let (local, remote) = ((ME, 80), (PEER, 0x1234));
    let cookie = syn_cookie(secret, local, remote, 1000, 1460, 0);
    // Valid now and a tick later…
    assert!(check_syn_cookie(secret, local, remote, 1000, cookie, 0).is_some());
    assert!(check_syn_cookie(secret, local, remote, 1000, cookie, COOKIE_TICK_MS).is_some());
    // …but a cookie many ticks old no longer validates.
    assert!(check_syn_cookie(secret, local, remote, 1000, cookie, 10 * COOKIE_TICK_MS).is_none());
}

#[test]
fn from_syn_cookie_builds_established_connection() {
    // The cookie SYN-ACK used ISS = cookie (ack = peer_isn+1); the client's final ACK
    // (seq = peer_isn+1, ack = cookie+1) reconstructs an ESTABLISHED connection with no TCB
    // having existed in between.
    let cookie = 0x5000_0000u32;
    let peer_isn = 100u32;
    let mut conn = Connection::from_syn_cookie((ME, 80), (PEER, 0x1234), peer_isn, cookie, 1460, 0);
    assert_eq!(conn.state(), State::Established);
    assert_eq!(conn.snd_nxt(), cookie.wrapping_add(1)); // the SYN-ACK consumed the cookie
    assert_eq!(conn.rcv_nxt(), peer_isn.wrapping_add(1));
    // It behaves like any established connection: data is delivered and acknowledged.
    let data = TcpHeader {
        src_port: 0x1234, dst_port: 80, seq: peer_isn + 1, ack: cookie.wrapping_add(1),
        data_offset: 20, flags: PSH | ACK, window: 0xffff,
    };
    let ack = conn.on_packet(&data, b"hi").expect("an ACK");
    assert_eq!(parse(&ack[20..]).unwrap().ack, peer_isn + 3); // the 2 bytes delivered
    assert_eq!(conn.take_received(), b"hi");
}

// BBR congestion control wired into the connection

#[test]
fn use_bbr_selects_model_based_control_and_keeps_the_connection_working() {
    let cookie = 0x5000_0000u32;
    let peer_isn = 100u32;
    let mut conn = Connection::from_syn_cookie((ME, 80), (PEER, 0x1234), peer_isn, cookie, 1460, 0);
    conn.use_bbr();
    // BBR starts at its 4-segment floor, not CUBIC's 1·MSS — proof the controller was swapped.
    assert_eq!(conn.cwnd(), 4 * MSS);
    assert!(!conn.in_recovery()); // BBR has no Reno fast-recovery episode
    // The connection still delivers and acknowledges data with BBR driving the window.
    let data = TcpHeader {
        src_port: 0x1234, dst_port: 80, seq: peer_isn + 1, ack: cookie.wrapping_add(1),
        data_offset: 20, flags: PSH | ACK, window: 0xffff,
    };
    let ack = conn.on_packet(&data, b"hi").expect("an ACK");
    assert_eq!(parse(&ack[20..]).unwrap().ack, peer_isn + 3);
    assert_eq!(conn.take_received(), b"hi");
}

#[test]
fn bbr_paces_new_data_by_the_modelled_rate() {
    // Establish a BBR connection, teach it a bottleneck bandwidth via timed ACKs, then show that
    // transmission is spread by the *clock* (the pacing rate), not just gated by the window.
    let cookie = 0x5000_0000u32;
    let peer_isn = 100u32;
    let mut conn = Connection::from_syn_cookie((ME, 80), (PEER, 0x1234), peer_isn, cookie, 1460, 0);
    conn.use_bbr();
    let mk_ack = |ack: u32| TcpHeader {
        src_port: 0x1234, dst_port: 80, seq: peer_isn + 1, ack,
        data_offset: 20, flags: ACK, window: 0xffff,
    };
    conn.write(&vec![0u8; 60 * 1460]); // plenty of data so the buffer never empties

    // Pump send/ACK rounds, advancing the clock, so BBR's delivery-rate filter learns a BtlBw and
    // its pacing rate becomes positive (each ACK opens the window and feeds a delivery sample).
    let mut t = 0u64;
    for _ in 0..10 {
        t += 10;
        conn.poll_transmit(t);
        let nxt = conn.snd_nxt();
        // on_segment (not the fixed-clock on_packet helper) so each ACK carries the advancing
        // time — that's what gives BBR a non-zero delivery interval to estimate bandwidth from.
        conn.on_segment(&mk_ack(nxt), &[], &TcpOptions::default(), t);
    }
    assert!(!conn.pacing_rate_bps().is_zero(), "BBR learned a pacing rate from the delivery samples");

    // Two polls at the SAME instant: the first releases a segment and arms the pacing clock; the
    // second is held back — even though the window and the send buffer both still allow more.
    t += 50;
    let first = conn.poll_transmit(t).len();
    let second = conn.poll_transmit(t).len();
    assert!(first >= 1, "a paced segment is released when the clock allows");
    assert_eq!(second, 0, "the next segment is held until the pacing clock advances");
    assert!(!conn.send_buffer_empty(), "data remains — so it's pacing, not an empty buffer/window");

    // Advancing the clock past the pacing deadline releases more data.
    assert!(!conn.poll_transmit(t + 100_000).is_empty(), "advancing the clock lets paced data flow");
}

// What is built is read back

#[test]
fn flags_have_names() {
    assert_eq!(flags_str(SYN | ACK), "SYN ACK");
    assert_eq!(flags_str(FIN | PSH | ACK), "ACK FIN PSH");
    assert_eq!(flags_str(RST), "RST");
    assert_eq!(flags_str(0x20), "URG");
    assert_eq!(flags_str(0), "");
}

#[test]
fn our_syn_is_read_back() {
    let (_conn, syn) = Connection::connect_with_iss((ME, 50000), (PEER, 80), 7, 1234);
    let arrival = parse_datagram(&syn).expect("a segment");
    assert_eq!(arrival.quad.remote, (ME, 50000));
    assert_eq!(arrival.quad.local, (PEER, 80));
    assert_eq!(arrival.th.flags, SYN);
    assert_eq!(arrival.th.seq, 7);
    assert_eq!(arrival.th.window, 1024);
    assert!(arrival.payload.is_empty());
    assert_eq!(
        arrival.opts,
        TcpOptions {
            mss: Some(1460),
            timestamps: Some((1234, 0)),
            window_scale: Some(0),
            sack_permitted: true,
            ..Default::default()
        }
    );
    assert_eq!(utils::checksum(&syn[..20]), 0);
    assert_eq!(tcp_checksum(ME, PEER, &syn[20..]), 0);
}

#[test]
fn only_tcp_datagrams_hold_segments() {
    let (_conn, syn) = Connection::connect_with_iss((ME, 50000), (PEER, 80), 7, 0);
    let mut other = syn.clone();
    other[9] = 17;
    assert!(parse_datagram(&other).is_none());
    assert!(parse_datagram(&syn[..30]).is_none());
    assert!(parse_datagram(&[]).is_none());
}

#[test]
fn resets_acknowledge_what_they_refuse() {
    let th = TcpHeader {
        src_port: 0x1234, dst_port: 80, seq: 500, ack: 9,
        data_offset: 20, flags: SYN | FIN, window: 0,
    };
    // Three bytes of data, a SYN and a FIN: five numbers.
    let rst = build_rst(PEER, ME, &th, 3);
    let h = parse(&rst[20..]).unwrap();
    assert_eq!((h.flags, h.seq, h.ack), (RST | ACK, 0, 505));
    assert_eq!((h.src_port, h.dst_port), (80, 0x1234));
    assert_eq!(tcp_checksum(ME, PEER, &rst[20..]), 0);
}

#[test]
fn a_cookie_rides_in_the_synack() {
    let th = parse(&syn_segment()).unwrap();
    let synack = build_syn_cookie_synack(PEER, ME, &th, 0xdead_beef);
    let h = parse(&synack[20..]).unwrap();
    assert_eq!((h.flags, h.seq, h.ack), (SYN | ACK, 0xdead_beef, 101));
    assert_eq!(parse_options(&synack[40..20 + h.data_offset]).mss, Some(OUR_MSS));
    assert_eq!(tcp_checksum(ME, PEER, &synack[20..]), 0);
}

#[test]
fn cookies_never_promise_more_than_was_advertised() {
    let (local, remote) = ((ME, 80), (PEER, 0x1234));
    for mss in [536u16, 600, 1220, 1300, 1440, 1460, 9000] {
        let cookie = syn_cookie(99, local, remote, 1, mss, 0);
        let back = check_syn_cookie(99, local, remote, 1, cookie, 0).unwrap();
        assert!(back <= mss);
    }
}

#[test]
fn initial_sequence_numbers_vary() {
    let th = parse(&syn_segment()).unwrap();
    let mut seen: Vec<u32> = Vec::new();
    for _ in 0..8 {
        let (_c, synack) =
            Connection::accept(PEER, ME, &th, &TcpOptions::default(), 0).expect("a SYN-ACK");
        seen.push(parse(&synack[20..]).unwrap().seq);
        let (_c, syn) = Connection::connect((ME, 50000), (PEER, 80), 0);
        seen.push(parse(&syn[20..]).unwrap().seq);
    }
    seen.sort();
    seen.dedup();
    assert!(seen.len() > 1, "sixteen equal draws");
}

// Laws on concrete values

#[test]
fn only_a_syn_opens_a_connection() {
    let th = TcpHeader {
        src_port: 0x1234, dst_port: 80, seq: 100, ack: 0,
        data_offset: 20, flags: ACK, window: 0xffff,
    };
    assert!(Connection::accept_with_iss(PEER, ME, &th, 0).is_none());
}

#[test]
fn a_simultaneous_close_ends_in_time_wait() {
    let mut conn = established_conn();
    conn.close(0).expect("our FIN");
    // The peer's FIN crosses ours: it does not acknowledge it.
    let ack = conn.on_packet_at(&peer_fin_segment(), &[], 5).expect("an ACK of their FIN");
    assert_eq!(conn.state(), State::Closing);
    assert_eq!(parse(&ack[20..]).unwrap().ack, 102);
    let last = TcpHeader {
        src_port: 0x1234, dst_port: 80, seq: 102, ack: 2,
        data_offset: 20, flags: ACK, window: 0xffff,
    };
    assert!(conn.on_packet_at(&last, &[], 10).is_none());
    assert_eq!(conn.state(), State::TimeWait);
    conn.on_tick(240_009);
    assert_eq!(conn.state(), State::TimeWait);
    conn.on_tick(240_010);
    assert_eq!(conn.state(), State::Closed);
}

#[test]
fn data_arrives_after_our_half_close() {
    let mut conn = established_conn();
    conn.close(0).expect("our FIN");
    let data = TcpHeader {
        src_port: 0x1234, dst_port: 80, seq: 101, ack: 2,
        data_offset: 20, flags: PSH | ACK, window: 0xffff,
    };
    let ack = conn.on_packet_at(&data, b"late", 1).expect("an ACK");
    assert_eq!(conn.state(), State::FinWait2);
    assert_eq!(parse(&ack[20..]).unwrap().ack, 105);
    assert_eq!(conn.take_received(), b"late");
    conn.write(b"x");
    assert!(conn.poll_transmit(2).is_empty(), "our side is closed");
}

#[test]
fn a_syn_sent_connection_ignores_foreign_numbers() {
    let (mut conn, _syn) = Connection::connect_with_iss((ME, 50000), (PEER, 80), 0, 0);
    let forged = TcpHeader {
        src_port: 80, dst_port: 50000, seq: 900, ack: 77,
        data_offset: 20, flags: SYN | ACK, window: 0xffff,
    };
    assert!(conn.on_packet(&forged, &[]).is_none());
    assert_eq!(conn.state(), State::SynSent);
}

#[test]
fn the_challenge_budget_refills_with_time() {
    let mut conn = established_conn();
    let rst = TcpHeader {
        src_port: 0x1234, dst_port: 80, seq: 300, ack: 1,
        data_offset: 20, flags: RST, window: 0,
    };
    while conn.on_packet_at(&rst, &[], 10).is_some() {}
    assert!(conn.on_packet_at(&rst, &[], 999).is_none());
    assert!(conn.on_packet_at(&rst, &[], 1_000).is_some());
}

#[test]
fn flight_stays_inside_the_peers_window() {
    let mut conn = established_conn();
    let narrow = TcpHeader {
        src_port: 0x1234, dst_port: 80, seq: 101, ack: 1,
        data_offset: 20, flags: ACK, window: 100,
    };
    conn.on_packet_at(&narrow, &[], 0);
    conn.set_nodelay(true);
    assert_eq!(conn.usable_window(), 100);
    conn.write(&[7u8; 250]);
    let out = conn.poll_transmit(0);
    assert_eq!(out.iter().map(|p| payload_of(p).len()).sum::<usize>(), 100);
    assert_eq!(conn.usable_window(), 0);
    assert!(conn.poll_transmit(0).is_empty());
    assert!(!conn.send_buffer_empty());
}

#[test]
fn timeouts_back_off_exponentially() {
    let th = parse(&syn_segment()).unwrap();
    let (mut conn, synack) = Connection::accept_with_iss(PEER, ME, &th, 0).unwrap();
    assert_eq!(conn.on_tick(200), vec![synack.clone()]);
    assert_eq!(conn.rto(), 400);
    assert!(conn.on_tick(599).is_empty());
    assert_eq!(conn.on_tick(600), vec![synack.clone()]);
    assert_eq!(conn.rto(), 800);
}

#[test]
fn sacked_data_is_not_resent_on_timeout() {
    let mut q = RetxQueue::new();
    q.record(0, 10, vec![1], 0);
    q.record(10, 20, vec![2], 0);
    q.mark_sacked(&[(10, 20)]);
    assert_eq!(q.retransmit_last(5), Some(vec![1]));
    assert_eq!(q.due(1_000, 100), vec![vec![1u8]]);
    // Retransmitted once: no RTT sample for it; the SACKed one was sent once.
    assert_eq!(q.ack(10, 1_100), None);
    assert_eq!(q.ack(20, 1_100), Some(1_100));
}

fn plain(seq: u32, ack: u32, flags: u8, window: u16) -> TcpHeader {
    TcpHeader { src_port: 0x1234, dst_port: 80, seq, ack, data_offset: 20, flags, window }
}

#[test]
fn a_segment_that_acks_unsent_data_is_not_acted_on() {
    let none = TcpOptions::default();
    let (mut c, _) =
        Connection::accept_with_iss_at(PEER, ME, &plain(100, 0, SYN, 0xffff), &none, 0, 0).unwrap();
    c.on_segment(&plain(101, 1, ACK, 0xffff), &[], &none, 0);
    assert_eq!(c.usable_window(), 1460);
    // Neither its window nor its data is taken in.
    let chal = c.on_segment(&plain(101, 5000, ACK, 0), b"evil", &none, 0).expect("a challenge ACK");
    let h = parse(&chal[20..]).unwrap();
    assert_eq!((h.flags, h.seq, h.ack), (ACK, 1, 101));
    assert_eq!(c.state(), State::Established);
    assert_eq!(c.usable_window(), 1460);
    assert!(c.take_received().is_empty());
    // The peer's own segments still count.
    c.on_segment(&plain(101, 1, ACK, 700), b"good", &none, 0);
    assert_eq!(c.usable_window(), 700);
    assert_eq!(c.take_received(), b"good");
}

#[test]
fn a_forged_timestamp_does_not_make_genuine_segments_stale() {
    let mut syn_opts = TcpOptions::default();
    syn_opts.timestamps = Some((1_000, 0));
    let (mut c, _) =
        Connection::accept_with_iss_at(PEER, ME, &plain(100, 0, SYN, 0xffff), &syn_opts, 0, 0)
            .unwrap();
    let mut opts = TcpOptions::default();
    opts.timestamps = Some((1_001, 0));
    c.on_segment(&plain(101, 1, ACK, 0xffff), &[], &opts, 0);
    let mut forged = TcpOptions::default();
    forged.timestamps = Some((1_000_000, 0));
    c.on_segment(&plain(101, 5000, ACK, 0xffff), &[], &forged, 1);
    opts.timestamps = Some((1_002, 0));
    c.on_segment(&plain(101, 1, ACK, 0xffff), b"still here", &opts, 2);
    assert_eq!(c.take_received(), b"still here");
}

#[test]
fn pieces_in_any_order_are_read_as_the_stream() {
    let stream = b"0123456789abcdefghij";
    let pieces: [(usize, usize); 4] = [(0, 3), (3, 9), (9, 10), (10, 20)];
    for order in [[3, 2, 1, 0], [1, 0, 3, 2], [2, 3, 0, 1]] {
        let mut c = established_conn();
        let mut read: Vec<u8> = Vec::new();
        let mut there = [false; 20];
        for i in order {
            let (lo, hi) = pieces[i];
            there[lo..hi].fill(true);
            let ack = c
                .on_packet(&plain(101 + lo as u32, 1, PSH | ACK, 0x4321), &stream[lo..hi])
                .expect("an ACK");
            read.extend(c.take_received());
            let prefix = there.iter().take_while(|x| **x).count();
            assert_eq!(read, &stream[..prefix]);
            let h = parse(&ack[20..]).unwrap();
            assert_eq!((h.flags, h.ack, h.window), (ACK, 101 + prefix as u32, 1024));
            assert!(payload_of(&ack).is_empty());
        }
        assert_eq!(read, stream);
    }
}

#[test]
fn resets_count_only_exactly_at_the_next_number() {
    // At RCV.NXT: closed, no answer.
    let mut c = established_conn();
    assert!(c.on_packet(&plain(101, 0, RST, 0), &[]).is_none());
    assert_eq!(c.state(), State::Closed);
    // Elsewhere inside the window: challenged; outside: ignored.
    let mut c = established_conn();
    assert!(c.on_packet(&plain(102, 0, RST, 0), &[]).is_some());
    let mut c = established_conn();
    assert!(c.on_packet(&plain(101 + 1023, 0, RST, 0), &[]).is_some());
    for seq in [101 + 1024, 100, 0x9000_0000] {
        let mut c = established_conn();
        assert!(c.on_packet(&plain(seq, 0, RST, 0), &[]).is_none());
        assert_eq!(c.state(), State::Established);
    }
    // SYN_SENT: only with an ACK of our SYN.
    for (ack, flags, closes) in [(8, RST | ACK, true), (9, RST | ACK, false), (8, RST, false)] {
        let (mut c, _) = Connection::connect_with_iss((ME, 80), (PEER, 0x1234), 7, 0);
        assert!(c.on_packet(&plain(0, ack, flags, 0), &[]).is_none());
        assert_eq!(c.state() == State::Closed, closes);
    }
    // SYN_RCVD: at RCV.NXT.
    let th = parse(&syn_segment()).unwrap();
    let (mut c, _) = Connection::accept_with_iss(PEER, ME, &th, 0).unwrap();
    assert!(c.on_packet(&plain(101, 0, RST, 0), &[]).is_none());
    assert_eq!(c.state(), State::Closed);
}

#[test]
fn a_refilled_budget_is_spent_first() {
    let mut c = established_conn();
    for round in 1..4u64 {
        let now = round * 1_000;
        let answers: Vec<bool> = (0..20)
            .map(|k| {
                let th = match k % 3 {
                    0 => plain(300, 0, RST, 0),
                    1 => plain(0, 0, SYN, 0),
                    _ => plain(101, 9_999, ACK, 0),
                };
                c.on_packet_at(&th, &[], now + k).is_some()
            })
            .collect();
        let sent = answers.iter().filter(|a| **a).count();
        assert!(1 <= sent && sent <= CHALLENGE_ACK_MAX as usize);
        assert!(answers[..sent].iter().all(|a| *a));
        assert_eq!((c.state(), c.snd_nxt(), c.rcv_nxt()), (State::Established, 1, 101));
    }
}

#[test]
fn a_tick_closes_only_what_is_over() {
    // Established, without keepalive: never.
    let mut c = established_conn();
    assert!(c.on_tick(1_000_000_000).is_empty());
    assert_eq!(c.state(), State::Established);
    // With keepalive: after three unanswered probes and 75 seconds.
    let mut c = established_conn();
    c.set_keepalive(true);
    for t in [60_000, 65_000, 70_000] {
        assert_eq!(c.on_tick(t).len(), 1);
    }
    assert!(c.on_tick(74_999).is_empty());
    assert_eq!(c.state(), State::Established);
    assert!(c.on_tick(75_000).is_empty());
    assert_eq!(c.state(), State::Closed);
    // CLOSE_WAIT: after two minutes of silence.
    let mut c = established_conn();
    c.on_packet(&plain(101, 1, FIN | ACK, 0xffff), &[]);
    c.on_tick(119_999);
    assert_eq!(c.state(), State::CloseWait);
    c.on_tick(120_000);
    assert_eq!(c.state(), State::Closed);
}

#[test]
fn losses_are_resent_in_ascending_order() {
    let mut q = RetxQueue::new();
    for i in 0..6u32 {
        q.record(i * 100, i * 100 + 100 - i, vec![i as u8], 0);
    }
    q.mark_sacked(&[(300, 397), (400, 496), (500, 595)]);
    assert_eq!(q.pipe(3), 0);
    for (packet, pipe) in [(0u8, 100), (1, 199), (2, 297)] {
        assert_eq!(q.next_lost_retransmit(3, 10), Some(vec![packet]));
        assert_eq!(q.pipe(3), pipe);
    }
    assert_eq!(q.next_lost_retransmit(3, 10), None);
}

#[test]
fn an_old_ack_is_judged_with_the_window_it_brings() {
    let none = TcpOptions::default();
    let cookie = 0x5000_0000u32;
    let una = cookie + 1;
    let fresh =
        || Connection::from_syn_cookie((ME, 80), (PEER, 0x1234), 100, cookie, 1460, 0);
    // 2000 below SND.UNA: too old for the windows seen so far, but not for its own.
    let mut c = fresh();
    let ack = c.on_segment(&plain(101, una - 2_000, ACK, 0xffff), b"hi", &none, 0).expect("an ACK");
    assert_eq!(parse(&ack[20..]).unwrap().ack, 103);
    assert_eq!(c.take_received(), b"hi");
    // With a small window it is challenged and dropped, its window not taken in.
    let mut c = fresh();
    let before = c.usable_window();
    let chal = c.on_segment(&plain(101, una - 2_000, ACK, 7), b"hi", &none, 0).expect("a challenge");
    assert_eq!(parse(&chal[20..]).unwrap().ack, 101);
    assert!(c.take_received().is_empty());
    assert_eq!(c.usable_window(), before);
    // The edge: exactly the widest window below is still acceptable, one more is not.
    let mut c = fresh();
    c.on_segment(&plain(101, una - 2_000, ACK, 2_000), b"hi", &none, 0);
    assert_eq!(c.take_received(), b"hi");
    let mut c = fresh();
    c.on_segment(&plain(101, una - 2_001, ACK, 2_000), b"hi", &none, 0);
    assert!(c.take_received().is_empty());
}
