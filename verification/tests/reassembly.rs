//! Out-of-order reassembly.
use tcp_stack::reassembly::Reassembler;

const BASE: u32 = 1000;

#[test]
fn in_order_delivers_immediately() {
    let mut r = Reassembler::new(BASE);
    assert_eq!(r.recv(1000, b"abc", 1000), b"abc");
    assert_eq!(r.recv(1003, b"de", 1003), b"de");
    assert_eq!(r.buffered(), 0);
}

#[test]
fn buffers_out_of_order_then_fills_gap() {
    let mut r = Reassembler::new(BASE);
    // "de" arrives first (a gap precedes it) → buffered, nothing deliverable yet.
    assert_eq!(r.recv(1003, b"de", 1000), b"");
    assert_eq!(r.buffered(), 1);
    // The gap-filler arrives → both flush in order.
    assert_eq!(r.recv(1000, b"abc", 1000), b"abcde");
    assert_eq!(r.buffered(), 0);
}

#[test]
fn drops_duplicate_already_delivered() {
    let mut r = Reassembler::new(BASE);
    assert_eq!(r.recv(1000, b"abc", 1000), b"abc");
    // RCV.NXT is now 1003; re-receiving "abc" yields nothing.
    assert_eq!(r.recv(1000, b"abc", 1003), b"");
}

#[test]
fn trims_partial_overlap_with_delivered() {
    let mut r = Reassembler::new(BASE);
    assert_eq!(r.recv(1000, b"abc", 1000), b"abc"); // RCV.NXT → 1003
    // A segment 1001.."bcXY" overlaps delivered "bc"; only the new "XY" tail is delivered.
    assert_eq!(r.recv(1001, b"bcXY", 1003), b"XY");
}

#[test]
fn multiple_gaps_fill_in_any_order() {
    let mut r = Reassembler::new(BASE);
    assert_eq!(r.recv(1006, b"gh", 1000), b""); // offset 6, buffered
    assert_eq!(r.recv(1003, b"def", 1000), b""); // offset 3, buffered (gap at 0 remains)
    assert_eq!(r.buffered(), 2);
    assert_eq!(r.recv(1000, b"abc", 1000), b"abcdefgh"); // fills the head → all flush
    assert_eq!(r.buffered(), 0);
}

#[test]
fn discards_data_far_outside_window() {
    let mut r = Reassembler::new(BASE);
    // Offset ~100k, well past MAX_AHEAD → dropped, not buffered.
    assert_eq!(r.recv(1000 + (1 << 17), b"zz", 1000), b"");
    assert_eq!(r.buffered(), 0);
}

#[test]
fn sack_blocks_empty_when_in_order() {
    let mut r = Reassembler::new(BASE);
    assert_eq!(r.recv(1000, b"abc", 1000), b"abc"); // delivered in order, nothing buffered
    assert!(r.sack_blocks().is_empty());
}

#[test]
fn sack_blocks_reports_disjoint_buffered_ranges() {
    let mut r = Reassembler::new(BASE);
    assert_eq!(r.recv(1003, b"de", 1000), b""); // gap at [1000,1003): buffer [1003,1005)
    assert_eq!(r.recv(1006, b"gh", 1000), b""); // another hole: buffer [1006,1008)
    // Two disjoint ranges → two SACK blocks, ascending, right edge exclusive (RFC 2018 §3).
    assert_eq!(r.sack_blocks(), vec![(1003, 1005), (1006, 1008)]);
}

#[test]
fn sack_blocks_coalesces_adjacent_fragments() {
    let mut r = Reassembler::new(BASE);
    assert_eq!(r.recv(1003, b"de", 1000), b""); //   [1003,1005)
    assert_eq!(r.recv(1005, b"fg", 1000), b""); //   [1005,1007) abuts the previous fragment
    // Adjacent fragments collapse into a single block — the SACK option stays compact.
    assert_eq!(r.sack_blocks(), vec![(1003, 1007)]);
}

#[test]
fn streams_cross_the_sequence_wrap() {
    let mut r = Reassembler::new(0xFFFF_FFFE);
    assert_eq!(r.recv(1, b"de", 0xFFFF_FFFE), b"");
    assert_eq!(r.sack_blocks(), vec![(1, 3)]);
    assert_eq!(r.recv(0xFFFF_FFFE, b"abc", 0xFFFF_FFFE), b"abcde");
    assert_eq!(r.buffered(), 0);
}

#[test]
fn any_order_of_segments_yields_the_stream() {
    let stream = b"the quick brown fox jumps over the lazy dog";
    let orders: [[usize; 4]; 4] = [[0, 1, 2, 3], [3, 2, 1, 0], [1, 3, 0, 2], [2, 0, 3, 1]];
    for order in orders {
        let mut r = Reassembler::new(BASE);
        let mut got: Vec<u8> = Vec::new();
        for i in order {
            let from = i * 11;
            let to = (from + 11).min(stream.len());
            let nxt = BASE + got.len() as u32;
            got.extend(r.recv(BASE + from as u32, &stream[from..to], nxt));
            assert_eq!(got, &stream[..got.len()]);
        }
        assert_eq!(got, stream);
    }
}

#[test]
fn data_exactly_at_the_horizon_is_kept() {
    let mut r = Reassembler::new(BASE);
    assert_eq!(r.recv(BASE + 65_536, b"z", BASE), b"");
    assert_eq!(r.buffered(), 1);
    assert_eq!(r.recv(BASE + 65_537, b"z", BASE), b"");
    assert_eq!(r.buffered(), 1);
}

#[test]
fn sack_blocks_begin_behind_the_next_number() {
    let mut r = Reassembler::new(BASE);
    let mut nxt = BASE;
    for (seq, data) in [(1009u32, &b"jk"[..]), (1003, b"d"), (1004, b"ef"), (1000, b"ab"), (1006, b"g")] {
        nxt += r.recv(seq, data, nxt).len() as u32;
        let blocks = r.sack_blocks();
        assert_eq!(blocks.is_empty(), r.buffered() == 0);
        assert!(blocks.len() <= r.buffered());
        assert!(blocks.iter().all(|b| nxt < b.0 && b.0 < b.1));
        assert!(blocks.windows(2).all(|w| w[0].1 < w[1].0));
    }
    assert_eq!(nxt, 1002);
    assert_eq!(r.sack_blocks(), vec![(1003, 1007), (1009, 1011)]);
}
