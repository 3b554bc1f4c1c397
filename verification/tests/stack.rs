//! The host as a whole: pings, UDP, and TCP clients of the echo and HTTP services.
use tcp_stack::addr::Ipv4Addr;
use tcp_stack::socket::TcpStream;
use tcp_stack::stack::Stack;
use tcp_stack::tcp::{parse, Quad, State, RST};
use tcp_stack::{ip, utils};

const HOST: (Ipv4Addr, u16) = (Ipv4Addr { a: 192, b: 168, c: 0, d: 2 }, 8080);

fn peer(port: u16) -> (Ipv4Addr, u16) {
    (Ipv4Addr::new(192, 168, 0, 1), port)
}

/// Exchange packets between the host and one client for a while.
fn run(stack: &mut Stack, client: &mut TcpStream, first: Vec<Vec<u8>>, from: u64, to: u64) {
    let mut to_stack = first;
    for t in from..to {
        let mut to_client = stack.on_tick(t);
        to_client.extend(stack.poll_transmit(t));
        for p in &to_stack {
            to_client.extend(stack.on_packet(p, t));
        }
        to_stack = client.poll(&to_client, t);
    }
    for p in &to_stack {
        stack.on_packet(p, to);
    }
}

fn connected(port: u16) -> (Stack, TcpStream, Quad) {
    let mut stack = Stack::new();
    let (mut client, syn) = TcpStream::connect(peer(port), HOST, 0);
    run(&mut stack, &mut client, vec![syn], 0, 10);
    let quad = Quad { remote: peer(port), local: HOST };
    assert!(client.established());
    assert_eq!(stack.state_of(&quad), Some(State::Established));
    (stack, client, quad)
}

fn ping() -> Vec<u8> {
    let mut p = vec![
        0x45, 0x00, 0x00, 0x54, 0xab, 0xcd, 0x40, 0x00, 0x40, 0x01, 0x00, 0x00, 0xc0, 0xa8, 0x00,
        0x01, 0xc0, 0xa8, 0x00, 0x02, 0x08, 0x00, 0x3f, 0x2a, 0x12, 0x34, 0x00, 0x01,
    ];
    p.resize(84, 0);
    ip::write_header_checksum(&mut p[..20]);
    p
}

#[test]
fn pings_are_answered() {
    let mut stack = Stack::new();
    let out = stack.on_packet(&ping(), 0);
    assert_eq!(out.len(), 1);
    assert_eq!(&out[0][12..20], &[192, 168, 0, 2, 192, 168, 0, 1]);
    assert_eq!(out[0][20], 0);
    assert_eq!(utils::checksum(&out[0][..20]), 0);
    assert_eq!(utils::checksum(&out[0][20..]), 0);
    assert_eq!(stack.len(), 0);
}

#[test]
fn udp_is_echoed() {
    let mut p = vec![
        0x45, 0x00, 0x00, 0x1e, 0x00, 0x00, 0x40, 0x00, 0x40, 0x11, 0x00, 0x00, 0xc0, 0xa8, 0x00,
        0x01, 0xc0, 0xa8, 0x00, 0x02, 0x12, 0x34, 0x00, 0x07, 0x00, 0x0a, 0x00, 0x00, 0x68, 0x69,
    ];
    ip::write_header_checksum(&mut p[..20]);
    let mut stack = Stack::new();
    let out = stack.on_packet(&p, 0);
    assert_eq!(out.len(), 1);
    assert_eq!(&out[0][20..24], &[0x00, 0x07, 0x12, 0x34]);
    assert_eq!(&out[0][28..], b"hi");
}

#[test]
fn garbage_is_dropped() {
    let mut stack = Stack::new();
    let mut corrupt = ping();
    corrupt[10] ^= 0xff;
    assert!(stack.on_packet(&corrupt, 0).is_empty());
    assert!(stack.on_packet(&[0x60; 40], 0).is_empty());
    assert!(stack.on_packet(&[], 0).is_empty());
    // An echo reply and an unknown protocol need no answer either.
    let mut reply = ping();
    reply[20] = 0;
    assert!(stack.on_packet(&reply, 0).is_empty());
    let mut other = ping();
    other[9] = 89;
    ip::write_header_checksum(&mut other[..20]);
    assert!(stack.on_packet(&other, 0).is_empty());
}

#[test]
fn raw_clients_get_their_bytes_back() {
    let (mut stack, mut client, quad) = connected(5001);
    client.feed(b"anyone there?\n");
    run(&mut stack, &mut client, Vec::new(), 10, 30);
    assert_eq!(client.recv_all(), b"anyone there?\n");
    assert_eq!(stack.state_of(&quad), Some(State::Established));
    // Accepted connections run the model-based controller.
    assert!(stack.pace_of(&quad).is_some());
}

#[test]
fn keep_alive_requests_are_served_until_close() {
    let (mut stack, mut client, quad) = connected(5002);
    client.feed(b"GET /a HTTP/1.1\r\n\r\nHEAD /b HTTP/1.1\r\n\r\nGET /c HT");
    run(&mut stack, &mut client, Vec::new(), 10, 60);
    let text = String::from_utf8(client.recv_all()).unwrap();
    assert_eq!(text.matches("HTTP/1.1 200 OK").count(), 2);
    assert_eq!(text.matches("Hello from").count(), 1);
    assert_eq!(stack.state_of(&quad), Some(State::Established));

    client.feed(b"TP/1.0\r\n\r\n");
    run(&mut stack, &mut client, Vec::new(), 60, 120);
    let text = String::from_utf8(client.recv_all()).unwrap();
    assert!(text.starts_with("HTTP/1.0 200 OK"));
    assert!(text.ends_with("from scratch in Rust!\n"));
    assert!(client.peer_closed());
    assert_eq!(stack.state_of(&quad), Some(State::FinWait2));
}

#[test]
fn malformed_requests_close_the_connection() {
    let (mut stack, mut client, quad) = connected(5003);
    client.feed(b"GET nonsense\r\n\r\n");
    run(&mut stack, &mut client, Vec::new(), 10, 60);
    assert_eq!(client.recv_all(), b"");
    assert!(client.peer_closed());
    assert_eq!(stack.state_of(&quad), Some(State::FinWait2));
}

#[test]
fn a_finished_connection_leaves_the_table() {
    let (mut stack, mut client, quad) = connected(5004);
    let fin = client.close(10).expect("a FIN");
    run(&mut stack, &mut client, vec![fin], 10, 60);
    assert_eq!(client.state(), State::TimeWait);
    assert_eq!(stack.state_of(&quad), None);
    assert_eq!(stack.len(), 0);
}

#[test]
fn strangers_are_reset() {
    let (_stack, mut client, _quad) = connected(5005);
    client.feed(b"hi");
    let stray = client.poll_transmit(11).remove(0);
    let mut other = Stack::new();
    let out = other.on_packet(&stray, 12);
    assert_eq!(out.len(), 1);
    let h = parse(&out[0][20..]).unwrap();
    assert_eq!(h.flags, RST);
    assert_eq!(h.seq, parse(&stray[20..]).unwrap().ack);
    assert_eq!(other.len(), 0);
}

#[test]
fn clients_are_served_side_by_side() {
    let (mut stack, mut a, quad_a) = connected(5006);
    let (mut b, syn) = TcpStream::connect(peer(5007), HOST, 10);
    run(&mut stack, &mut b, vec![syn], 10, 20);
    assert_eq!(stack.len(), 2);
    b.feed(b"for b");
    run(&mut stack, &mut b, Vec::new(), 20, 40);
    assert_eq!(b.recv_all(), b"for b");
    a.feed(b"for a");
    run(&mut stack, &mut a, Vec::new(), 40, 60);
    assert_eq!(a.recv_all(), b"for a");
    assert_eq!(stack.state_of(&quad_a), Some(State::Established));
}

#[test]
fn given_numbers_make_the_host_deterministic() {
    let (_client, syn) = TcpStream::connect(peer(5008), HOST, 0);
    let mut one = Stack::new();
    let mut two = Stack::new();
    let a = one.on_packet_drawn(&syn, 5, 77, 3);
    assert_eq!(a, two.on_packet_drawn(&syn, 5, 77, 3));
    assert_eq!(parse(&a[0][20..]).unwrap().seq, 77);
}

#[test]
fn the_clock_releases_what_pacing_held_back() {
    let (mut stack, mut client, quad) = connected(5009);
    let mut t = 10;
    for _ in 0..8 {
        client.feed(&[7u8; 600]);
        run(&mut stack, &mut client, Vec::new(), t, t + 20);
        t += 20;
    }
    client.recv_all();
    assert!(!stack.pace_of(&quad).unwrap().is_zero());
    let data = |p: &Vec<u8>| p.len() - 20 - parse(&p[20..]).unwrap().data_offset;
    // The first echo leaves at once and arms the pacing clock.
    client.feed(&[1u8; 300]);
    t += 100;
    let asks: Vec<Vec<u8>> = client.poll_transmit(t);
    assert_eq!(asks.iter().map(data).sum::<usize>(), 300);
    let echoed: Vec<Vec<u8>> = asks.iter().flat_map(|p| stack.on_packet(p, t)).collect();
    assert_eq!(echoed.iter().map(data).sum::<usize>(), 300);
    // It is acknowledged in the same instant, and the second echo is held back.
    client.feed(&[2u8; 300]);
    let asks = client.poll(&echoed, t);
    let held: Vec<Vec<u8>> = asks.iter().flat_map(|p| stack.on_packet(p, t)).collect();
    assert_eq!(held.iter().map(data).sum::<usize>(), 0);
    // Nothing more arrives. Timers have no part in it; the pacing clock alone releases it.
    assert!(stack.on_tick(t + 150).is_empty());
    let released = stack.poll_transmit(t + 150);
    assert_eq!(released.iter().map(data).sum::<usize>(), 300);
}
