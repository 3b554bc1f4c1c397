//! Two ends of a connection over an in-memory link.
use std::collections::VecDeque;

use tcp_stack::addr::Ipv4Addr;
use tcp_stack::socket::{ReadStep, TcpListener, TcpServer, TcpStream};
use tcp_stack::tcp::{parse, State, RST};

/// Packets on their way in each direction.
#[derive(Default)]
struct Link {
    to_server: VecDeque<Vec<u8>>,
    to_client: VecDeque<Vec<u8>>,
}

impl Link {
    fn poll_client(&mut self, client: &mut TcpStream, t: u64) {
        let inbox: Vec<Vec<u8>> = self.to_client.drain(..).collect();
        self.to_server.extend(client.poll(&inbox, t));
    }

    fn poll_server(&mut self, server: &mut TcpStream, t: u64) {
        let inbox: Vec<Vec<u8>> = self.to_server.drain(..).collect();
        self.to_client.extend(server.poll(&inbox, t));
    }

    /// Offer waiting packets to the listener until one opens a connection.
    fn poll_accept(&mut self, listener: &mut TcpListener, t: u64) -> Option<TcpStream> {
        while let Some(packet) = self.to_server.pop_front() {
            if let Some((stream, synack)) = listener.poll_accept(&packet, t) {
                self.to_client.push_back(synack);
                return Some(stream);
            }
        }
        None
    }
}

/// Connect a client to a listener and drive both ends until the handshake completes.
fn connected(client_port: u16) -> (Link, TcpStream, TcpStream) {
    let server_addr = (Ipv4Addr::new(192, 168, 0, 2), 80);
    let client_addr = (Ipv4Addr::new(192, 168, 0, 1), client_port);
    let mut link = Link::default();
    let mut listener = TcpListener::bind(server_addr);
    let (mut client, syn) = TcpStream::connect(client_addr, server_addr, 0);
    link.to_server.push_back(syn);
    let mut server: Option<TcpStream> = None;
    for t in 0..50u64 {
        if server.is_none() {
            server = link.poll_accept(&mut listener, t);
        }
        link.poll_client(&mut client, t);
        if let Some(s) = server.as_mut() {
            link.poll_server(s, t);
        }
        if client.established() && server.as_ref().is_some_and(|s| s.established()) {
            break;
        }
    }
    (link, client, server.expect("server accepted a connection"))
}

#[test]
fn loopback_handshake_transfer_and_close() {
    let (mut link, mut client, mut server) = connected(40000);
    assert!(client.established(), "client reached ESTABLISHED");
    assert!(server.established(), "server reached ESTABLISHED");

    // Client to server.
    client.feed(b"hello over a hand-rolled TCP");
    for t in 50..80u64 {
        link.poll_client(&mut client, t);
        link.poll_server(&mut server, t);
    }
    assert_eq!(server.recv_all(), b"hello over a hand-rolled TCP");

    // Server to client, the reverse direction of the same connection.
    server.feed(b"and hello back");
    for t in 80..110u64 {
        link.poll_server(&mut server, t);
        link.poll_client(&mut client, t);
    }
    assert_eq!(client.recv_all(), b"and hello back");

    // The client closes its send side; the server sees the end of the stream.
    let fin = client.close(110).unwrap();
    link.to_server.push_back(fin);
    for t in 110..160u64 {
        link.poll_client(&mut client, t);
        link.poll_server(&mut server, t);
    }
    assert!(server.peer_closed(), "server saw the client's FIN (EOF)");
    assert_eq!(server.state(), State::CloseWait);
    assert_eq!(client.state(), State::FinWait2);

    // The server closes its half and the four-way teardown completes.
    let fin = server.close(160).unwrap();
    link.to_client.push_back(fin);
    for t in 160..400u64 {
        link.poll_client(&mut client, t);
        link.poll_server(&mut server, t);
    }
    assert_eq!(client.state(), State::TimeWait);
    assert_eq!(server.state(), State::Closed);
}

#[test]
fn loopback_half_close_then_server_replies() {
    let (mut link, mut client, mut server) = connected(40001);

    client.feed(b"request");
    for t in 50..70u64 {
        link.poll_client(&mut client, t);
        link.poll_server(&mut server, t);
    }
    let fin = client.close(70).unwrap();
    link.to_server.push_back(fin);
    for t in 70..100u64 {
        link.poll_client(&mut client, t);
        link.poll_server(&mut server, t);
    }
    assert_eq!(server.recv_all(), b"request");
    assert!(server.peer_closed());

    // The server is in CLOSE_WAIT but may still send.
    server.feed(b"a reply after your FIN");
    for t in 100..140u64 {
        link.poll_server(&mut server, t);
        link.poll_client(&mut client, t);
    }
    assert_eq!(client.recv_all(), b"a reply after your FIN");
}

const SERVER: (Ipv4Addr, u16) = (Ipv4Addr { a: 192, b: 168, c: 0, d: 2 }, 80);

fn client_at(port: u16) -> (Ipv4Addr, u16) {
    (Ipv4Addr::new(192, 168, 0, 1), port)
}

/// Exchange packets between a server and one client until both are quiet.
fn exchange(server: &mut TcpServer, client: &mut TcpStream, first: Vec<Vec<u8>>, t: u64) {
    let mut to_server = first;
    for _ in 0..20 {
        let mut to_client: Vec<Vec<u8>> = Vec::new();
        for p in &to_server {
            to_client.extend(server.on_datagram(p, t));
        }
        to_client.extend(server.poll(t));
        to_server = client.poll(&to_client, t);
        if to_server.is_empty() {
            break;
        }
    }
}

#[test]
fn a_server_keeps_its_connections_apart() {
    let mut server = TcpServer::bind(SERVER);
    let (mut a, syn_a) = TcpStream::connect(client_at(5001), SERVER, 0);
    let (mut b, syn_b) = TcpStream::connect(client_at(5002), SERVER, 0);
    exchange(&mut server, &mut a, vec![syn_a], 1);
    exchange(&mut server, &mut b, vec![syn_b], 1);
    assert!(a.established() && b.established());
    assert_eq!(server.len(), 2);
    let quads = server.quads();
    assert_eq!(quads[0].remote, client_at(5001));
    assert_eq!(quads[1].remote, client_at(5002));

    a.feed(b"from a");
    b.feed(b"from b");
    let out_a = a.poll_transmit(2);
    let out_b = b.poll_transmit(2);
    exchange(&mut server, &mut a, out_a, 2);
    exchange(&mut server, &mut b, out_b, 2);
    assert_eq!(server.recv_all(quads[0]), Some(b"from a".to_vec()));
    assert_eq!(server.recv_all(quads[1]), Some(b"from b".to_vec()));

    assert!(server.feed(quads[1], b"to b"));
    exchange(&mut server, &mut b, Vec::new(), 3);
    exchange(&mut server, &mut a, Vec::new(), 3);
    assert_eq!(b.recv_all(), b"to b");
    assert_eq!(a.recv_all(), b"");

    let fin = server.close(quads[0], 4).expect("a FIN");
    let reply = a.poll(&vec![fin], 4);
    exchange(&mut server, &mut a, reply, 4);
    assert!(a.peer_closed());
    assert!(!b.peer_closed());
}

#[test]
fn a_server_resets_strangers_and_ignores_other_ports() {
    let mut server = TcpServer::bind(SERVER);
    let (mut client, syn) = TcpStream::connect(client_at(5001), SERVER, 0);
    // A data segment of a connection the server never saw.
    exchange(&mut server, &mut client, vec![syn], 1);
    client.feed(b"hi");
    let stray = client.poll_transmit(2).remove(0);
    let mut other = TcpServer::bind(SERVER);
    let rst = other.on_datagram(&stray, 3).expect("a RST");
    assert_eq!(parse(&rst[20..]).unwrap().flags, RST);
    assert_eq!(other.len(), 0);
    let unknown = server.quads()[0];
    assert_eq!(other.recv_all(unknown), None);
    assert!(!other.feed(unknown, b"x"));
    assert!(other.close(unknown, 3).is_none());

    let (_c, elsewhere) = TcpStream::connect(client_at(5003), (SERVER.0, 81), 0);
    assert!(other.on_datagram(&elsewhere, 3).is_none());
    assert_eq!(other.len(), 0);
}

#[test]
fn reading_takes_no_more_than_asked() {
    let (mut link, mut client, mut server) = connected(40002);
    client.feed(b"abcdef");
    for t in 50..60u64 {
        link.poll_client(&mut client, t);
        link.poll_server(&mut server, t);
    }
    assert_eq!(server.recv_some(4), b"abcd");
    assert_eq!(server.recv_some(4), b"ef");
    assert_eq!(server.recv_some(4), b"");
}

#[test]
fn a_read_waits_then_yields_then_ends() {
    let (mut link, mut client, mut server) = connected(40003);
    assert!(matches!(server.try_read(10), ReadStep::Wait));
    client.feed(b"abc");
    for t in 50..60u64 {
        link.poll_client(&mut client, t);
        link.poll_server(&mut server, t);
    }
    let fin = client.close(60).unwrap();
    link.to_server.push_back(fin);
    link.poll_server(&mut server, 60);
    assert!(matches!(server.try_read(2), ReadStep::Data(d) if d == b"ab"));
    assert!(matches!(server.try_read(2), ReadStep::Data(d) if d == b"c"));
    assert!(matches!(server.try_read(2), ReadStep::Eof));
}

#[test]
fn a_listener_takes_the_first_syn_that_is_ours() {
    let here = (Ipv4Addr::new(192, 168, 0, 2), 80);
    let there = (Ipv4Addr::new(192, 168, 0, 1), 4000);
    let (_, other) = TcpStream::connect(there, (here.0, 81), 0);
    let (mut client, ours) = TcpStream::connect(there, here, 0);
    let (_, late) = TcpStream::connect((there.0, 4001), here, 0);
    let mut listener = TcpListener::bind(here);
    assert!(listener.poll_accept(&[0x45; 10], 1).is_none());
    assert!(listener.poll_accept(&other, 2).is_none());
    let (stream, synack) = listener.poll_accept_drawn(&ours, 3, 77, 0).expect("a stream");
    assert_eq!(stream.state(), State::SynRcvd);
    assert_eq!(&synack[16..20], &[192, 168, 0, 1]);
    let h = parse(&synack[20..]).unwrap();
    assert_eq!((h.dst_port, h.seq), (4000, 77));
    assert_eq!(h.ack, parse(&ours[20..]).unwrap().seq.wrapping_add(1));
    assert!(listener.poll_accept(&late, 4).is_none());
    assert!(listener.poll_accept(&ours, 5).is_none());
    client.poll(&vec![synack], 6);
    assert!(client.established());
}
