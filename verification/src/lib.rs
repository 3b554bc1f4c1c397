//! A userspace TCP/IP stack whose protocol logic is verified.
//!
//! Everything in this crate is a pure state machine: datagrams and the clock come in as plain
//! values, datagrams to send come out. The program around it owns the TUN device and the timer.
pub mod addr;
pub mod bbr;
pub mod congestion;
pub mod controller;
pub mod entropy;
pub mod http;
pub mod icmp;
pub mod ip;
pub mod rate;
pub mod reassembly;
pub mod rtt;
pub mod seq;
pub mod sessions;
pub mod socket;
pub mod stack;
pub mod table;
pub mod tcp;
pub mod udp;
pub mod utils;
pub mod wire;
