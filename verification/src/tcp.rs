//! TCP (RFC 9293): wire formats, the retransmission queue, and the connection state machine.
pub mod arrival;
pub mod connection;
pub mod cookie;
pub mod delivery;
pub mod header;
pub mod laws;
pub mod model;
pub mod options;
pub mod packet;
pub mod recovery;
pub mod retx;
pub mod robustness;
pub mod schedule;
pub mod states;
pub mod teardown;
pub mod timers;
pub mod tracking;
pub mod wire;

pub use connection::Connection;
pub use cookie::{build_syn_cookie_synack, check_syn_cookie, syn_cookie, COOKIE_TICK_MS};
pub use header::{flags_str, parse, Quad, State, TcpHeader, ACK, FIN, PSH, RST, SYN, URG};
pub use model::{
    CHALLENGE_ACK_MAX, DEFAULT_SEND_MSS, KEEPALIVE_IDLE_MS, KEEPALIVE_INTVL_MS, KEEPALIVE_PROBES,
};
pub use options::{
    parse_options, TcpOptions, MAX_SACK_BLOCKS, MAX_WSCALE, OPT_END, OPT_MSS, OPT_NOP, OPT_SACK,
    OPT_SACK_PERM, OPT_TS, OPT_WS, OUR_MSS, OUR_RCV_WSCALE,
};
pub use packet::{build_rst, tcp_checksum};
pub use retx::RetxQueue;
