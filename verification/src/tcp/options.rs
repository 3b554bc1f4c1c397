//! TCP options: parsing what a peer sends and encoding what we send.
use vstd::prelude::*;

use crate::utils::{push_be16, push_be32, read_be16, read_be32};

verus! {

// Option kinds.
/// End of the option list (a single byte).
pub const OPT_END: u8 = 0;

/// No operation: padding (a single byte).
pub const OPT_NOP: u8 = 1;

/// Maximum segment size; only on SYN segments.
pub const OPT_MSS: u8 = 2;

/// Window scale: a shift count (RFC 7323).
pub const OPT_WS: u8 = 3;

/// SACK permitted; only on SYN segments (RFC 2018).
pub const OPT_SACK_PERM: u8 = 4;

/// SACK blocks.
pub const OPT_SACK: u8 = 5;

/// Timestamps: TSval and TSecr (RFC 7323).
pub const OPT_TS: u8 = 8;

/// The window-scale shift we advertise. Our receive buffer is small, but sending the option lets
/// the peer scale its window.
pub const OUR_RCV_WSCALE: u8 = 0;

/// The largest window-scale shift (RFC 7323).
pub const MAX_WSCALE: u8 = 14;

/// The most SACK blocks we put into one ACK: what fits beside a timestamps option.
pub const MAX_SACK_BLOCKS: usize = 3;

/// The maximum segment size we advertise: an Ethernet MTU without the IP and TCP headers.
pub const OUR_MSS: u16 = 1460;

/// Parsed TCP options.
#[derive(Debug, Clone, Copy, PartialEq, Eq)]
pub struct TcpOptions {
    pub mss: Option<u16>,
    pub timestamps: Option<(u32, u32)>,
    /// The window-scale shift the peer advertised, cut off at 14.
    pub window_scale: Option<u8>,
    pub sack_permitted: bool,
    /// SACK blocks as `(left edge, right edge)`, right edges exclusive; the first
    /// `sack_block_count` are valid.
    pub sack_blocks: [(u32, u32); 4],
    pub sack_block_count: usize,
}

/// The content of parsed options.
#[verifier::ext_equal]
pub struct OptionSet {
    pub mss: Option<u16>,
    pub timestamps: Option<(u32, u32)>,
    pub window_scale: Option<u8>,
    pub sack_permitted: bool,
    pub sack_blocks: Seq<(u32, u32)>,
    pub sack_block_count: usize,
}

impl View for TcpOptions {
    type V = OptionSet;

    open spec fn view(&self) -> OptionSet {
        OptionSet {
            mss: self.mss,
            timestamps: self.timestamps,
            window_scale: self.window_scale,
            sack_permitted: self.sack_permitted,
            sack_blocks: self.sack_blocks@,
            sack_block_count: self.sack_block_count,
        }
    }
}

impl OptionSet {
    /// At most four SACK blocks, and a shift that fits a 32-bit window.
    pub open spec fn wf(self) -> bool {
        &&& self.sack_blocks.len() == 4
        &&& self.sack_block_count <= 4
        &&& self.window_scale is Some ==> self.window_scale->0 < 32
    }

    /// The valid SACK blocks.
    pub open spec fn blocks(self) -> Seq<(u32, u32)> {
        self.sack_blocks.take(self.sack_block_count as int)
    }
}

/// No options at all.
pub open spec fn no_options() -> OptionSet {
    OptionSet {
        mss: None,
        timestamps: None,
        window_scale: None,
        sack_permitted: false,
        sack_blocks: seq![(0u32, 0u32), (0u32, 0u32), (0u32, 0u32), (0u32, 0u32)],
        sack_block_count: 0,
    }
}

/// The SACK block number `k` of an option's data.
pub open spec fn block_at(data: Seq<u8>, k: int) -> (u32, u32) {
    (crate::utils::be32_at(data, 8 * k), crate::utils::be32_at(data, 8 * k + 4))
}

/// The number of SACK blocks taken from `len` bytes of data: at most four.
pub open spec fn block_count(len: int) -> int {
    if len / 8 < 4 {
        len / 8
    } else {
        4
    }
}

/// `out` after an option of kind `kind` with the given data. An unknown kind, or data of the
/// wrong length, changes nothing.
pub open spec fn with_option(out: OptionSet, kind: u8, data: Seq<u8>) -> OptionSet {
    if kind == OPT_MSS && data.len() == 2 {
        OptionSet { mss: Some(crate::utils::be16_at(data, 0)), ..out }
    } else if kind == OPT_TS && data.len() == 8 {
        OptionSet {
            timestamps: Some((crate::utils::be32_at(data, 0), crate::utils::be32_at(data, 4))),
            ..out
        }
    } else if kind == OPT_WS && data.len() == 1 {
        OptionSet {
            window_scale: Some(
                if data[0] < MAX_WSCALE {
                    data[0]
                } else {
                    MAX_WSCALE
                },
            ),
            ..out
        }
    } else if kind == OPT_SACK_PERM && data.len() == 0 {
        OptionSet { sack_permitted: true, ..out }
    } else if kind == OPT_SACK && data.len() > 0 && data.len() % 8 == 0 {
        OptionSet {
            sack_blocks: Seq::new(
                4,
                |k: int|
                    if k < block_count(data.len() as int) {
                        block_at(data, k)
                    } else {
                        out.sack_blocks[k]
                    },
            ),
            sack_block_count: block_count(data.len() as int) as usize,
            ..out
        }
    } else {
        out
    }
}

/// Whether a length-prefixed option at `i` lies wholly inside `opts`.
pub open spec fn whole_option_at(opts: Seq<u8>, i: int) -> bool {
    i + 1 < opts.len() && opts[i + 1] >= 2 && i + opts[i + 1] <= opts.len()
}

/// `out` after the options from `i` on: padding is skipped, each whole option is taken, and the
/// walk stops at the end marker or at the first truncated or malformed option.
pub open spec fn walked(opts: Seq<u8>, i: int, out: OptionSet) -> OptionSet
    decreases opts.len() - i,
{
    if i < 0 || i >= opts.len() || opts[i] == OPT_END {
        out
    } else if opts[i] == OPT_NOP {
        walked(opts, i + 1, out)
    } else if !whole_option_at(opts, i) {
        out
    } else {
        walked(
            opts,
            i + opts[i + 1],
            with_option(out, opts[i], opts.subrange(i + 2, i + opts[i + 1])),
        )
    }
}

/// The options in the area `opts`.
pub open spec fn parsed_options(opts: Seq<u8>) -> OptionSet {
    walked(opts, 0, no_options())
}

impl Default for TcpOptions {
    fn default() -> (o: TcpOptions)
        ensures
            o@ == no_options(),
            o@.wf(),
    {
        let o = TcpOptions {
            mss: None,
            timestamps: None,
            window_scale: None,
            sack_permitted: false,
            sack_blocks: [(0, 0), (0, 0), (0, 0), (0, 0)],
            sack_block_count: 0,
        };
        assert(o@ =~= no_options());
        o
    }
}

/// Parse the TCP options area, the bytes between the fixed header and the data. Padding, the end
/// marker, unknown kinds and malformed or truncated lengths are all tolerated.
pub fn parse_options(opts: &[u8]) -> (out: TcpOptions)
    ensures
        out@ == parsed_options(opts@),
        out@.wf(),
        out.window_scale is Some ==> out.window_scale->0 <= MAX_WSCALE,
{
    let mut out: TcpOptions = TcpOptions::default();
    let mut i: usize = 0;
    while i < opts.len() && opts[i] != OPT_END
        invariant
            i <= opts@.len(),
            walked(opts@, i as int, out@) == parsed_options(opts@),
            out@.wf(),
            out.window_scale is Some ==> out.window_scale->0 <= MAX_WSCALE,
        ensures
            out@ == parsed_options(opts@),
            out@.wf(),
            out.window_scale is Some ==> out.window_scale->0 <= MAX_WSCALE,
        decreases opts@.len() - i,
    {
        if opts[i] == OPT_NOP {
            i += 1;
        } else {
            if opts.len() - i < 2 {
                break;
            }
            let len: usize = opts[i + 1] as usize;
            if len < 2 || opts.len() - i < len {
                break;
            }
            take_option(&mut out, opts, i, len);
            i += len;
        }
    }
    out
}

/// Take the option of `len` bytes at `i` into `out`.
fn take_option(out: &mut TcpOptions, opts: &[u8], i: usize, len: usize)
    requires
        2 <= len,
        i + len <= opts@.len(),
        len <= 255,
        old(out)@.wf(),
        old(out).window_scale is Some ==> old(out).window_scale->0 <= MAX_WSCALE,
    ensures
        final(out)@ == with_option(
            old(out)@,
            opts@[i as int],
            opts@.subrange(i + 2, i + len),
        ),
        final(out)@.wf(),
        final(out).window_scale is Some ==> final(out).window_scale->0 <= MAX_WSCALE,
{
    let kind: u8 = opts[i];
    let n: usize = len - 2;
    let at: usize = i + 2;
    let ghost data = opts@.subrange(i + 2, i + len);
    if kind == OPT_MSS && n == 2 {
        out.mss = Some(read_be16(opts, at));
    } else if kind == OPT_TS && n == 8 {
        out.timestamps = Some((read_be32(opts, at), read_be32(opts, at + 4)));
    } else if kind == OPT_WS && n == 1 {
        out.window_scale = Some(
            if opts[at] < MAX_WSCALE {
                opts[at]
            } else {
                MAX_WSCALE
            },
        );
    } else if kind == OPT_SACK_PERM && n == 0 {
        out.sack_permitted = true;
    } else if kind == OPT_SACK && n > 0 && n % 8 == 0 {
        let count: usize = if n / 8 < 4 {
            n / 8
        } else {
            4
        };
        let mut blocks: [(u32, u32); 4] = out.sack_blocks;
        let mut k: usize = 0;
        while k < count
            invariant
                count == block_count(n as int),
                n == data.len(),
                n <= 253,
                at + n <= opts.len(),
                data == opts@.subrange(at as int, at + n),
                k <= count,
                blocks@.len() == 4,
                forall|j: int|
                    0 <= j < 4 ==> #[trigger] blocks@[j] == (if j < k {
                        block_at(data, j)
                    } else {
                        out.sack_blocks@[j]
                    }),
            decreases count - k,
        {
            let left: u32 = read_be32(opts, at + 8 * k);
            let right: u32 = read_be32(opts, at + 8 * k + 4);
            assert((left, right) == block_at(data, k as int));
            blocks[k] = (left, right);
            k += 1;
        }
        out.sack_blocks = blocks;
        out.sack_block_count = count;
        assert(out@.sack_blocks =~= with_option(old(out)@, kind, data).sack_blocks);
    }
}

/// The MSS option.
pub open spec fn mss_bytes(mss: u16) -> Seq<u8> {
    seq![OPT_MSS, 4u8] + crate::utils::be16_bytes(mss)
}

/// The window-scale option behind one byte of padding.
pub open spec fn ws_bytes(shift: u8) -> Seq<u8> {
    seq![OPT_NOP, OPT_WS, 3u8, shift]
}

/// The timestamps option behind two bytes of padding.
pub open spec fn ts_bytes(tsval: u32, tsecr: u32) -> Seq<u8> {
    seq![OPT_NOP, OPT_NOP, OPT_TS, 10u8] + crate::utils::be32_bytes(tsval)
        + crate::utils::be32_bytes(tsecr)
}

/// The SACK-permitted option behind two bytes of padding.
pub open spec fn sack_perm_bytes() -> Seq<u8> {
    seq![OPT_NOP, OPT_NOP, OPT_SACK_PERM, 2u8]
}

/// Block edges, one after the other.
pub open spec fn edge_bytes(blocks: Seq<(u32, u32)>) -> Seq<u8>
    decreases blocks.len(),
{
    if blocks.len() == 0 {
        Seq::empty()
    } else {
        edge_bytes(blocks.drop_last()) + crate::utils::be32_bytes(blocks.last().0)
            + crate::utils::be32_bytes(blocks.last().1)
    }
}

/// The first three of `blocks`.
pub open spec fn first_blocks(blocks: Seq<(u32, u32)>) -> Seq<(u32, u32)> {
    if blocks.len() > MAX_SACK_BLOCKS {
        blocks.take(MAX_SACK_BLOCKS as int)
    } else {
        blocks
    }
}

/// The SACK option behind two bytes of padding, with at most three blocks; nothing for none.
pub open spec fn sack_bytes(blocks: Seq<(u32, u32)>) -> Seq<u8> {
    if blocks.len() == 0 {
        Seq::empty()
    } else {
        seq![OPT_NOP, OPT_NOP, OPT_SACK, (2 + 8 * first_blocks(blocks).len()) as u8] + edge_bytes(
            first_blocks(blocks),
        )
    }
}

/// Append the MSS option.
pub fn push_mss(out: &mut Vec<u8>, mss: u16)
    ensures
        final(out)@ == old(out)@ + mss_bytes(mss),
{
    out.push(OPT_MSS);
    out.push(4);
    push_be16(out, mss);
    assert(out@ =~= old(out)@ + mss_bytes(mss));
}

/// Append the window-scale option. The shift applies to the advertiser's window field.
pub fn push_ws(out: &mut Vec<u8>, shift: u8)
    ensures
        final(out)@ == old(out)@ + ws_bytes(shift),
{
    out.push(OPT_NOP);
    out.push(OPT_WS);
    out.push(3);
    out.push(shift);
    assert(out@ =~= old(out)@ + ws_bytes(shift));
}

/// Append the timestamps option: our clock, and the most recent value received from the peer.
pub fn push_ts(out: &mut Vec<u8>, tsval: u32, tsecr: u32)
    ensures
        final(out)@ == old(out)@ + ts_bytes(tsval, tsecr),
{
    out.push(OPT_NOP);
    out.push(OPT_NOP);
    out.push(OPT_TS);
    out.push(10);
    push_be32(out, tsval);
    push_be32(out, tsecr);
    assert(out@ =~= old(out)@ + ts_bytes(tsval, tsecr));
}

/// Append the SACK-permitted option.
pub fn push_sack_perm(out: &mut Vec<u8>)
    ensures
        final(out)@ == old(out)@ + sack_perm_bytes(),
{
    out.push(OPT_NOP);
    out.push(OPT_NOP);
    out.push(OPT_SACK_PERM);
    out.push(2);
    assert(out@ =~= old(out)@ + sack_perm_bytes());
}

/// Append the SACK option for the first three of `blocks`, or nothing if there are none.
pub fn push_sack(out: &mut Vec<u8>, blocks: &[(u32, u32)])
    ensures
        final(out)@ == old(out)@ + sack_bytes(blocks@),
{
    let n: usize = if blocks.len() < MAX_SACK_BLOCKS {
        blocks.len()
    } else {
        MAX_SACK_BLOCKS
    };
    if n == 0 {
        assert(out@ =~= old(out)@ + sack_bytes(blocks@));
        return;
    }
    out.push(OPT_NOP);
    out.push(OPT_NOP);
    out.push(OPT_SACK);
    out.push((2 + 8 * n) as u8);
    let ghost head = out@;
    let ghost few = first_blocks(blocks@);
    assert(few =~= blocks@.take(n as int));
    let mut k: usize = 0;
    assert(out@ =~= head + edge_bytes(few.take(0)));
    while k < n
        invariant
            k <= n <= blocks@.len(),
            few == blocks@.take(n as int),
            out@ == head + edge_bytes(few.take(k as int)),
        decreases n - k,
    {
        push_be32(out, blocks[k].0);
        push_be32(out, blocks[k].1);
        k += 1;
        assert(few.take(k as int).drop_last() =~= few.take(k - 1));
        assert(out@ =~= head + edge_bytes(few.take(k as int)));
    }
    assert(few.take(n as int) =~= few);
    assert(out@ =~= old(out)@ + sack_bytes(blocks@));
}

/// Two edges of four bytes per block.
pub proof fn lemma_edge_bytes_len(blocks: Seq<(u32, u32)>)
    ensures
        edge_bytes(blocks).len() == 8 * blocks.len(),
    decreases blocks.len(),
{
    if blocks.len() > 0 {
        lemma_edge_bytes_len(blocks.drop_last());
    }
}

/// A SACK option is made of whole words and fits beside a timestamps option.
pub proof fn lemma_sack_bytes_len(blocks: Seq<(u32, u32)>)
    ensures
        sack_bytes(blocks).len() % 4 == 0,
        sack_bytes(blocks).len() <= 28,
{
    lemma_edge_bytes_len(first_blocks(blocks));
}

/// The walk over an area behind a prefix is the walk over the area alone.
proof fn lemma_walk_shifts(a: Seq<u8>, b: Seq<u8>, i: int, out: OptionSet)
    requires
        0 <= i,
    ensures
        walked(a + b, a.len() + i, out) == walked(b, i, out),
    decreases b.len() - i,
{
    let opts = a + b;
    let at = a.len() + i;
    if i < b.len() {
        assert(opts[at] == b[i]);
        if b[i] != OPT_END {
            if b[i] == OPT_NOP {
                lemma_walk_shifts(a, b, i + 1, out);
            } else {
                if i + 1 < b.len() {
                    assert(opts[at + 1] == b[i + 1]);
                }
                if whole_option_at(b, i) {
                    let len = b[i + 1] as int;
                    assert(opts.subrange(at + 2, at + len) =~= b.subrange(i + 2, i + len));
                    lemma_walk_shifts(
                        a,
                        b,
                        i + len,
                        with_option(out, b[i], b.subrange(i + 2, i + len)),
                    );
                }
            }
        }
    }
}

/// Padding of two bytes and then one whole option are walked over in one go.
proof fn lemma_walk_padded_option(pad: int, kind: u8, data: Seq<u8>, rest: Seq<u8>, out: OptionSet)
    requires
        0 <= pad <= 2,
        kind != OPT_END,
        kind != OPT_NOP,
        data.len() <= 253,
    ensures
        walked(
            Seq::new(pad as nat, |i: int| OPT_NOP) + seq![kind, (2 + data.len()) as u8] + data
                + rest,
            0,
            out,
        ) == walked(rest, 0, with_option(out, kind, data)),
{
    let option = Seq::new(pad as nat, |i: int| OPT_NOP) + seq![kind, (2 + data.len()) as u8] + data;
    let opts = option + rest;
    reveal_with_fuel(walked, 4);
    assert(opts[pad] == kind);
    assert(opts[pad + 1] == 2 + data.len());
    assert(opts.subrange(pad + 2, pad + 2 + data.len()) =~= data);
    assert(pad >= 1 ==> opts[0] == OPT_NOP);
    assert(pad >= 2 ==> opts[1] == OPT_NOP);
    assert(walked(opts, 0, out) == walked(opts, pad, out));
    assert(option.len() == pad + 2 + data.len());
    lemma_walk_shifts(option, rest, 0, with_option(out, kind, data));
}

proof fn lemma_walk_mss(mss: u16, rest: Seq<u8>, out: OptionSet)
    ensures
        walked(mss_bytes(mss) + rest, 0, out) == walked(
            rest,
            0,
            (OptionSet { mss: Some(mss), ..out }),
        ),
{
    let data = crate::utils::be16_bytes(mss);
    lemma_walk_padded_option(0, OPT_MSS, data, rest, out);
    assert(Seq::new(0, |i: int| OPT_NOP) + seq![OPT_MSS, 4u8] + data =~= mss_bytes(mss));
    assert(data.subrange(0, 2) =~= data);
    crate::utils::lemma_be16_reads_back(data, 0, mss);
}

proof fn lemma_walk_ws(shift: u8, rest: Seq<u8>, out: OptionSet)
    requires
        shift <= MAX_WSCALE,
    ensures
        walked(ws_bytes(shift) + rest, 0, out) == walked(
            rest,
            0,
            (OptionSet { window_scale: Some(shift), ..out }),
        ),
{
    lemma_walk_padded_option(1, OPT_WS, seq![shift], rest, out);
    assert(Seq::new(1, |i: int| OPT_NOP) + seq![OPT_WS, 3u8] + seq![shift] =~= ws_bytes(shift));
}

proof fn lemma_walk_ts(tsval: u32, tsecr: u32, rest: Seq<u8>, out: OptionSet)
    ensures
        walked(ts_bytes(tsval, tsecr) + rest, 0, out) == walked(
            rest,
            0,
            (OptionSet { timestamps: Some((tsval, tsecr)), ..out }),
        ),
{
    let data = crate::utils::be32_bytes(tsval) + crate::utils::be32_bytes(tsecr);
    lemma_walk_padded_option(2, OPT_TS, data, rest, out);
    assert(Seq::new(2, |i: int| OPT_NOP) + seq![OPT_TS, 10u8] + data =~= ts_bytes(tsval, tsecr));
    assert(data.subrange(0, 4) =~= crate::utils::be32_bytes(tsval));
    assert(data.subrange(4, 8) =~= crate::utils::be32_bytes(tsecr));
    crate::utils::lemma_be32_reads_back(data, 0, tsval);
    crate::utils::lemma_be32_reads_back(data, 4, tsecr);
}

proof fn lemma_walk_sack_perm(rest: Seq<u8>, out: OptionSet)
    ensures
        walked(sack_perm_bytes() + rest, 0, out) == walked(
            rest,
            0,
            (OptionSet { sack_permitted: true, ..out }),
        ),
{
    let none = Seq::<u8>::empty();
    lemma_walk_padded_option(2, OPT_SACK_PERM, none, rest, out);
    assert(Seq::new(2, |i: int| OPT_NOP) + seq![OPT_SACK_PERM, 2u8] + none =~= sack_perm_bytes());
}

/// Block number `k` is read back from the edges.
proof fn lemma_edges_read_back(blocks: Seq<(u32, u32)>, k: int)
    requires
        0 <= k < blocks.len(),
    ensures
        block_at(edge_bytes(blocks), k) == blocks[k],
    decreases blocks.len(),
{
    lemma_edge_bytes_len(blocks);
    let short = blocks.drop_last();
    lemma_edge_bytes_len(short);
    let edges = edge_bytes(blocks);
    if k == blocks.len() - 1 {
        assert(edges.subrange(8 * k, 8 * k + 4) =~= crate::utils::be32_bytes(blocks.last().0));
        assert(edges.subrange(8 * k + 4, 8 * k + 8) =~= crate::utils::be32_bytes(
            blocks.last().1,
        ));
        crate::utils::lemma_be32_reads_back(edges, 8 * k, blocks.last().0);
        crate::utils::lemma_be32_reads_back(edges, 8 * k + 4, blocks.last().1);
    } else {
        lemma_edges_read_back(short, k);
        assert(forall|i: int| 0 <= i < 8 * short.len() ==> edges[i] == edge_bytes(short)[i]);
        assert(block_at(edges, k) == block_at(edge_bytes(short), k));
    }
}

/// The options of a segment after the handshake: none, or timestamps.
pub open spec fn stamped(stamps: Option<(u32, u32)>) -> Seq<u8> {
    match stamps {
        Some(ts) => ts_bytes(ts.0, ts.1),
        None => Seq::empty(),
    }
}

/// Timestamps alone are read back.
pub proof fn lemma_stamps_read_back(stamps: Option<(u32, u32)>)
    ensures
        parsed_options(stamped(stamps)) == (OptionSet { timestamps: stamps, ..no_options() }),
{
    let none = Seq::<u8>::empty();
    if stamps is Some {
        lemma_walk_ts((stamps->0).0, (stamps->0).1, none, no_options());
        assert(stamped(stamps) + none =~= stamped(stamps));
    }
}

/// What we offer in a SYN or SYN-ACK is what the peer reads: the segment size always, window
/// scale, timestamps and SACK-permitted exactly if they were written, and no SACK blocks.
pub proof fn law_handshake_options_read_back(
    mss: u16,
    scale: Option<u8>,
    stamps: Option<(u32, u32)>,
    sack: bool,
)
    requires
        scale is Some ==> scale->0 <= MAX_WSCALE,
    ensures
        parsed_options(
            mss_bytes(mss) + (match scale {
                Some(shift) => ws_bytes(shift),
                None => Seq::empty(),
            }) + stamped(stamps) + (if sack {
                sack_perm_bytes()
            } else {
                Seq::empty()
            }),
        ) == (OptionSet {
            mss: Some(mss),
            window_scale: scale,
            timestamps: stamps,
            sack_permitted: sack,
            ..no_options()
        }),
{
    let none = Seq::<u8>::empty();
    let ws = match scale {
        Some(shift) => ws_bytes(shift),
        None => none,
    };
    let ts = stamped(stamps);
    let perm = if sack {
        sack_perm_bytes()
    } else {
        none
    };
    let o0 = no_options();
    let o1 = OptionSet { mss: Some(mss), ..o0 };
    let o2 = OptionSet { window_scale: scale, ..o1 };
    let o3 = OptionSet { timestamps: stamps, ..o2 };
    let o4 = OptionSet { sack_permitted: sack, ..o3 };
    assert(mss_bytes(mss) + ws + ts + perm =~= mss_bytes(mss) + (ws + (ts + perm)));
    lemma_walk_mss(mss, ws + (ts + perm), o0);
    if scale is Some {
        lemma_walk_ws(scale->0, ts + perm, o1);
    } else {
        assert(ws + (ts + perm) =~= ts + perm);
    }
    assert(walked(ws + (ts + perm), 0, o1) == walked(ts + perm, 0, o2));
    if stamps is Some {
        lemma_walk_ts((stamps->0).0, (stamps->0).1, perm, o2);
    } else {
        assert(ts + perm =~= perm);
    }
    assert(walked(ts + perm, 0, o2) == walked(perm, 0, o3));
    if sack {
        lemma_walk_sack_perm(none, o3);
        assert(perm + none =~= perm);
    }
    assert(walked(perm, 0, o3) == walked(none, 0, o4));
}

/// The SACK blocks we report are the blocks the peer reads, up to the three that fit, with the
/// timestamps before them.
pub proof fn law_sack_blocks_read_back(stamps: Option<(u32, u32)>, blocks: Seq<(u32, u32)>)
    ensures
        ({
            let read = parsed_options(stamped(stamps) + sack_bytes(blocks));
            &&& read.blocks() == first_blocks(blocks)
            &&& read.timestamps == stamps
            &&& read.mss is None && read.window_scale is None && !read.sack_permitted
        }),
{
    let none = Seq::<u8>::empty();
    let few = first_blocks(blocks);
    let edges = edge_bytes(few);
    let o0 = no_options();
    let o1 = OptionSet { timestamps: stamps, ..o0 };
    let sack = sack_bytes(blocks);
    lemma_edge_bytes_len(few);
    if stamps is Some {
        lemma_walk_ts((stamps->0).0, (stamps->0).1, sack, o0);
    } else {
        assert(stamped(stamps) + sack =~= sack);
    }
    assert(walked(stamped(stamps) + sack, 0, o0) == walked(sack, 0, o1));
    if blocks.len() > 0 {
        lemma_walk_padded_option(2, OPT_SACK, edges, none, o1);
        assert(Seq::new(2, |i: int| OPT_NOP) + seq![OPT_SACK, (2 + edges.len()) as u8] + edges
            + none =~= sack);
        let read = with_option(o1, OPT_SACK, edges);
        assert forall|k: int| 0 <= k < few.len() implies read.blocks()[k] == few[k] by {
            lemma_edges_read_back(few, k);
        }
        assert(read.blocks() =~= few);
    } else {
        assert(o1.blocks() =~= few);
    }
}

} // verus!
