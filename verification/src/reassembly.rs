//! Out-of-order receive reassembly, the receive side of reliability.
//!
//! Segments can arrive out of order, yet the application must see one contiguous byte stream. The
//! receiver buffers whatever arrives ahead of `RCV.NXT` and delivers bytes once the run from there
//! is unbroken. Fragments are keyed by their offset from a fixed base, the sequence number of the
//! peer's first data byte, which makes their order plain integer order.
use std::collections::BTreeMap;

use vstd::prelude::*;

use crate::seq::advance_by;

verus! {

broadcast use {
    vstd::std_specs::btree::group_btree_axioms,
    vstd::laws_cmp::group_laws_cmp,
};

/// Data further ahead than this of what we expect is outside any window we would advertise and is
/// discarded.
pub const MAX_AHEAD: u32 = 65_536;

/// What a reassembly buffer holds: the base and the fragments by offset.
#[verifier::ext_equal]
pub struct Buffered {
    pub base: u32,
    pub frags: Map<u32, Seq<u8>>,
}

/// A new buffer whose first data byte is expected at `base`.
pub open spec fn empty_at(base: u32) -> Buffered {
    Buffered { base, frags: Map::empty() }
}

/// The unbroken run of fragments that starts at offset `cur`.
pub open spec fn run_from(frags: Map<u32, Seq<u8>>, cur: u32) -> Seq<u8>
    decreases frags.len(),
    when frags.dom().finite()
{
    if frags.contains_key(cur) {
        frags[cur] + run_from(frags.remove(cur), crate::seq::advance(cur, frags[cur].len() as int))
    } else {
        Seq::empty()
    }
}

/// The fragments that remain once that run has been taken out.
pub open spec fn after_run(frags: Map<u32, Seq<u8>>, cur: u32) -> Map<u32, Seq<u8>>
    decreases frags.len(),
    when frags.dom().finite()
{
    if frags.contains_key(cur) {
        after_run(frags.remove(cur), crate::seq::advance(cur, frags[cur].len() as int))
    } else {
        frags
    }
}

/// Where the part of a segment not yet delivered begins: its own offset, or that of `RCV.NXT` if
/// the segment starts before it.
pub open spec fn fresh_offset(off: u32, nxt_off: u32) -> u32 {
    if off < nxt_off {
        nxt_off
    } else {
        off
    }
}

/// The part of a segment not yet delivered.
pub open spec fn fresh_part(off: u32, nxt_off: u32, data: Seq<u8>) -> Seq<u8> {
    if off < nxt_off {
        if nxt_off - off >= data.len() {
            Seq::empty()
        } else {
            data.skip(nxt_off - off)
        }
    } else {
        data
    }
}

/// The fragments once a segment has been buffered: nothing changes if all of it is old, or if it
/// lies too far ahead.
pub open spec fn with_segment(b: Buffered, seq: u32, data: Seq<u8>, rcv_nxt: u32) -> Map<
    u32,
    Seq<u8>,
> {
    let off = seq.wrapping_sub(b.base);
    let nxt_off = rcv_nxt.wrapping_sub(b.base);
    let fresh = fresh_part(off, nxt_off, data);
    if fresh.len() == 0 || fresh_offset(off, nxt_off) - nxt_off > MAX_AHEAD {
        b.frags
    } else {
        b.frags.insert(fresh_offset(off, nxt_off), fresh)
    }
}

/// A segment that is neither wholly old nor too far ahead.
pub open spec fn acceptable(b: Buffered, seq: u32, data: Seq<u8>, rcv_nxt: u32) -> bool {
    let off = seq.wrapping_sub(b.base);
    let nxt_off = rcv_nxt.wrapping_sub(b.base);
    fresh_part(off, nxt_off, data).len() > 0 && fresh_offset(off, nxt_off) - nxt_off <= MAX_AHEAD
}

/// What receiving a segment delivers: the unbroken run from `RCV.NXT`, if the segment was
/// acceptable.
pub open spec fn delivered(b: Buffered, seq: u32, data: Seq<u8>, rcv_nxt: u32) -> Seq<u8> {
    if acceptable(b, seq, data, rcv_nxt) {
        run_from(with_segment(b, seq, data, rcv_nxt), rcv_nxt.wrapping_sub(b.base))
    } else {
        Seq::empty()
    }
}

/// The buffer after receiving a segment.
pub open spec fn received(b: Buffered, seq: u32, data: Seq<u8>, rcv_nxt: u32) -> Buffered {
    if acceptable(b, seq, data, rcv_nxt) {
        Buffered {
            frags: after_run(
                with_segment(b, seq, data, rcv_nxt),
                rcv_nxt.wrapping_sub(b.base),
            ),
            ..b
        }
    } else {
        b
    }
}

/// `k` is the smallest offset of `frags`.
pub open spec fn is_least(k: u32, frags: Map<u32, Seq<u8>>) -> bool {
    frags.contains_key(k) && forall|j: u32| frags.contains_key(j) ==> k <= j
}

/// The smallest offset.
pub open spec fn least(frags: Map<u32, Seq<u8>>) -> u32 {
    choose|k: u32| is_least(k, frags)
}

/// The fragments in ascending order of their offsets.
pub open spec fn listing(frags: Map<u32, Seq<u8>>) -> Seq<(u32, Seq<u8>)>
    decreases frags.len(),
    when frags.dom().finite()
{
    let k = least(frags);
    if frags.contains_key(k) {
        seq![(k, frags[k])] + listing(frags.remove(k))
    } else {
        Seq::empty()
    }
}

/// The sequence ranges `(left, right)` that listed fragments cover, right edges exclusive; a
/// fragment that begins where the range before it ends extends that range.
pub open spec fn coalesced(base: u32, frags: Seq<(u32, Seq<u8>)>) -> Seq<(u32, u32)>
    decreases frags.len(),
{
    if frags.len() == 0 {
        Seq::empty()
    } else {
        let done = coalesced(base, frags.drop_last());
        let left = base.wrapping_add(frags.last().0);
        let right = crate::seq::advance(left, frags.last().1.len() as int);
        if done.len() > 0 && done.last().1 == left {
            done.drop_last().push((done.last().0, right))
        } else {
            done.push((left, right))
        }
    }
}

/// The ranges of buffered data, as SACK blocks report them.
pub open spec fn sack_ranges(b: Buffered) -> Seq<(u32, u32)> {
    coalesced(b.base, listing(b.frags))
}

/// `s` lists exactly the fragments of `frags`, in ascending order.
pub open spec fn lists(s: Seq<(u32, Seq<u8>)>, frags: Map<u32, Seq<u8>>) -> bool {
    &&& forall|i: int, j: int| 0 <= i < j < s.len() ==> (#[trigger] s[i]).0 < (#[trigger] s[j]).0
    &&& forall|i: int|
        0 <= i < s.len() ==> frags.contains_key((#[trigger] s[i]).0) && frags[s[i].0] == s[i].1
    &&& forall|k: u32| #[trigger]
        frags.contains_key(k) ==> exists|i: int| 0 <= i < s.len() && (#[trigger] s[i]).0 == k
}

/// There is only one such list.
proof fn lemma_listing_unique(s: Seq<(u32, Seq<u8>)>, frags: Map<u32, Seq<u8>>)
    requires
        frags.dom().finite(),
        lists(s, frags),
    ensures
        s == listing(frags),
    decreases s.len(),
{
    if s.len() == 0 {
        assert(!frags.contains_key(least(frags)));
    } else {
        let k = s[0].0;
        assert forall|j: u32| frags.contains_key(j) implies k <= j by {
            let i = choose|i: int| 0 <= i < s.len() && (#[trigger] s[i]).0 == j;
            if i > 0 {
                assert(s[0].0 < s[i].0);
            }
        }
        assert(is_least(k, frags));
        assert(least(frags) == k) by {
            assert(is_least(least(frags), frags));
        }
        let rest = s.drop_first();
        let less = frags.remove(k);
        assert(lists(rest, less)) by {
            assert forall|i: int| 0 <= i < rest.len() implies less.contains_key(
                (#[trigger] rest[i]).0,
            ) && less[rest[i].0] == rest[i].1 by {
                assert(rest[i] == s[i + 1]);
                assert(s[0].0 < s[i + 1].0);
            }
            assert forall|j: u32| #[trigger] less.contains_key(j) implies exists|i: int|
                0 <= i < rest.len() && (#[trigger] rest[i]).0 == j by {
                assert(frags.contains_key(j));
                let i = choose|i: int| 0 <= i < s.len() && (#[trigger] s[i]).0 == j;
                assert(rest[i - 1].0 == j);
            }
        }
        lemma_listing_unique(rest, less);
        assert(s =~= seq![(k, frags[k])] + rest);
    }
}

/// Per-connection receive reassembly buffer.
#[derive(Debug)]
pub struct Reassembler {
    base: u32,
    frags: BTreeMap<u32, Vec<u8>>,
}

impl View for Reassembler {
    type V = Buffered;

    closed spec fn view(&self) -> Buffered {
        Buffered { base: self.base, frags: self.frags@.map_values(|v: Vec<u8>| v@) }
    }
}

impl Reassembler {
    /// `first_data_seq` is the sequence number expected of the first data byte.
    pub fn new(first_data_seq: u32) -> (r: Reassembler)
        ensures
            r@ == empty_at(first_data_seq),
    {
        let r = Reassembler { base: first_data_seq, frags: BTreeMap::new() };
        assert(r@.frags =~= Map::empty());
        r
    }

    /// Feed the data of a segment that arrived at `seq`, given the current `rcv_nxt`. Returns the
    /// bytes now contiguous from `rcv_nxt`, in order; the caller advances `RCV.NXT` by their
    /// number.
    pub fn recv(&mut self, seq: u32, data: &[u8], rcv_nxt: u32) -> (out: Vec<u8>)
        ensures
            out@ == delivered(old(self)@, seq, data@, rcv_nxt),
            final(self)@ == received(old(self)@, seq, data@, rcv_nxt),
    {
        let nxt_off: u32 = rcv_nxt.wrapping_sub(self.base);
        let off: u32 = seq.wrapping_sub(self.base);
        let ghost before = self@;
        if data.len() == 0 {
            return Vec::new();
        }
        let mut skip: usize = 0;
        let mut at: u32 = off;
        if off < nxt_off {
            skip = (nxt_off - off) as usize;
            if skip >= data.len() {
                return Vec::new();
            }
            at = nxt_off;
        }
        let fresh: Vec<u8> = crate::utils::copy_range(data, skip, data.len());
        assert(fresh@ =~= fresh_part(off, nxt_off, data@));
        if at - nxt_off > MAX_AHEAD {
            return Vec::new();
        }
        self.frags.insert(at, fresh);
        assert(self@.frags =~= with_segment(before, seq, data@, rcv_nxt));
        self.take_run(nxt_off)
    }

    /// Take out the unbroken run of fragments that starts at offset `from`.
    fn take_run(&mut self, from: u32) -> (out: Vec<u8>)
        ensures
            out@ == run_from(old(self)@.frags, from),
            final(self)@ == (Buffered {
                frags: after_run(old(self)@.frags, from),
                ..old(self)@
            }),
    {
        let mut out: Vec<u8> = Vec::new();
        let mut cur: u32 = from;
        assert(self@.frags.dom() =~= self.frags@.dom());
        assert(out@ + run_from(self@.frags, cur) =~= run_from(self@.frags, from));
        while self.frags.contains_key(&cur)
            invariant
                self.base == old(self).base,
                self@.frags.dom() == self.frags@.dom(),
                out@ + run_from(self@.frags, cur) == run_from(old(self)@.frags, from),
                after_run(self@.frags, cur) == after_run(old(self)@.frags, from),
            decreases self.frags@.len(),
        {
            let ghost before = self@.frags;
            match self.frags.remove(&cur) {
                Some(bytes) => {
                    proof {
                        assert(self@.frags =~= before.remove(cur));
                        assert(self@.frags.dom() =~= self.frags@.dom());
                        assert(before.contains_key(cur) && before[cur] == bytes@);
                    }
                    let ghost head = out@;
                    crate::utils::push_all(&mut out, bytes.as_slice());
                    cur = advance_by(cur, bytes.len());
                    assert(out@ + run_from(self@.frags, cur) =~= head + (bytes@ + run_from(
                        self@.frags,
                        cur,
                    )));
                },
                None => {
                    assert(false);
                },
            }
        }
        assert(out@ =~= out@ + Seq::<u8>::empty());
        out
    }

    /// How many out-of-order fragments are currently buffered.
    pub fn buffered(&self) -> (n: usize)
        ensures
            n == self@.frags.len(),
    {
        assert(self@.frags.dom() =~= self.frags@.dom());
        self.frags.len()
    }

    /// The currently buffered out-of-order ranges as absolute sequence pairs, right edges
    /// exclusive: what we report in SACK blocks (RFC 2018). Adjacent fragments are joined, and
    /// ranges come in ascending order.
    pub fn sack_blocks(&self) -> (blocks: Vec<(u32, u32)>)
        ensures
            blocks@ == sack_ranges(self@),
    {
        let mut blocks: Vec<(u32, u32)> = Vec::new();
        let iter = self.frags.iter();
        let ghost items = vstd::std_specs::iter::IteratorSpec::remaining(&iter);
        let ghost list = plain(items);
        proof {
            self.lemma_iteration_lists(items);
        }
        for (off, frag) in it: iter
            invariant
                it.seq() == items,
                list == plain(items),
                blocks@ == coalesced(self.base, list.take(it.index())),
        {
            let left: u32 = self.base.wrapping_add(*off);
            let right: u32 = advance_by(left, frag.len());
            let n: usize = blocks.len();
            assert(list.take(it.index() + 1).drop_last() =~= list.take(it.index()));
            if n > 0 && blocks[n - 1].1 == left {
                let first: u32 = blocks[n - 1].0;
                blocks.pop();
                blocks.push((first, right));
            } else {
                blocks.push((left, right));
            }
        }
        assert(list.take(list.len() as int) =~= list);
        blocks
    }

    /// Walking the map in order lists its fragments in order.
    proof fn lemma_iteration_lists(&self, items: Seq<(&u32, &Vec<u8>)>)
        requires
            items == vstd::std_specs::iter::IteratorSpec::remaining(
                &vstd::std_specs::btree::spec_btree_map_iter(&self.frags),
            ),
            vstd::std_specs::btree::increasing_seq(
                items.map_values(|kv: (&u32, &Vec<u8>)| *kv.0),
            ),
        ensures
            plain(items) == listing(self@.frags),
    {
        let list = plain(items);
        let frags = self@.frags;
        assert(frags.dom() =~= self.frags@.dom());
        let keys = items.map_values(|kv: (&u32, &Vec<u8>)| *kv.0);
        assert forall|i: int, j: int| 0 <= i < j < list.len() implies (#[trigger] list[i]).0 < (
        #[trigger] list[j]).0 by {
            assert(keys[i] == list[i].0 && keys[j] == list[j].0);
            assert(vstd::laws_cmp::obeys_cmp::<u32>());
            assert(vstd::std_specs::cmp::OrdSpec::cmp_spec(&keys[i], &keys[j]) is Less);
        }
        assert forall|i: int| 0 <= i < list.len() implies frags.contains_key(
            (#[trigger] list[i]).0,
        ) && frags[list[i].0] == list[i].1 by {
            assert(self.frags@.contains_key(*items[i].0));
        }
        assert forall|k: u32| #[trigger] frags.contains_key(k) implies exists|i: int|
            0 <= i < list.len() && (#[trigger] list[i]).0 == k by {
            assert(items.contains((&k, &self.frags@[k])));
            let i = choose|i: int| 0 <= i < items.len() && items[i] == (&k, &self.frags@[k]);
            assert(list[i].0 == k);
        }
        lemma_listing_unique(list, frags);
    }
}

/// Borrowed map entries as plain values.
spec fn plain(items: Seq<(&u32, &Vec<u8>)>) -> Seq<(u32, Seq<u8>)> {
    Seq::new(items.len(), |i: int| (*items[i].0, items[i].1@))
}

/// Every fragment holds the bytes of `stream` at its offset.
pub open spec fn agrees(frags: Map<u32, Seq<u8>>, stream: Seq<u8>) -> bool {
    forall|k: u32| #[trigger]
        frags.contains_key(k) ==> k + frags[k].len() <= stream.len() && frags[k]
            == stream.subrange(k as int, k + frags[k].len())
}

proof fn lemma_run_agrees(frags: Map<u32, Seq<u8>>, cur: u32, stream: Seq<u8>)
    requires
        frags.dom().finite(),
        agrees(frags, stream),
        cur <= stream.len() < 0x1_0000_0000,
    ensures
        cur + run_from(frags, cur).len() <= stream.len(),
        run_from(frags, cur) == stream.subrange(cur as int, cur + run_from(frags, cur).len()),
        agrees(after_run(frags, cur), stream),
        after_run(frags, cur).dom().finite(),
        forall|k: u32| #[trigger]
            after_run(frags, cur).contains_key(k) ==> frags.contains_key(k) && after_run(
                frags,
                cur,
            )[k] == frags[k],
    decreases frags.len(),
{
    if frags.contains_key(cur) {
        let head = frags[cur];
        let next = crate::seq::advance(cur, head.len() as int);
        assert(next == cur + head.len());
        assert forall|k: u32| #[trigger] frags.remove(cur).contains_key(k) implies k + frags.remove(
            cur,
        )[k].len() <= stream.len() && frags.remove(cur)[k] == stream.subrange(
            k as int,
            k + frags.remove(cur)[k].len(),
        ) by {
            assert(frags.contains_key(k));
        }
        lemma_run_agrees(frags.remove(cur), next, stream);
        let tail = run_from(frags.remove(cur), next);
        assert(run_from(frags, cur) =~= stream.subrange(
            cur as int,
            cur + head.len() + tail.len(),
        ));
    } else {
        assert(stream.subrange(cur as int, cur as int) =~= Seq::<u8>::empty());
    }
}

/// Reassembly delivers the peer's byte stream, contiguous and in order. Whatever the order in
/// which segments of one stream arrive, however they are cut, duplicated or overlap: the bytes a
/// segment delivers are exactly the bytes of the stream from `RCV.NXT` on, and the buffer still
/// holds only bytes of the stream at their places. (The stream is shorter than the sequence
/// circle; offsets count from its first byte.)
pub proof fn law_delivers_the_stream(
    b: Buffered,
    stream: Seq<u8>,
    seg_off: u32,
    data: Seq<u8>,
    nxt_off: u32,
)
    requires
        b.frags.dom().finite(),
        stream.len() < 0x1_0000_0000,
        agrees(b.frags, stream),
        nxt_off <= stream.len(),
        seg_off + data.len() <= stream.len(),
        data == stream.subrange(seg_off as int, seg_off + data.len()),
    ensures
        ({
            let seq = b.base.wrapping_add(seg_off);
            let rcv_nxt = b.base.wrapping_add(nxt_off);
            let out = delivered(b, seq, data, rcv_nxt);
            &&& nxt_off + out.len() <= stream.len()
            &&& out == stream.subrange(nxt_off as int, nxt_off + out.len())
            &&& agrees(received(b, seq, data, rcv_nxt).frags, stream)
            &&& received(b, seq, data, rcv_nxt).frags.dom().finite()
        }),
{
    let seq = b.base.wrapping_add(seg_off);
    let rcv_nxt = b.base.wrapping_add(nxt_off);
    assert(seq.wrapping_sub(b.base) == seg_off);
    assert(rcv_nxt.wrapping_sub(b.base) == nxt_off);
    if acceptable(b, seq, data, rcv_nxt) {
        let fresh = fresh_part(seg_off, nxt_off, data);
        let at = fresh_offset(seg_off, nxt_off);
        assert(fresh =~= stream.subrange(at as int, at + fresh.len()));
        let frags = with_segment(b, seq, data, rcv_nxt);
        assert forall|k: u32| #[trigger] frags.contains_key(k) implies k + frags[k].len()
            <= stream.len() && frags[k] == stream.subrange(k as int, k + frags[k].len()) by {
            if k != at {
                assert(b.frags.contains_key(k));
            }
        }
        lemma_run_agrees(frags, nxt_off, stream);
    } else {
        assert(stream.subrange(nxt_off as int, nxt_off as int) =~= Seq::<u8>::empty());
    }
}

proof fn lemma_run_is_maximal(frags: Map<u32, Seq<u8>>, cur: u32)
    requires
        frags.dom().finite(),
    ensures
        !after_run(frags, cur).contains_key(
            crate::seq::advance(cur, run_from(frags, cur).len() as int),
        ),
    decreases frags.len(),
{
    if frags.contains_key(cur) {
        let next = crate::seq::advance(cur, frags[cur].len() as int);
        lemma_run_is_maximal(frags.remove(cur), next);
        crate::seq::law_advance_adds_up(
            cur,
            frags[cur].len() as int,
            run_from(frags.remove(cur), next).len() as int,
        );
    }
}

/// Nothing that can be delivered is held back: a segment that covers `RCV.NXT` delivers at least
/// all of its new bytes, and delivery stops only where no fragment continues the run.
pub proof fn law_delivers_all_it_can(b: Buffered, seq: u32, data: Seq<u8>, rcv_nxt: u32)
    requires
        b.frags.dom().finite(),
        acceptable(b, seq, data, rcv_nxt),
        seq.wrapping_sub(b.base) <= rcv_nxt.wrapping_sub(b.base),
    ensures
        ({
            let fresh = fresh_part(
                seq.wrapping_sub(b.base),
                rcv_nxt.wrapping_sub(b.base),
                data,
            );
            let out = delivered(b, seq, data, rcv_nxt);
            &&& out.len() >= fresh.len() > 0
            &&& out.take(fresh.len() as int) == fresh
            &&& !received(b, seq, data, rcv_nxt).frags.contains_key(
                crate::seq::advance(rcv_nxt.wrapping_sub(b.base), out.len() as int),
            )
        }),
{
    lemma_run_is_maximal(
        with_segment(b, seq, data, rcv_nxt),
        rcv_nxt.wrapping_sub(b.base),
    );
    let nxt_off = rcv_nxt.wrapping_sub(b.base);
    let frags = with_segment(b, seq, data, rcv_nxt);
    let fresh = fresh_part(seq.wrapping_sub(b.base), nxt_off, data);
    assert(frags[nxt_off] == fresh);
    let out = delivered(b, seq, data, rcv_nxt);
    assert(out.take(fresh.len() as int) =~= fresh);
}

/// A duplicate changes nothing: a segment whose bytes all lie before `RCV.NXT` delivers nothing
/// and leaves the buffer as it is.
pub proof fn law_duplicates_are_dropped(b: Buffered, seq: u32, data: Seq<u8>, rcv_nxt: u32)
    requires
        seq.wrapping_sub(b.base) + data.len() <= rcv_nxt.wrapping_sub(b.base),
    ensures
        delivered(b, seq, data, rcv_nxt) == Seq::<u8>::empty(),
        received(b, seq, data, rcv_nxt) == b,
{
}

proof fn lemma_least_exists(frags: Map<u32, Seq<u8>>)
    requires
        frags.dom().finite(),
        frags.len() > 0,
    ensures
        is_least(least(frags), frags),
    decreases frags.len(),
{
    let a = frags.dom().choose();
    assert(frags.contains_key(a));
    let rest = frags.remove(a);
    if rest.len() == 0 {
        assert forall|j: u32| frags.contains_key(j) implies a <= j by {
            if j != a {
                assert(rest.dom().contains(j));
                assert(rest.dom().len() == 0);
                assert(false);
            }
        }
        assert(is_least(a, frags));
    } else {
        lemma_least_exists(rest);
        let k = least(rest);
        let m = if a < k {
            a
        } else {
            k
        };
        assert forall|j: u32| frags.contains_key(j) implies m <= j by {
            if j != a {
                assert(rest.contains_key(j));
            }
        }
        assert(is_least(m, frags));
    }
}

/// The listing that SACK blocks are made from is the buffer: ascending offsets, each fragment
/// once, none left out.
pub proof fn law_listing_is_the_buffer(frags: Map<u32, Seq<u8>>)
    requires
        frags.dom().finite(),
    ensures
        lists(listing(frags), frags),
    decreases frags.len(),
{
    let s = listing(frags);
    if frags.len() == 0 {
        assert(!frags.contains_key(least(frags)));
        assert forall|k: u32| #[trigger] frags.contains_key(k) implies false by {
            assert(frags.dom().contains(k));
        }
    } else {
        lemma_least_exists(frags);
        let k = least(frags);
        let rest = listing(frags.remove(k));
        law_listing_is_the_buffer(frags.remove(k));
        assert(s =~= seq![(k, frags[k])] + rest);
        assert forall|i: int| 0 <= i < s.len() implies frags.contains_key((#[trigger] s[i]).0)
            && frags[s[i].0] == s[i].1 && (i > 0 ==> s[i].0 > k) by {
            if i > 0 {
                assert(s[i] == rest[i - 1]);
                assert(frags.remove(k).contains_key(rest[i - 1].0));
            }
        }
        assert forall|i: int, j: int| 0 <= i < j < s.len() implies (#[trigger] s[i]).0 < (
        #[trigger] s[j]).0 by {
            if i > 0 {
                assert(s[i] == rest[i - 1] && s[j] == rest[j - 1]);
            }
        }
        assert forall|j: u32| #[trigger] frags.contains_key(j) implies exists|i: int|
            0 <= i < s.len() && (#[trigger] s[i]).0 == j by {
            if j == k {
                assert(s[0].0 == j);
            } else {
                assert(frags.remove(k).contains_key(j));
                let i = choose|i: int| 0 <= i < rest.len() && (#[trigger] rest[i]).0 == j;
                assert(s[i + 1].0 == j);
            }
        }
    }
}

/// The offset ranges that listed fragments cover.
pub open spec fn spans(list: Seq<(u32, Seq<u8>)>) -> Seq<(int, int)>
    decreases list.len(),
{
    if list.len() == 0 {
        Seq::empty()
    } else {
        let done = spans(list.drop_last());
        let lo = list.last().0 as int;
        let hi = lo + list.last().1.len();
        if done.len() > 0 && done.last().1 == lo {
            done.drop_last().push((done.last().0, hi))
        } else {
            done.push((lo, hi))
        }
    }
}

/// Listed fragments are not empty, do not overlap, and end below the size of the circle.
pub open spec fn disjoint(list: Seq<(u32, Seq<u8>)>) -> bool {
    &&& forall|i: int|
        0 <= i < list.len() ==> (#[trigger] list[i]).1.len() > 0 && list[i].0 + list[i].1.len()
            < 0x1_0000_0000
    &&& forall|i: int, j: int|
        0 <= i < j < list.len() ==> (#[trigger] list[i]).0 + list[i].1.len() <= (
        #[trigger] list[j]).0
}

/// Offset `x` is one of fragment `i`.
pub open spec fn in_fragment(list: Seq<(u32, Seq<u8>)>, i: int, x: int) -> bool {
    0 <= i < list.len() && list[i].0 <= x < list[i].0 + list[i].1.len()
}

/// Offset `x` is one of range `i`.
pub open spec fn in_span(ranges: Seq<(int, int)>, i: int, x: int) -> bool {
    0 <= i < ranges.len() && ranges[i].0 <= x < ranges[i].1
}

/// A fragment holds offset `x`.
pub open spec fn held(list: Seq<(u32, Seq<u8>)>, x: int) -> bool {
    exists|i: int| #[trigger] in_fragment(list, i, x)
}

/// A range holds offset `x`.
pub open spec fn reported(ranges: Seq<(int, int)>, x: int) -> bool {
    exists|i: int| #[trigger] in_span(ranges, i, x)
}

proof fn lemma_disjoint_prefix(list: Seq<(u32, Seq<u8>)>)
    requires
        disjoint(list),
        list.len() > 0,
    ensures
        disjoint(list.drop_last()),
{
    let short = list.drop_last();
    assert forall|i: int| 0 <= i < short.len() implies (#[trigger] short[i]).1.len() > 0
        && short[i].0 + short[i].1.len() < 0x1_0000_0000 by {
        assert(short[i] == list[i]);
    }
    assert forall|i: int, j: int| 0 <= i < j < short.len() implies (#[trigger] short[i]).0
        + short[i].1.len() <= (#[trigger] short[j]).0 by {
        assert(short[i] == list[i] && short[j] == list[j]);
    }
}

/// The ranges ascend with a gap between any two, and the last one ends where the last fragment
/// does.
#[verifier::spinoff_prover]
proof fn lemma_spans_ascend(list: Seq<(u32, Seq<u8>)>)
    requires
        disjoint(list),
    ensures
        forall|i: int|
            0 <= i < spans(list).len() ==> 0 <= (#[trigger] spans(list)[i]).0 < spans(list)[i].1
                < 0x1_0000_0000,
        forall|i: int, j: int|
            0 <= i < j < spans(list).len() ==> (#[trigger] spans(list)[i]).1 < (
            #[trigger] spans(list)[j]).0,
        list.len() > 0 ==> spans(list).len() > 0 && spans(list).last().1 == list.last().0
            + list.last().1.len(),
    decreases list.len(),
{
    if list.len() > 0 {
        lemma_disjoint_prefix(list);
        lemma_spans_ascend(list.drop_last());
        let n = list.len() - 1;
        assert(list[n] == list.last());
        if n > 0 {
            assert(list[n - 1] == list.drop_last().last());
        }
    }
}

/// The reported blocks are the ranges, moved to sequence numbers.
#[verifier::spinoff_prover]
#[verifier::rlimit(40)]
proof fn lemma_blocks_are_spans(base: u32, list: Seq<(u32, Seq<u8>)>)
    requires
        disjoint(list),
    ensures
        coalesced(base, list).len() == spans(list).len(),
        forall|i: int|
            0 <= i < spans(list).len() ==> (#[trigger] coalesced(base, list)[i]) == (
                crate::seq::advance(base, spans(list)[i].0),
                crate::seq::advance(base, spans(list)[i].1),
            ),
    decreases list.len(),
{
    if list.len() > 0 {
        let short = list.drop_last();
        lemma_disjoint_prefix(list);
        lemma_blocks_are_spans(base, short);
        lemma_spans_ascend(short);
        let last = list.last();
        let done = spans(short);
        let all = spans(list);
        let blocks = coalesced(base, short);
        assert(list[list.len() - 1] == last);
        if done.len() > 0 {
            assert(blocks.last() == blocks[done.len() - 1]);
            assert(crate::seq::advance(base, done.last().1) == base.wrapping_add(last.0)
                <==> done.last().1 == last.0);
        }
        assert forall|i: int| 0 <= i < all.len() implies (#[trigger] coalesced(base, list)[i]) == (
            crate::seq::advance(base, all[i].0),
            crate::seq::advance(base, all[i].1),
        ) by {
            if i < all.len() - 1 {
                assert(all[i] == done[i]);
                assert(coalesced(base, list)[i] == blocks[i]);
            }
        }
    }
}

/// An offset is in a range if and only if it is in a fragment.
#[verifier::spinoff_prover]
proof fn lemma_spans_cover(list: Seq<(u32, Seq<u8>)>, x: int)
    requires
        disjoint(list),
    ensures
        reported(spans(list), x) <==> held(list, x),
    decreases list.len(),
{
    if list.len() > 0 {
        let short = list.drop_last();
        lemma_disjoint_prefix(list);
        lemma_spans_cover(short, x);
        lemma_spans_ascend(short);
        let last = list.last();
        let n = list.len() - 1;
        let done = spans(short);
        let all = spans(list);
        assert(list[n] == last);
        let joined = done.len() > 0 && done.last().1 == last.0;
        if reported(all, x) {
            let i = choose|i: int| #[trigger] in_span(all, i, x);
            if i < all.len() - 1 {
                assert(all[i] == done[i]);
                assert(in_span(done, i, x));
                let k = choose|k: int| #[trigger] in_fragment(short, k, x);
                assert(in_fragment(list, k, x));
            } else if joined && x < last.0 {
                assert(in_span(done, done.len() - 1, x));
                let k = choose|k: int| #[trigger] in_fragment(short, k, x);
                assert(in_fragment(list, k, x));
            } else {
                assert(in_fragment(list, n, x));
            }
        }
        if held(list, x) {
            let k = choose|k: int| #[trigger] in_fragment(list, k, x);
            if k < n {
                assert(in_fragment(short, k, x));
                let i = choose|i: int| #[trigger] in_span(done, i, x);
                if i < all.len() - 1 {
                    assert(all[i] == done[i]);
                }
                assert(in_span(all, i, x));
            } else {
                assert(in_span(all, all.len() - 1, x));
            }
        }
    } else {
        if reported(spans(list), x) {
            let i = choose|i: int| #[trigger] in_span(spans(list), i, x);
        }
        if held(list, x) {
            let k = choose|k: int| #[trigger] in_fragment(list, k, x);
        }
    }
}

/// Buffered fragments are not empty, do not overlap, and end below the size of the circle.
pub open spec fn apart(frags: Map<u32, Seq<u8>>) -> bool {
    &&& forall|k: u32| #[trigger]
        frags.contains_key(k) ==> frags[k].len() > 0 && k + frags[k].len() < 0x1_0000_0000
    &&& forall|k: u32, j: u32| #[trigger]
        frags.contains_key(k) && #[trigger] frags.contains_key(j) && k < j ==> k + frags[k].len()
            <= j
}

/// A buffer with nothing left to deliver: its fragments are apart, and all of them lie behind the
/// next expected offset.
pub open spec fn waiting(b: Buffered, nxt_off: int) -> bool {
    &&& b.frags.dom().finite()
    &&& apart(b.frags)
    &&& forall|k: u32| #[trigger] b.frags.contains_key(k) ==> nxt_off < k
}

proof fn lemma_apart_is_listed(frags: Map<u32, Seq<u8>>)
    requires
        frags.dom().finite(),
        apart(frags),
    ensures
        disjoint(listing(frags)),
        lists(listing(frags), frags),
{
    law_listing_is_the_buffer(frags);
    let list = listing(frags);
    assert forall|i: int| 0 <= i < list.len() implies (#[trigger] list[i]).1.len() > 0 && list[i].0
        + list[i].1.len() < 0x1_0000_0000 by {
        assert(frags.contains_key(list[i].0));
    }
    assert forall|i: int, j: int| 0 <= i < j < list.len() implies (#[trigger] list[i]).0
        + list[i].1.len() <= (#[trigger] list[j]).0 by {
        assert(frags.contains_key(list[i].0) && frags.contains_key(list[j].0));
    }
}

proof fn lemma_listing_len(frags: Map<u32, Seq<u8>>)
    requires
        frags.dom().finite(),
    ensures
        listing(frags).len() == frags.len(),
    decreases frags.len(),
{
    if frags.len() > 0 {
        lemma_least_exists(frags);
        lemma_listing_len(frags.remove(least(frags)));
    } else {
        assert forall|k: u32| !frags.contains_key(k) by {
            if frags.contains_key(k) {
                assert(frags.dom().contains(k));
            }
        }
    }
}

proof fn lemma_spans_are_few(list: Seq<(u32, Seq<u8>)>)
    ensures
        spans(list).len() <= list.len(),
        list.len() > 0 ==> spans(list).len() > 0 && spans(list)[0].0 == list[0].0,
    decreases list.len(),
{
    if list.len() > 0 {
        lemma_spans_are_few(list.drop_last());
    }
}

/// SACK blocks describe the buffered data exactly: they are the coalesced ranges of the
/// fragments, moved to sequence numbers; they ascend with a gap between any two; and an offset is
/// inside one of them if and only if a buffered fragment holds it. The first begins behind the
/// next expected number. There are none if and only if nothing is buffered, and never more than
/// fragments.
pub proof fn law_sack_blocks_cover_the_buffer(b: Buffered, nxt_off: int)
    requires
        waiting(b, nxt_off),
    ensures
        ({
            let ranges = spans(listing(b.frags));
            &&& sack_ranges(b).len() == ranges.len()
            &&& forall|i: int|
                0 <= i < ranges.len() ==> (#[trigger] sack_ranges(b)[i]) == (
                    crate::seq::advance(b.base, ranges[i].0),
                    crate::seq::advance(b.base, ranges[i].1),
                )
            &&& forall|i: int|
                0 <= i < ranges.len() ==> 0 <= (#[trigger] ranges[i]).0 < ranges[i].1
                    < 0x1_0000_0000
            &&& forall|i: int, j: int|
                0 <= i < j < ranges.len() ==> (#[trigger] ranges[i]).1 < (#[trigger] ranges[j]).0
            &&& forall|x: int| #[trigger] reported(ranges, x) <==> held(listing(b.frags), x)
            &&& lists(listing(b.frags), b.frags)
            &&& ranges.len() > 0 ==> nxt_off < ranges[0].0
            &&& sack_ranges(b).len() == 0 <==> b.frags.len() == 0
            &&& sack_ranges(b).len() <= b.frags.len()
        }),
{
    let list = listing(b.frags);
    lemma_apart_is_listed(b.frags);
    lemma_listing_len(b.frags);
    lemma_spans_are_few(list);
    if list.len() > 0 {
        assert(b.frags.contains_key(list[0].0));
    }
    lemma_blocks_are_spans(b.base, list);
    lemma_spans_ascend(list);
    assert forall|x: int| #[trigger] reported(spans(list), x) <==> held(list, x) by {
        lemma_spans_cover(list, x);
    }
}

proof fn lemma_run_leaves_waiting(frags: Map<u32, Seq<u8>>, cur: u32)
    requires
        frags.dom().finite(),
        apart(frags),
        forall|k: u32| #[trigger] frags.contains_key(k) ==> cur <= k,
    ensures
        after_run(frags, cur).dom().finite(),
        apart(after_run(frags, cur)),
        forall|k: u32| #[trigger]
            after_run(frags, cur).contains_key(k) ==> cur + run_from(frags, cur).len() < k,
    decreases frags.len(),
{
    if frags.contains_key(cur) {
        let next = crate::seq::advance(cur, frags[cur].len() as int);
        let less = frags.remove(cur);
        assert forall|k: u32| #[trigger] less.contains_key(k) implies next <= k && less[k].len() > 0
            && k + less[k].len() < 0x1_0000_0000 by {
            assert(frags.contains_key(k));
        }
        assert forall|k: u32, j: u32| #[trigger]
            less.contains_key(k) && #[trigger] less.contains_key(j) && k < j implies k
            + less[k].len() <= j by {
            assert(frags.contains_key(k) && frags.contains_key(j));
        }
        lemma_run_leaves_waiting(less, next);
    }
}

/// A buffer keeps waiting: as long as a segment does not partly overlap what is buffered, the
/// fragments stay apart and behind the next expected offset. A new buffer is so to begin with.
pub proof fn law_buffer_keeps_waiting(b: Buffered, seq: u32, data: Seq<u8>, rcv_nxt: u32)
    requires
        waiting(b, rcv_nxt.wrapping_sub(b.base) as int),
        apart(with_segment(b, seq, data, rcv_nxt)),
    ensures
        waiting(
            received(b, seq, data, rcv_nxt),
            rcv_nxt.wrapping_sub(b.base) + delivered(b, seq, data, rcv_nxt).len(),
        ),
        waiting(empty_at(b.base), 0),
{
    if acceptable(b, seq, data, rcv_nxt) {
        let frags = with_segment(b, seq, data, rcv_nxt);
        let nxt_off = rcv_nxt.wrapping_sub(b.base);
        assert forall|k: u32| #[trigger] frags.contains_key(k) implies nxt_off <= k by {
            if b.frags.contains_key(k) {
            }
        }
        lemma_run_leaves_waiting(frags, nxt_off);
    }
}

// ---- A whole stream, piece by piece ----

/// `pieces` are ranges of a stream of `len` bytes: none is empty and no two overlap.
pub open spec fn is_cut(pieces: Seq<(int, int)>, len: int) -> bool {
    &&& forall|i: int|
        0 <= i < pieces.len() ==> 0 <= (#[trigger] pieces[i]).0 < pieces[i].1 <= len
    &&& forall|i: int, j: int|
        0 <= i < j < pieces.len() ==> (#[trigger] pieces[i]).1 <= (#[trigger] pieces[j]).0
            || pieces[j].1 <= pieces[i].0
}

/// The first `n` of `len` bytes are the longest prefix that the pieces cover without a gap.
pub open spec fn is_longest_prefix(pieces: Seq<(int, int)>, len: int, n: int) -> bool {
    &&& 0 <= n <= len
    &&& forall|x: int| 0 <= x < n ==> #[trigger] reported(pieces, x)
    &&& !reported(pieces, n)
}

/// Piece `i` begins at `x`, at or behind `n`.
pub open spec fn begins_at(pieces: Seq<(int, int)>, i: int, x: int, n: int) -> bool {
    0 <= i < pieces.len() && pieces[i].0 == x && x >= n
}

/// The buffer holds exactly the pieces that begin at or behind `n`, each under its own offset;
/// the stream begins at offset `start`. The other pieces end at or before `n`.
pub open spec fn holds_pieces(
    frags: Map<u32, Seq<u8>>,
    start: u32,
    stream: Seq<u8>,
    pieces: Seq<(int, int)>,
    n: int,
) -> bool {
    &&& frags.dom().finite()
    &&& forall|k: u32| #[trigger]
        frags.contains_key(k) ==> exists|i: int| #[trigger] begins_at(pieces, i, k - start, n)
    &&& forall|i: int|
        0 <= i < pieces.len() && (#[trigger] pieces[i]).0 >= n ==> frags.contains_key(
            (start + pieces[i].0) as u32,
        ) && frags[(start + pieces[i].0) as u32] == stream.subrange(pieces[i].0, pieces[i].1)
    &&& forall|i: int|
        0 <= i < pieces.len() && (#[trigger] pieces[i]).0 < n ==> pieces[i].1 <= n
}

/// The first `n` bytes are delivered, they are the longest prefix received so far, and the buffer
/// holds the rest of what was received.
pub open spec fn gathered(
    frags: Map<u32, Seq<u8>>,
    start: u32,
    stream: Seq<u8>,
    pieces: Seq<(int, int)>,
    n: int,
) -> bool {
    &&& holds_pieces(frags, start, stream, pieces, n)
    &&& is_longest_prefix(pieces, stream.len() as int, n)
}

proof fn lemma_run_gathers(
    frags: Map<u32, Seq<u8>>,
    start: u32,
    stream: Seq<u8>,
    pieces: Seq<(int, int)>,
    n: int,
)
    requires
        is_cut(pieces, stream.len() as int),
        start + stream.len() < 0x1_0000_0000,
        0 <= n <= stream.len(),
        holds_pieces(frags, start, stream, pieces, n),
        forall|x: int| 0 <= x < n ==> #[trigger] reported(pieces, x),
    ensures
        ({
            let cur = (start + n) as u32;
            let run = run_from(frags, cur);
            &&& n + run.len() <= stream.len()
            &&& run == stream.subrange(n, n + run.len())
            &&& gathered(after_run(frags, cur), start, stream, pieces, n + run.len())
        }),
    decreases frags.len(),
{
    let cur = (start + n) as u32;
    if frags.contains_key(cur) {
        let i = choose|i: int| #[trigger] begins_at(pieces, i, cur - start, n);
        let hi = pieces[i].1;
        let head = frags[cur];
        assert(head == stream.subrange(n, hi));
        let next = crate::seq::advance(cur, head.len() as int);
        assert(next == start + hi);
        let less = frags.remove(cur);
        assert forall|j: int| 0 <= j < pieces.len() && (#[trigger] pieces[j]).0 > n implies
            pieces[j].0 >= hi by {
            if j < i {
                assert(pieces[j].1 <= pieces[i].0 || pieces[i].1 <= pieces[j].0);
            } else if i < j {
                assert(pieces[i].1 <= pieces[j].0 || pieces[j].1 <= pieces[i].0);
            }
        }
        assert forall|k: u32| #[trigger] less.contains_key(k) implies exists|j: int| #[trigger]
            begins_at(pieces, j, k - start, hi) by {
            assert(frags.contains_key(k));
            let j = choose|j: int| #[trigger] begins_at(pieces, j, k - start, n);
            assert(pieces[j].0 > n);
            assert(begins_at(pieces, j, k - start, hi));
        }
        assert forall|j: int| 0 <= j < pieces.len() && (#[trigger] pieces[j]).0 < hi implies
            pieces[j].1 <= hi by {
            if pieces[j].0 == n && j != i {
                if j < i {
                    assert(pieces[j].1 <= pieces[i].0 || pieces[i].1 <= pieces[j].0);
                } else {
                    assert(pieces[i].1 <= pieces[j].0 || pieces[j].1 <= pieces[i].0);
                }
            }
        }
        assert(holds_pieces(less, start, stream, pieces, hi));
        assert forall|x: int| 0 <= x < hi implies #[trigger] reported(pieces, x) by {
            if x >= n {
                assert(in_span(pieces, i, x));
            }
        }
        lemma_run_gathers(less, start, stream, pieces, hi);
        let tail = run_from(less, next);
        assert(run_from(frags, cur) =~= stream.subrange(n, hi + tail.len()));
    } else {
        assert(stream.subrange(n, n) =~= Seq::<u8>::empty());
        if reported(pieces, n) {
            let i = choose|i: int| #[trigger] in_span(pieces, i, n);
            assert(pieces[i].0 >= n);
            assert(false);
        }
    }
}

/// One more piece.
pub proof fn lemma_piece_gathers(
    b: Buffered,
    start: u32,
    stream: Seq<u8>,
    pieces: Seq<(int, int)>,
    piece: (int, int),
    n: int,
)
    requires
        is_cut(pieces.push(piece), stream.len() as int),
        start + stream.len() < 0x1_0000_0000,
        gathered(b.frags, start, stream, pieces, n),
        piece.0 <= n + MAX_AHEAD,
    ensures
        ({
            let seq = crate::seq::advance(b.base, start + piece.0);
            let rcv_nxt = crate::seq::advance(b.base, start + n);
            let data = stream.subrange(piece.0, piece.1);
            let out = delivered(b, seq, data, rcv_nxt);
            &&& n + out.len() <= stream.len()
            &&& out == stream.subrange(n, n + out.len())
            &&& gathered(
                received(b, seq, data, rcv_nxt).frags,
                start,
                stream,
                pieces.push(piece),
                n + out.len(),
            )
        }),
{
    let all = pieces.push(piece);
    let last = pieces.len() as int;
    assert(all[last] == piece);
    assert forall|i: int| 0 <= i < pieces.len() implies all[i] == #[trigger] pieces[i] by {}
    let seq = crate::seq::advance(b.base, start + piece.0);
    let rcv_nxt = crate::seq::advance(b.base, start + n);
    let data = stream.subrange(piece.0, piece.1);
    assert(seq.wrapping_sub(b.base) == start + piece.0);
    assert(rcv_nxt.wrapping_sub(b.base) == start + n);
    if piece.0 < n {
        assert(reported(pieces, piece.0));
        let i = choose|i: int| #[trigger] in_span(pieces, i, piece.0);
        assert(all[i] == pieces[i]);
        assert(all[i].1 <= all[last].0 || all[last].1 <= all[i].0);
        assert(false);
    }
    let frags = with_segment(b, seq, data, rcv_nxt);
    let at = (start + piece.0) as u32;
    assert(frags == b.frags.insert(at, data));
    assert forall|k: u32| #[trigger] frags.contains_key(k) implies exists|i: int| #[trigger]
        begins_at(all, i, k - start, n) by {
        if k == at {
            assert(begins_at(all, last, k - start, n));
        } else {
            assert(b.frags.contains_key(k));
            let i = choose|i: int| #[trigger] begins_at(pieces, i, k - start, n);
            assert(all[i] == pieces[i]);
            assert(begins_at(all, i, k - start, n));
        }
    }
    assert forall|i: int| 0 <= i < all.len() && (#[trigger] all[i]).0 >= n implies
        frags.contains_key((start + all[i].0) as u32) && frags[(start + all[i].0) as u32]
        == stream.subrange(all[i].0, all[i].1) by {
        if i < last {
            assert(all[i] == pieces[i]);
            assert(all[i].1 <= all[last].0 || all[last].1 <= all[i].0);
            assert((start + all[i].0) as u32 != at);
        }
    }
    assert forall|i: int| 0 <= i < all.len() && (#[trigger] all[i]).0 < n implies all[i].1 <= n by {
        assert(all[i] == pieces[i]);
    }
    assert forall|x: int| 0 <= x < n implies #[trigger] reported(all, x) by {
        assert(reported(pieces, x));
        let i = choose|i: int| #[trigger] in_span(pieces, i, x);
        assert(all[i] == pieces[i]);
        assert(in_span(all, i, x));
    }
    lemma_run_gathers(frags, start, stream, all, n);
}

/// The pieces of a stream fed one after the other to a new buffer whose first byte is `base`:
/// the buffer, and everything delivered so far. RCV.NXT follows what is delivered.
pub open spec fn fed_in_order(base: u32, stream: Seq<u8>, pieces: Seq<(int, int)>) -> (
    Buffered,
    Seq<u8>,
)
    decreases pieces.len(),
{
    if pieces.len() == 0 {
        (empty_at(base), Seq::empty())
    } else {
        let (b, got) = fed_in_order(base, stream, pieces.drop_last());
        let (lo, hi) = pieces.last();
        let seq = crate::seq::advance(base, lo);
        let rcv_nxt = crate::seq::advance(base, got.len() as int);
        let data = stream.subrange(lo, hi);
        (received(b, seq, data, rcv_nxt), got + delivered(b, seq, data, rcv_nxt))
    }
}

/// Each piece begins at most `MAX_AHEAD` past what is expected when it comes.
pub open spec fn timely(base: u32, stream: Seq<u8>, pieces: Seq<(int, int)>) -> bool {
    forall|k: int|
        0 <= k < pieces.len() ==> (#[trigger] pieces[k]).0 <= fed_in_order(
            base,
            stream,
            pieces.take(k),
        ).1.len() + MAX_AHEAD
}

/// What is delivered is the stream's beginning, and the buffer holds the rest of the pieces.
#[verifier::spinoff_prover]
#[verifier::rlimit(40)]
proof fn lemma_feeding_gathers(base: u32, stream: Seq<u8>, pieces: Seq<(int, int)>)
    requires
        stream.len() < 0x1_0000_0000,
        is_cut(pieces, stream.len() as int),
        timely(base, stream, pieces),
    ensures
        ({
            let (b, got) = fed_in_order(base, stream, pieces);
            &&& b.base == base
            &&& got == stream.take(got.len() as int)
            &&& gathered(b.frags, 0, stream, pieces, got.len() as int)
        }),
    decreases pieces.len(),
{
    let (b, got) = fed_in_order(base, stream, pieces);
    if pieces.len() == 0 {
        assert(got =~= stream.take(0));
        assert(!reported(pieces, 0));
    } else {
        let short = pieces.drop_last();
        let piece = pieces.last();
        assert(short.push(piece) =~= pieces);
        assert(pieces[pieces.len() - 1] == piece);
        assert(pieces.take(pieces.len() - 1) =~= short);
        lemma_shorter_run(base, stream, pieces);
        lemma_feeding_gathers(base, stream, short);
        let (b0, got0) = fed_in_order(base, stream, short);
        lemma_piece_gathers(b0, 0, stream, short, piece, got0.len() as int);
        assert(got =~= stream.take(got.len() as int));
    }
}

/// A run without its last piece is a run.
proof fn lemma_shorter_run(base: u32, stream: Seq<u8>, pieces: Seq<(int, int)>)
    requires
        pieces.len() > 0,
        is_cut(pieces, stream.len() as int),
        timely(base, stream, pieces),
    ensures
        is_cut(pieces.drop_last(), stream.len() as int),
        timely(base, stream, pieces.drop_last()),
{
    let short = pieces.drop_last();
    assert forall|i: int| 0 <= i < short.len() implies pieces[i] == #[trigger] short[i] by {}
    assert forall|k: int| 0 <= k < short.len() implies (#[trigger] short[k]).0 <= fed_in_order(
        base,
        stream,
        short.take(k),
    ).1.len() + MAX_AHEAD by {
        assert(short[k] == pieces[k]);
        assert(short.take(k) =~= pieces.take(k));
    }
}

/// The order of arrival does not matter. A stream cut into pieces that arrive once each, in any
/// order: what has been delivered is always the longest prefix received so far, and once
/// everything is in, it is the whole stream and the buffer is empty.
pub proof fn law_any_order_gives_the_stream(base: u32, stream: Seq<u8>, pieces: Seq<(int, int)>)
    requires
        stream.len() < 0x1_0000_0000,
        is_cut(pieces, stream.len() as int),
        timely(base, stream, pieces),
    ensures
        ({
            let (b, got) = fed_in_order(base, stream, pieces);
            &&& is_longest_prefix(pieces, stream.len() as int, got.len() as int)
            &&& got == stream.take(got.len() as int)
            &&& (forall|x: int| 0 <= x < stream.len() ==> #[trigger] reported(pieces, x)) ==> got
                == stream && b.frags.len() == 0
        }),
{
    let (b, got) = fed_in_order(base, stream, pieces);
    let len = stream.len() as int;
    lemma_feeding_gathers(base, stream, pieces);
    if forall|x: int| 0 <= x < stream.len() ==> #[trigger] reported(pieces, x) {
        if got.len() < len {
            assert(reported(pieces, got.len() as int));
        }
        assert(stream.take(len) =~= stream);
        assert forall|k: u32| !b.frags.contains_key(k) by {
            if b.frags.contains_key(k) {
                let i = choose|i: int| #[trigger] begins_at(pieces, i, k - 0u32, len);
                assert(pieces[i].0 < len);
            }
        }
        assert(b.frags =~= Map::empty());
    }
}

/// What is buffered and what is not, over offsets from the start of the stream: a segment that starts
/// before RCV.NXT is taken if it reaches past it; any other, if it has data and starts at most 65,536
/// bytes ahead. One that is not taken delivers nothing and changes nothing.
pub proof fn law_what_is_buffered(b: Buffered, seq: u32, data: Seq<u8>, rcv_nxt: u32)
    ensures
        ({
            let at = (seq - b.base) % 0x1_0000_0000;
            let next = (rcv_nxt - b.base) % 0x1_0000_0000;
            let taken = if at < next {
                at + data.len() > next
            } else {
                data.len() > 0 && at <= next + 65_536
            };
            &&& acceptable(b, seq, data, rcv_nxt) <==> taken
            &&& !taken ==> received(b, seq, data, rcv_nxt) == b && delivered(
                b,
                seq,
                data,
                rcv_nxt,
            ).len() == 0
        }),
{
}

} // verus!
