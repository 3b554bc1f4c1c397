//! Helpers shared across layers: big-endian fields and the Internet checksum (RFC 1071), which
//! the IPv4 header, ICMP, UDP and TCP all use.
use vstd::prelude::*;

verus! {

/// The two bytes of `x`, most significant first.
pub open spec fn be16_bytes(x: u16) -> Seq<u8> {
    seq![(x / 256) as u8, (x % 256) as u8]
}

/// The four bytes of `x`, most significant first.
pub open spec fn be32_bytes(x: u32) -> Seq<u8> {
    seq![
        (x / 0x100_0000) as u8,
        (x / 0x1_0000 % 256) as u8,
        (x / 0x100 % 256) as u8,
        (x % 256) as u8,
    ]
}

/// The number whose two big-endian bytes stand at `i` in `data`.
pub open spec fn be16_at(data: Seq<u8>, i: int) -> u16 {
    (data[i] * 256 + data[i + 1]) as u16
}

/// The number whose four big-endian bytes stand at `i` in `data`.
pub open spec fn be32_at(data: Seq<u8>, i: int) -> u32 {
    (data[i] * 0x100_0000 + data[i + 1] * 0x1_0000 + data[i + 2] * 0x100 + data[i + 3]) as u32
}

/// A 16-bit number is read back from its bytes.
pub proof fn lemma_be16_reads_back(data: Seq<u8>, i: int, x: u16)
    requires
        0 <= i,
        i + 2 <= data.len(),
        data.subrange(i, i + 2) == be16_bytes(x),
    ensures
        be16_at(data, i) == x,
{
    let bytes = data.subrange(i, i + 2);
    assert(data[i] == bytes[0] && data[i + 1] == bytes[1]);
}

/// A 32-bit number is read back from its bytes.
pub proof fn lemma_be32_reads_back(data: Seq<u8>, i: int, x: u32)
    requires
        0 <= i,
        i + 4 <= data.len(),
        data.subrange(i, i + 4) == be32_bytes(x),
    ensures
        be32_at(data, i) == x,
{
    let bytes = data.subrange(i, i + 4);
    assert(data[i] == bytes[0] && data[i + 1] == bytes[1] && data[i + 2] == bytes[2] && data[i + 3]
        == bytes[3]);
    let a = x / 0x100_0000;
    let b = x / 0x1_0000 % 256;
    let c = x / 0x100 % 256;
    let d = x % 256;
    assert(a * 0x100_0000 + b * 0x1_0000 + c * 0x100 + d == x) by (nonlinear_arith)
        requires
            a == x / 0x100_0000,
            b == x / 0x1_0000 % 256,
            c == x / 0x100 % 256,
            d == x % 256,
    ;
}

/// Read the big-endian 16-bit field at `i`.
pub fn read_be16(data: &[u8], i: usize) -> (x: u16)
    requires
        i + 2 <= data@.len(),
    ensures
        x == be16_at(data@, i as int),
{
    data[i] as u16 * 256 + data[i + 1] as u16
}

/// Read the big-endian 32-bit field at `i`.
pub fn read_be32(data: &[u8], i: usize) -> (x: u32)
    requires
        i + 4 <= data@.len(),
    ensures
        x == be32_at(data@, i as int),
{
    data[i] as u32 * 0x100_0000 + data[i + 1] as u32 * 0x1_0000 + data[i + 2] as u32 * 0x100
        + data[i + 3] as u32
}

/// Append `x` in big-endian order.
pub fn push_be16(out: &mut Vec<u8>, x: u16)
    ensures
        final(out)@ == old(out)@ + be16_bytes(x),
{
    out.push((x / 256) as u8);
    out.push((x % 256) as u8);
    assert(out@ =~= old(out)@ + be16_bytes(x));
}

/// Append `x` in big-endian order.
pub fn push_be32(out: &mut Vec<u8>, x: u32)
    ensures
        final(out)@ == old(out)@ + be32_bytes(x),
{
    out.push((x / 0x100_0000) as u8);
    out.push((x / 0x1_0000 % 256) as u8);
    out.push((x / 0x100 % 256) as u8);
    out.push((x % 256) as u8);
    assert(out@ =~= old(out)@ + be32_bytes(x));
}

/// Append every byte of `data`.
pub fn push_all(out: &mut Vec<u8>, data: &[u8])
    ensures
        final(out)@ == old(out)@ + data@,
{
    out.extend_from_slice(data);
    assert(out@ =~= old(out)@ + data@);
}

/// A copy of `data[from..to]`.
pub fn copy_range(data: &[u8], from: usize, to: usize) -> (out: Vec<u8>)
    requires
        from <= to <= data@.len(),
    ensures
        out@ == data@.subrange(from as int, to as int),
{
    let mut out: Vec<u8> = Vec::with_capacity(to - from);
    let mut i: usize = from;
    while i < to
        invariant
            from <= i <= to <= data@.len(),
            out@ == data@.subrange(from as int, i as int),
        decreases to - i,
    {
        out.push(data[i]);
        i += 1;
        assert(out@ =~= data@.subrange(from as int, i as int));
    }
    out
}

/// The contents of a list of packets.
pub open spec fn contents(packets: Seq<Vec<u8>>) -> Seq<Seq<u8>> {
    packets.map_values(|p: Vec<u8>| p@)
}

/// What the byte `x` at index `i` contributes to the sum of big-endian words: the first byte of a word counts 256
/// times its value, the second once. A lone last byte is the first byte of its word.
pub open spec fn weighted(x: int, i: int) -> int {
    if i % 2 == 0 {
        x * 256
    } else {
        x
    }
}

/// The sum of `data` read as big-endian 16-bit words, an odd last byte padded with zero.
pub open spec fn word_sum(data: Seq<u8>) -> int
    decreases data.len(),
{
    if data.len() == 0 {
        0
    } else {
        word_sum(data.drop_last()) + weighted(data.last() as int, data.len() - 1)
    }
}

/// One's-complement folding of a sum into sixteen bits: carries out of the top are added back at
/// the bottom until none is left.
pub open spec fn fold(sum: int) -> int {
    if sum <= 0 {
        0
    } else {
        (sum - 1) % 0xffff + 1
    }
}

/// The Internet checksum: the complement of the folded word sum.
pub open spec fn internet_checksum(data: Seq<u8>) -> u16 {
    (0xffff - fold(word_sum(data))) as u16
}

/// Internet checksum (RFC 1071): the one's complement of the one's-complement sum of the data,
/// taken as big-endian 16-bit words.
///
/// To compute, zero the checksum field, call this and store the result. To verify, call it over
/// the bytes including the stored field: a valid message gives 0.
pub fn checksum(data: &[u8]) -> (c: u16)
    ensures
        c == internet_checksum(data@),
{
    let mut sum: u32 = 0;
    let mut i: usize = 0;
    assert(data@.take(0) =~= Seq::<u8>::empty());
    while i < data.len()
        invariant
            i <= data@.len(),
            i % 2 == 0 || i == data@.len(),
            sum == fold(word_sum(data@.take(i as int))),
            0 <= word_sum(data@.take(i as int)),
        decreases data@.len() - i,
    {
        let ghost done = data@.take(i as int);
        let word: u32;
        if data.len() - i >= 2 {
            word = data[i] as u32 * 256 + data[i + 1] as u32;
            proof {
                let one = data@.take(i + 1);
                let two = data@.take(i + 2);
                assert(one.drop_last() =~= done);
                assert(two.drop_last() =~= one);
                assert(word_sum(one) == word_sum(done) + data@[i as int] * 256);
                assert(word_sum(two) == word_sum(done) + word);
            }
            i += 2;
        } else {
            word = data[i] as u32 * 256;
            proof {
                let one = data@.take(i + 1);
                assert(one.drop_last() =~= done);
                assert(word_sum(one) == word_sum(done) + word);
            }
            i += 1;
        }
        sum = sum + word;
        if sum > 0xffff {
            sum = sum - 0xffff;
        }
    }
    assert(data@.take(i as int) =~= data@);
    (0xffff - sum) as u16
}

/// A word sum is never negative.
pub proof fn lemma_word_sum_nonnegative(data: Seq<u8>)
    ensures
        0 <= word_sum(data),
    decreases data.len(),
{
    if data.len() > 0 {
        lemma_word_sum_nonnegative(data.drop_last());
    }
}

/// Behind a prefix of even length, word sums add up.
pub proof fn lemma_word_sum_concat(a: Seq<u8>, b: Seq<u8>)
    requires
        a.len() % 2 == 0,
    ensures
        word_sum(a + b) == word_sum(a) + word_sum(b),
    decreases b.len(),
{
    if b.len() == 0 {
        assert(a + b =~= a);
    } else {
        assert((a + b).drop_last() =~= a + b.drop_last());
        lemma_word_sum_concat(a, b.drop_last());
    }
}

/// Replacing one byte changes the sum by the weighted difference.
pub proof fn lemma_word_sum_update(data: Seq<u8>, i: int, x: u8)
    requires
        0 <= i < data.len(),
    ensures
        word_sum(data.update(i, x)) == word_sum(data) + weighted(x - data[i], i),
    decreases data.len(),
{
    if i == data.len() - 1 {
        assert(data.update(i, x).drop_last() =~= data.drop_last());
    } else {
        assert(data.update(i, x).drop_last() =~= data.drop_last().update(i, x));
        lemma_word_sum_update(data.drop_last(), i, x);
    }
}

/// `message` with the 16-bit field at `at` overwritten by `x`.
pub open spec fn with_field(message: Seq<u8>, at: int, x: u16) -> Seq<u8> {
    message.update(at, be16_bytes(x)[0]).update(at + 1, be16_bytes(x)[1])
}

/// `message` with its checksum computed into the field at `at`, the field itself counted as zero.
pub open spec fn with_checksum(message: Seq<u8>, at: int) -> Seq<u8> {
    with_field(message, at, internet_checksum(with_field(message, at, 0)))
}

/// `data` with the bytes at `i` and `j` exchanged.
pub open spec fn exchanged_at(data: Seq<u8>, i: int, j: int) -> Seq<u8> {
    data.update(i, data[j]).update(j, data[i])
}

/// Exchanging two bytes on the same side of their words keeps the sum.
pub proof fn lemma_word_sum_exchange(data: Seq<u8>, i: int, j: int)
    requires
        0 <= i < data.len(),
        0 <= j < data.len(),
        i % 2 == j % 2,
    ensures
        word_sum(exchanged_at(data, i, j)) == word_sum(data),
        exchanged_at(data, i, j).len() == data.len(),
{
    let once = data.update(i, data[j]);
    lemma_word_sum_update(data, i, data[j]);
    lemma_word_sum_update(once, j, data[i]);
    assert(once[j] == data[j]);
}

/// Exchanging two neighbouring four-byte fields keeps the sum.
pub proof fn lemma_word_sum_exchange4(data: Seq<u8>, i: int)
    requires
        0 <= i,
        i + 8 <= data.len(),
    ensures
        word_sum(exchanged4(data, i)) == word_sum(data),
        exchanged4(data, i).len() == data.len(),
{
    let a = exchanged_at(data, i, i + 4);
    let b = exchanged_at(a, i + 1, i + 5);
    let c = exchanged_at(b, i + 2, i + 6);
    lemma_word_sum_exchange(data, i, i + 4);
    lemma_word_sum_exchange(a, i + 1, i + 5);
    lemma_word_sum_exchange(b, i + 2, i + 6);
    lemma_word_sum_exchange(c, i + 3, i + 7);
    assert(exchanged_at(c, i + 3, i + 7) =~= exchanged4(data, i));
}

/// `data` with the four bytes at `i` and the four behind them exchanged.
pub open spec fn exchanged4(data: Seq<u8>, i: int) -> Seq<u8> {
    Seq::new(
        data.len(),
        |k: int|
            if i <= k < i + 4 {
                data[k + 4]
            } else if i + 4 <= k < i + 8 {
                data[k - 4]
            } else {
                data[k]
            },
    )
}

/// Storing a checksum makes the message verify: over any message, once its checksum has been
/// computed into a zeroed, word-aligned field, the checksum of the whole is 0.
pub proof fn law_written_checksum_verifies(message: Seq<u8>, at: int)
    requires
        0 <= at,
        at + 2 <= message.len(),
        at % 2 == 0,
    ensures
        internet_checksum(with_checksum(message, at)) == 0,
{
    let zeroed = with_field(message, at, 0);
    let c = internet_checksum(zeroed);
    lemma_word_sum_nonnegative(zeroed);
    lemma_word_sum_update(zeroed, at, be16_bytes(c)[0]);
    lemma_word_sum_update(zeroed.update(at, be16_bytes(c)[0]), at + 1, be16_bytes(c)[1]);
    assert(with_checksum(message, at) =~= with_field(zeroed, at, c));
    assert(word_sum(with_checksum(message, at)) == word_sum(zeroed) + c);
}

/// An odd message and the same message padded with one zero byte have the same checksum.
pub proof fn law_odd_length_pads_with_zero(data: Seq<u8>)
    requires
        data.len() % 2 == 1,
    ensures
        internet_checksum(data.push(0)) == internet_checksum(data),
{
    assert(data.push(0).drop_last() =~= data);
}

} // verus!
