//! The Internet checksum.
use tcp_stack::utils::checksum;

// A well-known correct IPv4 header (the Wikipedia "Header checksum" worked example).
// Its stored checksum, 0xb861, is the right value for these bytes.
const HDR: [u8; 20] = [
    0x45, 0x00, 0x00, 0x73, 0x00, 0x00, 0x40, 0x00, 0x40, 0x11, 0xb8, 0x61, 0xc0, 0xa8,
    0x00, 0x01, 0xc0, 0xa8, 0x00, 0xc7,
];

#[test]
fn computes_known_checksum() {
    let mut h = HDR;
    h[10] = 0;
    h[11] = 0; // zero the checksum field, then we must reproduce 0xb861
    assert_eq!(checksum(&h), 0xb861);
}

#[test]
fn valid_header_verifies_to_zero() {
    // Summing a correct header *including* its checksum field yields 0.
    assert_eq!(checksum(&HDR), 0);
}

#[test]
fn odd_length_pads_last_byte() {
    // The 3-byte input must equal the 4-byte input padded with a trailing 0x00.
    assert_eq!(checksum(&[0x12, 0x34, 0x56]), checksum(&[0x12, 0x34, 0x56, 0x00]));
}

#[test]
fn empty_data_sums_to_all_ones() {
    assert_eq!(checksum(&[]), 0xffff);
}

#[test]
fn carries_are_folded_back() {
    // 0xffff + 0x0001 folds to 0x0001, whose complement is 0xfffe.
    assert_eq!(checksum(&[0xff, 0xff, 0x00, 0x01]), 0xfffe);
}

#[test]
fn stored_checksum_makes_any_message_verify() {
    for len in [4usize, 5, 20, 33] {
        let mut message: Vec<u8> = (0..len).map(|i| (i * 37 + 11) as u8).collect();
        message[2] = 0;
        message[3] = 0;
        let c = checksum(&message);
        message[2] = (c >> 8) as u8;
        message[3] = (c & 0xff) as u8;
        assert_eq!(checksum(&message), 0);
    }
}
