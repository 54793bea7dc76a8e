use nostale_crypto::unpack::{world_channel_unpack, PERMUTATIONS};

#[test]
fn permutations_table() {
    assert_eq!(
        PERMUTATIONS,
        [
            0x00, 0x20, 0x2D, 0x2E, b'0', b'1', b'2', b'3', b'4', b'5', b'6', b'7', b'8', b'9',
            0xFF, 0x00
        ]
    );
}

#[test]
fn linear_run_inverts_its_bytes() {
    assert_eq!(world_channel_unpack(&[0x02, 0x00, 0x00]), vec![0xFF, 0xFF]);
    assert_eq!(world_channel_unpack(&[0x01, 0xBE]), vec![0x41]);
}

#[test]
fn compact_run_maps_nibbles() {
    assert_eq!(world_channel_unpack(&[0x82, 0x12]), vec![0x20, 0x2D]);
}

#[test]
fn empty_payload_unpacks_to_nothing() {
    assert_eq!(world_channel_unpack(&[]), Vec::<u8>::new());
}

#[test]
fn runs_of_length_zero_yield_nothing() {
    assert_eq!(world_channel_unpack(&[0x00]), Vec::<u8>::new());
    assert_eq!(world_channel_unpack(&[0x80]), Vec::<u8>::new());
    assert_eq!(world_channel_unpack(&[0x00, 0x80, 0x00]), Vec::<u8>::new());
}

#[test]
fn header_without_source_yields_nothing() {
    assert_eq!(world_channel_unpack(&[0xFF]), Vec::<u8>::new());
    assert_eq!(world_channel_unpack(&[0x7F]), Vec::<u8>::new());
}

#[test]
fn truncated_linear_run_yields_what_is_there() {
    assert_eq!(world_channel_unpack(&[0x05, 0xFF, 0xFE]), vec![0x00, 0x01]);
}

#[test]
fn truncated_compact_run_yields_what_is_there() {
    assert_eq!(world_channel_unpack(&[0x86, 0x12]), vec![0x20, 0x2D]);
}

#[test]
fn compact_run_of_odd_length_drops_the_last_low_nibble() {
    assert_eq!(world_channel_unpack(&[0x83, 0x45, 0x67]), b"012".to_vec());
    assert_eq!(world_channel_unpack(&[0x83, 0x45, 0x60]), b"012".to_vec());
    assert_eq!(world_channel_unpack(&[0x81, 0x45, 0x01, 0x00]), vec![0x30, 0xFF]);
}

#[test]
fn zero_low_nibble_ends_a_byte_early() {
    assert_eq!(world_channel_unpack(&[0x84, 0x40, 0x56]), b"012".to_vec());
    // The byte with the early end is still consumed: the next run starts after
    // the second source byte.
    assert_eq!(world_channel_unpack(&[0x84, 0x40, 0x56, 0x01, 0x00]), vec![0x30, 0x31, 0x32, 0xFF]);
}

#[test]
fn nibbles_0_14_and_15() {
    assert_eq!(world_channel_unpack(&[0x82, 0xEF]), vec![0xFF, 0x00]);
    assert_eq!(world_channel_unpack(&[0x82, 0x0F, 0x03]), vec![0x00, 0x00]);
}

#[test]
fn every_nibble_pair_of_a_compact_run() {
    for byte in 0..=255u8 {
        let high = PERMUTATIONS[usize::from(byte >> 4)];
        let low = PERMUTATIONS[usize::from(byte & 0x0F)];
        let expected = if byte & 0x0F == 0 { vec![high] } else { vec![high, low] };
        assert_eq!(world_channel_unpack(&[0x82, byte]), expected);
        assert_eq!(world_channel_unpack(&[0x81, byte]), vec![high]);
    }
}

#[test]
fn runs_follow_one_another() {
    assert_eq!(
        world_channel_unpack(&[0x01, 0xBE, 0x82, 0x1D, 0x02, 0x9E]),
        vec![0x41, 0x20, 0x39, 0x61]
    );
    assert_eq!(
        world_channel_unpack(&[0x03, 0x00, 0x00, 0x00, 0x83, 0x58, 0x90, 0x01, 0xDF]),
        vec![0xFF, 0xFF, 0xFF, 0x31, 0x34, 0x35, 0x20]
    );
}

#[test]
fn longest_runs() {
    let mut payload = vec![0x7Fu8];
    payload.extend(std::iter::repeat(0xAA).take(127));
    assert_eq!(world_channel_unpack(&payload), vec![0x55u8; 127]);
    let mut payload = vec![0xFFu8];
    payload.extend(std::iter::repeat(0x55).take(64));
    assert_eq!(world_channel_unpack(&payload), vec![b'1'; 127]);
}

#[test]
fn payload_cut_short_unpacks_to_a_prefix() {
    let payload = [
        0x03u8, 0x00, 0x01, 0x02, 0x85, 0x58, 0x90, 0xAB, 0x01, 0xDF, 0x82, 0x40, 0x56, 0x7F, 0x11,
    ];
    let whole = world_channel_unpack(&payload);
    assert_eq!(
        whole,
        vec![0xFF, 0xFE, 0xFD, 0x31, 0x34, 0x35, 0x36, 0x37, 0x20, 0x30, 0x80, 0xEE]
    );
    for n in 0..=payload.len() {
        let part = world_channel_unpack(&payload[..n]);
        assert!(part.len() <= whole.len());
        assert_eq!(part[..], whole[..part.len()]);
    }
}
