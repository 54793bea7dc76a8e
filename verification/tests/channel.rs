use nostale_crypto::channel::{
    decrypt_channel_byte, do_world_channel_decrypt, pack_delimiter, world_channel_decrypt,
};

#[test]
fn mode_0_subtracts_offset_and_base() {
    assert_eq!(
        do_world_channel_decrypt(&[0x00, 0x41, 0x80, 0xFF], 0, 0x10),
        vec![0xB0, 0xF1, 0x30, 0xAF]
    );
}

#[test]
fn mode_1_adds_offset_and_base() {
    assert_eq!(
        do_world_channel_decrypt(&[0x00, 0x41, 0x80, 0xFF], 1, 0x10),
        vec![0x50, 0x91, 0xD0, 0x4F]
    );
}

#[test]
fn mode_2_subtracts_then_xors() {
    assert_eq!(
        do_world_channel_decrypt(&[0x00, 0x41, 0x80, 0xFF], 2, 0x10),
        vec![0x73, 0x32, 0xF3, 0x6C]
    );
}

#[test]
fn mode_3_adds_then_xors() {
    assert_eq!(
        do_world_channel_decrypt(&[0x00, 0x41, 0x80, 0xFF], 3, 0x10),
        vec![0x93, 0x52, 0x13, 0x8C]
    );
}

#[test]
fn modes_above_three_subtract_0x0f() {
    assert_eq!(
        do_world_channel_decrypt(&[0x00, 0x0F, 0x41, 0xFF], 7, 0x10),
        vec![0xF1, 0x00, 0x32, 0xF0]
    );
    assert_eq!(do_world_channel_decrypt(&[0x41], 4, 0x99), vec![0x32]);
    assert_eq!(do_world_channel_decrypt(&[0x41], 255, 0x00), vec![0x32]);
}

#[test]
fn decrypting_nothing_gives_nothing() {
    for mode in 0..=4u8 {
        assert_eq!(do_world_channel_decrypt(&[], mode, 0x33), Vec::<u8>::new());
    }
    assert_eq!(world_channel_decrypt(&[], 0x1234), Vec::<u8>::new());
}

#[test]
fn decrypt_channel_byte_matches_the_table() {
    assert_eq!(decrypt_channel_byte(0x41, 0, 0x10), 0xF1);
    assert_eq!(decrypt_channel_byte(0x41, 1, 0x10), 0x91);
    assert_eq!(decrypt_channel_byte(0x41, 2, 0x10), 0x32);
    assert_eq!(decrypt_channel_byte(0x41, 3, 0x10), 0x52);
    assert_eq!(decrypt_channel_byte(0x41, 9, 0x10), 0x32);
}

#[test]
fn world_channel_decrypt_derives_mode_and_offset() {
    let cipher = [0x00u8, 0x41, 0x80, 0xFF];
    // Key 0x1234: mode 0, offset 0x34.
    assert_eq!(world_channel_decrypt(&cipher, 0x1234), do_world_channel_decrypt(&cipher, 0, 0x34));
    assert_eq!(world_channel_decrypt(&cipher, 0x1234), vec![0x8C, 0xCD, 0x0C, 0x8B]);
    // Key 0x0355: mode 1, offset 0x55.
    assert_eq!(world_channel_decrypt(&cipher, 0x0355), vec![0x95, 0xD6, 0x15, 0x94]);
    // Key 0x0080: mode 2, offset 0x80.
    assert_eq!(world_channel_decrypt(&cipher, 0x0080), vec![0x83, 0x42, 0x03, 0xFC]);
    // Key 0xABCD: mode 3, offset 0xCD.
    assert_eq!(world_channel_decrypt(&cipher, 0xABCD), vec![0xCE, 0x8D, 0x4E, 0xCF]);
}

#[test]
fn pack_delimiter_of_each_mode() {
    assert_eq!(pack_delimiter(0x00, 0), 0x3F);
    assert_eq!(pack_delimiter(0x00, 1), 0xBF);
    assert_eq!(pack_delimiter(0x00, 2), 0xFC);
    assert_eq!(pack_delimiter(0x00, 3), 0x7C);
    assert_eq!(pack_delimiter(0x10, 0), 0x4F);
    assert_eq!(pack_delimiter(0x10, 1), 0xAF);
    assert_eq!(pack_delimiter(0x10, 2), 0x8C);
    assert_eq!(pack_delimiter(0x10, 3), 0x6C);
    assert_eq!(pack_delimiter(0xC5, 0), 0x04);
    assert_eq!(pack_delimiter(0xC5, 1), 0xFA);
    assert_eq!(pack_delimiter(0xC5, 2), 0xC7);
    assert_eq!(pack_delimiter(0xC5, 3), 0x39);
}

#[test]
fn pack_delimiter_sends_0xff_through_the_paired_mode() {
    for offset in 0..=255u8 {
        assert_eq!(pack_delimiter(offset, 0), decrypt_channel_byte(0xFF, 1, offset));
        assert_eq!(pack_delimiter(offset, 1), decrypt_channel_byte(0xFF, 0, offset));
        assert_eq!(pack_delimiter(offset, 2), decrypt_channel_byte(0xFF, 3, offset));
        assert_eq!(pack_delimiter(offset, 3), decrypt_channel_byte(0xFF, 2, offset));
    }
}

#[test]
fn delimiter_of_modes_0_and_1_decrypts_to_0xff() {
    for offset in 0..=255u8 {
        assert_eq!(decrypt_channel_byte(pack_delimiter(offset, 0), 0, offset), 0xFF);
        assert_eq!(decrypt_channel_byte(pack_delimiter(offset, 1), 1, offset), 0xFF);
    }
}

#[test]
fn modes_0_and_1_undo_each_other() {
    for offset in 0..=255u8 {
        for byte in 0..=255u8 {
            let up = decrypt_channel_byte(byte, 1, offset);
            assert_eq!(decrypt_channel_byte(up, 0, offset), byte);
            let down = decrypt_channel_byte(byte, 0, offset);
            assert_eq!(decrypt_channel_byte(down, 1, offset), byte);
        }
    }
}

#[test]
fn every_mode_is_undone_by_the_matching_cipher() {
    for mode in 0..=3u8 {
        for offset in 0..=255u8 {
            let shift = offset.wrapping_add(0x40);
            for plain in 0..=255u8 {
                let cipher = match mode {
                    0 => plain.wrapping_add(shift),
                    1 => plain.wrapping_sub(shift),
                    2 => (plain ^ 0xC3).wrapping_add(shift),
                    _ => (plain ^ 0xC3).wrapping_sub(shift),
                };
                assert_eq!(decrypt_channel_byte(cipher, mode, offset), plain);
            }
        }
    }
}

#[test]
fn modes_2_and_3_undo_each_other_where_xor_and_shift_commute() {
    for offset in 0..=255u8 {
        let shift = offset.wrapping_add(0x40);
        for byte in 0..=255u8 {
            let commutes = byte.wrapping_add(shift) ^ 0xC3 == (byte ^ 0xC3).wrapping_add(shift);
            let sent = decrypt_channel_byte(byte, 3, offset);
            assert_eq!(decrypt_channel_byte(sent, 2, offset) == byte, commutes);
        }
    }
}

#[test]
fn modes_2_and_3_do_not_undo_each_other_everywhere() {
    let sent = decrypt_channel_byte(0x00, 3, 0x00);
    assert_eq!(sent, 0x83);
    assert_eq!(decrypt_channel_byte(sent, 2, 0x00), 0x80);
    let sent = decrypt_channel_byte(0x40, 2, 0x00);
    assert_eq!(sent, 0xC3);
    assert_eq!(decrypt_channel_byte(sent, 3, 0x00), 0xC0);
}

#[test]
fn modes_2_and_3_undo_each_other_at_offsets_0x40_and_0xc0() {
    for offset in [0x40u8, 0xC0] {
        for byte in 0..=255u8 {
            let sent = decrypt_channel_byte(byte, 3, offset);
            assert_eq!(decrypt_channel_byte(sent, 2, offset), byte);
            let sent = decrypt_channel_byte(byte, 2, offset);
            assert_eq!(decrypt_channel_byte(sent, 3, offset), byte);
        }
    }
}
