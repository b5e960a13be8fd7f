use turbo_vec::quant::packed::{pack_indices, pack_sign_bits, unpack_indices, unpack_sign_bits};

#[test]
fn test_roundtrip_1bit() {
    let indices: Vec<u32> = vec![0, 1, 1, 0, 1, 0, 0, 1, 1];
    let packed = pack_indices(&indices, 1);
    let unpacked = unpack_indices(&packed, 1, indices.len());
    assert_eq!(indices, unpacked);
}

#[test]
fn test_roundtrip_2bit() {
    let indices: Vec<u32> = vec![0, 1, 2, 3, 2, 1, 0, 3, 1];
    let packed = pack_indices(&indices, 2);
    let unpacked = unpack_indices(&packed, 2, indices.len());
    assert_eq!(indices, unpacked);
}

#[test]
fn test_roundtrip_4bit() {
    let indices: Vec<u32> = (0..16).collect();
    let packed = pack_indices(&indices, 4);
    let unpacked = unpack_indices(&packed, 4, indices.len());
    assert_eq!(indices, unpacked);
}

#[test]
fn test_roundtrip_8bit() {
    let indices: Vec<u32> = (0..256).collect();
    let packed = pack_indices(&indices, 8);
    let unpacked = unpack_indices(&packed, 8, indices.len());
    assert_eq!(indices, unpacked);
}

#[test]
fn test_roundtrip_3bit() {
    let indices: Vec<u32> = vec![0, 1, 2, 3, 4, 5, 6, 7, 3, 5];
    let packed = pack_indices(&indices, 3);
    let unpacked = unpack_indices(&packed, 3, indices.len());
    assert_eq!(indices, unpacked);
}

#[test]
fn test_roundtrip_5bit() {
    let indices: Vec<u32> = (0..32).collect();
    let packed = pack_indices(&indices, 5);
    let unpacked = unpack_indices(&packed, 5, indices.len());
    assert_eq!(indices, unpacked);
}

#[test]
fn test_signs_roundtrip() {
    let values: Vec<f32> = vec![1.0, -2.0, 0.0, 3.5, -0.1, 0.001, -100.0, 42.0, -1.0];
    let flags: Vec<bool> = values.iter().map(|v| *v >= 0.0).collect();
    let packed = pack_sign_bits(&flags);
    let unpacked: Vec<f32> = unpack_sign_bits(&packed, values.len())
        .iter()
        .map(|&b| if b { 1.0 } else { -1.0 })
        .collect();
    for (v, s) in values.iter().zip(unpacked.iter()) {
        if *v >= 0.0 {
            assert_eq!(*s, 1.0);
        } else {
            assert_eq!(*s, -1.0);
        }
    }
}

#[test]
fn packs_two_bit_codes_low_bits_first() {
    // 1 -> bits 0..2, 2 -> bits 2..4, 3 -> bits 4..6
    assert_eq!(pack_indices(&[1, 2, 3], 2), vec![0b0011_1001]);
}

#[test]
fn packs_one_bit_codes_as_nonzero_flags() {
    assert_eq!(pack_indices(&[0, 5, 0, 1, 0, 0, 0, 0, 2], 1), vec![0b0000_1010, 0b0000_0001]);
}

#[test]
fn packs_nibbles_low_first() {
    assert_eq!(pack_indices(&[0x3, 0xA, 0xF], 4), vec![0xA3, 0x0F]);
}

#[test]
fn packs_bytes_one_per_code_cut_to_eight_bits() {
    assert_eq!(pack_indices(&[1, 255, 256 + 7], 8), vec![1, 255, 7]);
}

#[test]
fn packs_three_bit_codes_across_bytes() {
    // 5 = 101 at bits 0..3, 6 = 110 at bits 3..6, 7 = 111 at bits 6..9
    let packed = pack_indices(&[5, 6, 7], 3);
    assert_eq!(packed, vec![0b1111_0101, 0b0000_0001]);
    assert_eq!(unpack_indices(&packed, 3, 3), vec![5, 6, 7]);
}

#[test]
fn general_width_keeps_only_low_bits() {
    // 9 = 1001 at width 3 is stored as 001
    let packed = pack_indices(&[9, 2], 3);
    assert_eq!(unpack_indices(&packed, 3, 2), vec![1, 2]);
}

#[test]
fn packed_length_rounds_bits_up_to_bytes() {
    assert_eq!(pack_indices(&[1; 9], 1).len(), 2);
    assert_eq!(pack_indices(&[1; 5], 2).len(), 2);
    assert_eq!(pack_indices(&[1; 3], 4).len(), 2);
    assert_eq!(pack_indices(&[1; 3], 5).len(), 2);
    assert_eq!(pack_indices(&[1; 3], 7).len(), 3);
    assert_eq!(pack_indices(&[], 0).len(), 0);
}

#[test]
fn unpack_at_width_eight_reads_every_byte() {
    assert_eq!(unpack_indices(&[4, 5, 6], 8, 1), vec![4, 5, 6]);
}

#[test]
fn roundtrip_at_seventeen_bits() {
    let indices: Vec<u32> = vec![0x1FFFF, 0, 0x10001, 12345, 0x1FFFE, 7, 0x15555, 0x0AAAA, 1];
    let packed = pack_indices(&indices, 17);
    assert_eq!(unpack_indices(&packed, 17, indices.len()), indices);
}

#[test]
fn wide_codes_come_back_whole() {
    // At width 23 the second code starts at bit 23, bit 7 of byte 2, and runs
    // into byte 5.
    let packed = pack_indices(&[0, 0x7F_FFFF], 23);
    assert_eq!(packed.len(), 6);
    assert_eq!(packed, vec![0, 0, 0x80, 0xFF, 0xFF, 0x3F]);
    assert_eq!(unpack_indices(&packed, 23, 2), vec![0, 0x7F_FFFF]);
}

#[test]
fn roundtrip_at_thirty_one_bits() {
    let indices: Vec<u32> = vec![0x7FFF_FFFF, 0, 0x4000_0001, 123_456_789, 0x7FFF_FFFE, 7, 0x5555_5555, 1];
    let packed = pack_indices(&indices, 31);
    assert_eq!(packed.len(), (indices.len() * 31 + 7) / 8);
    assert_eq!(unpack_indices(&packed, 31, indices.len()), indices);
}

#[test]
fn sign_bits_pack_true_as_set() {
    let packed = pack_sign_bits(&[true, false, true, true, false, false, false, false, true]);
    assert_eq!(packed, vec![0b0000_1101, 0b0000_0001]);
    assert_eq!(
        unpack_sign_bits(&packed, 9),
        vec![true, false, true, true, false, false, false, false, true]
    );
}
