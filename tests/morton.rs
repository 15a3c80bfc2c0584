use voxel_engine::morton::{morton_decode, morton_encode, morton_encode_magicbits};

#[test]
fn test_morton_encoding() {
    let x = 0b1100;
    let y = 0b0101;
    let z = 0b1000;

    let expected_m = 0b101011000010;
    assert_eq!(morton_encode(x, y, z), expected_m);
    assert_eq!(morton_encode_magicbits(x, y, z), expected_m);

    assert_eq!(morton_decode(expected_m), (x, y, z));
}

#[test]
fn encoders_agree_on_samples() {
    let samples: [(u32, u32, u32); 6] = [
        (0, 0, 0),
        (1, 0, 0),
        (0, 1, 0),
        (0, 0, 1),
        (0x1f_ffff, 0x1f_ffff, 0x1f_ffff),
        (123_456, 654_321, 99_999),
    ];
    for (x, y, z) in samples {
        assert_eq!(morton_encode(x, y, z), morton_encode_magicbits(x, y, z));
    }
    assert_eq!(morton_encode(1, 0, 0), 1);
    assert_eq!(morton_encode(0, 1, 0), 2);
    assert_eq!(morton_encode(0, 0, 1), 4);
    assert_eq!(morton_encode(2, 0, 0), 8);
    assert_eq!(morton_encode(0x1f_ffff, 0x1f_ffff, 0x1f_ffff), (1u64 << 63) - 1);
}

#[test]
fn decode_undoes_encode() {
    let samples: [(u32, u32, u32); 5] = [
        (0, 0, 0),
        (7, 3, 1),
        (0x1f_ffff, 0, 0x1f_ffff),
        (1 << 20, 1 << 19, 1 << 18),
        (123_456, 654_321, 99_999),
    ];
    for (x, y, z) in samples {
        assert_eq!(morton_decode(morton_encode(x, y, z)), (x, y, z));
        assert_eq!(morton_decode(morton_encode_magicbits(x, y, z)), (x, y, z));
    }
}

#[test]
fn bits_above_the_21st_are_ignored() {
    assert_eq!(morton_encode(1 << 21, 0, 0), 0);
    assert_eq!(morton_encode_magicbits(u32::MAX, 0, 0), morton_encode(0x1f_ffff, 0, 0));
    assert_eq!(morton_decode(1u64 << 63), (0, 0, 0));
}

#[test]
fn encode_undoes_decode() {
    let codes: [u64; 5] = [0, 1, 0b101011000010, (1u64 << 63) - 1, 0x1234_5678_9abc_def0];
    for c in codes {
        let (x, y, z) = morton_decode(c);
        assert_eq!(morton_encode(x, y, z), c);
        assert_eq!(morton_encode_magicbits(x, y, z), c);
    }
}
