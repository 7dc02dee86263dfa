use planet_raster::depth::depth_key;
use planet_raster::framebuffer::FAR_DEPTH;

fn key(depth: f32) -> u32 {
    depth_key(depth.to_bits())
}

#[test]
fn keys_of_known_depths() {
    assert_eq!(key(0.0), 0x8000_0000);
    assert_eq!(key(-0.0), 0x8000_0000);
    assert_eq!(key(5.0), 0xC0A0_0000);
    assert_eq!(key(3.0), 0xC040_0000);
    assert_eq!(key(1.0), 0xBF80_0000);
    assert_eq!(key(-1.0), 0x4080_0000);
    assert_eq!(key(f32::INFINITY), 0xFF80_0000);
    assert_eq!(key(f32::NEG_INFINITY), 0x0080_0000);
    assert_eq!(key(f32::MAX), 0xFF7F_FFFF);
    assert_eq!(depth_key(0x0000_0001), 0x8000_0001);
    assert_eq!(depth_key(0x8000_0001), 0x7FFF_FFFF);
}

#[test]
fn what_is_not_a_number_is_far() {
    assert_eq!(key(f32::NAN), FAR_DEPTH);
    assert_eq!(depth_key(0x7F80_0001), FAR_DEPTH);
    assert_eq!(depth_key(0xFF80_0001), FAR_DEPTH);
    assert_eq!(depth_key(0xFFFF_FFFF), FAR_DEPTH);
    assert_eq!(depth_key(0x7FC0_0000), FAR_DEPTH);
}

#[test]
fn keys_order_as_the_depths_do() {
    let depths: [f32; 15] = [
        f32::NEG_INFINITY,
        f32::MIN,
        -1.0e10,
        -2.5,
        -1.0,
        -f32::MIN_POSITIVE,
        -1.0e-45,
        0.0,
        1.0e-45,
        f32::MIN_POSITIVE,
        0.999_999_94,
        1.0,
        8.0,
        f32::MAX,
        f32::INFINITY,
    ];
    for (i, a) in depths.iter().enumerate() {
        for (j, b) in depths.iter().enumerate() {
            assert_eq!(key(*a) < key(*b), a < b, "{} {}", i, j);
            assert_eq!(key(*a) == key(*b), a == b, "{} {}", i, j);
        }
        assert!(key(*a) < FAR_DEPTH);
    }
}

#[test]
fn neighbouring_bit_patterns_have_neighbouring_keys() {
    let mut bits: u32 = 1.0f32.to_bits() - 1000;
    while bits < 1.0f32.to_bits() + 1000 {
        assert_eq!(depth_key(bits) + 1, depth_key(bits + 1));
        assert!(f32::from_bits(bits) < f32::from_bits(bits + 1));
        bits += 1;
    }
}
