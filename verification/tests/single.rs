use raytracer::single::{floor_byte, nearest_to, Single};

fn value(s: Single) -> f64 {
    (s.sig as f64) * 2f64.powi(s.exp)
}

#[test]
fn small_whole_numbers_are_kept() {
    for x in [1u64, 2, 3, 255, 1000, 8388607, 8388608, 16777215] {
        assert_eq!(value(nearest_to(x, 1)), x as f64);
    }
    assert_eq!(nearest_to(0, 1), Single { sig: 0, exp: 0 });
    assert_eq!(nearest_to(0, 77), Single { sig: 0, exp: 0 });
    assert_eq!(nearest_to(1, 1), Single { sig: 0x80_0000, exp: -23 });
    assert_eq!(nearest_to(12582912, 1), Single { sig: 12582912, exp: 0 });
}

#[test]
fn ties_go_to_the_even_significand() {
    // 2^24 + 1 lies midway between 2^24 and 2^24 + 2.
    assert_eq!(nearest_to(16777217, 1), Single { sig: 0x80_0000, exp: 1 });
    assert_eq!(nearest_to(16777218, 1), Single { sig: 0x80_0001, exp: 1 });
    // 2^24 + 3 lies midway between 2^24 + 2 and 2^24 + 4.
    assert_eq!(nearest_to(16777219, 1), Single { sig: 0x80_0002, exp: 1 });
    assert_eq!(value(nearest_to(16777219, 1)), 16777220.0);
    // One half and three halves.
    assert_eq!(value(nearest_to(1, 2)), 0.5);
    assert_eq!(value(nearest_to(3, 2)), 1.5);
}

#[test]
fn rounding_up_may_reach_the_next_power_of_two() {
    let r = nearest_to(u64::MAX, 1);
    assert_eq!(r, Single { sig: 0x100_0000, exp: 40 });
    assert_eq!(value(r), 18446744073709551616.0);
    assert_eq!(value(r), (u64::MAX as f32) as f64);
    assert_eq!(value(nearest_to(33554431, 1)), 33554432.0);
}

#[test]
fn whole_numbers_round_as_the_machine_rounds_them() {
    let mut state: u64 = 0x2545_F491_4F6C_DD1D;
    for _ in 0..20000 {
        state ^= state << 13;
        state ^= state >> 7;
        state ^= state << 17;
        let x = state >> (state % 64);
        assert_eq!(value(nearest_to(x, 1)), (x as f32) as f64, "{}", x);
    }
}

#[test]
fn quotients_round_as_the_machine_rounds_them() {
    assert_eq!(value(nearest_to(1, 3)), (1.0f32 / 3.0f32) as f64);
    assert_eq!(value(nearest_to(8585987, 12582912)), 11447983.0 / 16777216.0);
    let mut state: u64 = 0x1234_5678_9ABC_DEF1;
    for _ in 0..20000 {
        state ^= state << 13;
        state ^= state >> 7;
        state ^= state << 17;
        let a = state % (1 << 24);
        let b = 1 + (state >> 32) % ((1 << 24) - 1);
        assert_eq!(value(nearest_to(a, b)), ((a as f32) / (b as f32)) as f64, "{} / {}", a, b);
    }
}

#[test]
fn products_with_255_round_as_the_machine_rounds_them() {
    let mut state: u64 = 0x0F0F_1234_5678_9ABC;
    for _ in 0..20000 {
        state ^= state << 13;
        state ^= state >> 7;
        state ^= state << 17;
        let m = (1 << 23) + state % (1 << 23);
        let got = value(nearest_to(255 * m, 1));
        assert_eq!(got, (255.0f32 * (m as f32)) as f64, "{}", m);
    }
}

#[test]
fn floor_keeps_the_low_eight_bits() {
    assert_eq!(floor_byte(0, 0), 0);
    assert_eq!(floor_byte(255, 0), 255);
    assert_eq!(floor_byte(256, 0), 0);
    assert_eq!(floor_byte(510, 0), 254);
    assert_eq!(floor_byte(3, 1), 6);
    assert_eq!(floor_byte(3, 7), 128);
    assert_eq!(floor_byte(3, 8), 0);
    assert_eq!(floor_byte(1, i32::MAX), 0);
    assert_eq!(floor_byte(7, -1), 3);
    assert_eq!(floor_byte(7, -3), 0);
    assert_eq!(floor_byte(u32::MAX, -24), 255);
    assert_eq!(floor_byte(u32::MAX, i32::MIN), 0);
    // 174 + 81 * 2^-24 rounds to 174 exactly; 255 * 2^16 * 2^-16 is 255.
    assert_eq!(floor_byte(11403264, -16), 174);
    assert_eq!(floor_byte(255 << 16, -16), 255);
}
