use pixel_scramble::binary64::{
    convert_integer, multiply, round_to_remainder, subtract_from_one, INFINITY_BITS, ONE_BITS,
    SIGN_BIT,
};
use pixel_scramble::scramble::tomato::{compute_offset, offset_of_rounded, GOLDEN_BITS};
use pixel_scramble::utils::logistic::{logistic_step, GROWTH_BITS};

struct Noise(u64);

impl Noise {
    fn next(&mut self) -> u64 {
        self.0 ^= self.0 << 13;
        self.0 ^= self.0 >> 7;
        self.0 ^= self.0 << 17;
        self.0
    }

    /// The pattern of a finite number that is not negative.
    fn finite(&mut self) -> u64 {
        self.next() % INFINITY_BITS
    }

    /// The pattern of a number between zero and one.
    fn unit(&mut self) -> u64 {
        self.next() % (ONE_BITS + 1)
    }
}

#[test]
fn constants_are_the_patterns_of_their_numbers() {
    assert_eq!(ONE_BITS, 1.0f64.to_bits());
    assert_eq!(INFINITY_BITS, f64::INFINITY.to_bits());
    assert_eq!(GROWTH_BITS, 3.9999999f64.to_bits());
    assert_eq!(GOLDEN_BITS, ((5.0f64.sqrt() - 1.0) / 2.0).to_bits());
}

#[test]
fn multiply_exact_values() {
    assert_eq!(multiply(2.0f64.to_bits(), 3.0f64.to_bits()), 6.0f64.to_bits());
    assert_eq!(multiply(0.5f64.to_bits(), 0.5f64.to_bits()), 0.25f64.to_bits());
    assert_eq!(multiply(0, 7.0f64.to_bits()), 0);
    assert_eq!(multiply(ONE_BITS, 0x0000_0000_0000_0001), 1);
    assert_eq!(multiply(0.1f64.to_bits(), 0.2f64.to_bits()), 0x3f94_7ae1_47ae_147c);
}

#[test]
fn multiply_rounds_ties_to_even() {
    let one_and_ulp = ONE_BITS + 1;
    let three_halves = 1.5f64.to_bits();
    assert_eq!(
        multiply(one_and_ulp, three_halves),
        (f64::from_bits(one_and_ulp) * 1.5).to_bits()
    );
    // Half of the smallest number is a tie between zero and the smallest number.
    assert_eq!(multiply(1, 0.5f64.to_bits()), 0);
    assert_eq!(multiply(3, 0.5f64.to_bits()), 2);
    assert_eq!(multiply(5, 0.5f64.to_bits()), 2);
}

#[test]
fn multiply_overflows_to_infinity() {
    assert_eq!(multiply(1e200f64.to_bits(), 1e200f64.to_bits()), INFINITY_BITS);
    assert_eq!(multiply(f64::MAX.to_bits(), 2.0f64.to_bits()), INFINITY_BITS);
    assert_eq!(multiply(f64::MAX.to_bits(), ONE_BITS), f64::MAX.to_bits());
}

#[test]
fn multiply_agrees_with_the_machine() {
    let mut noise = Noise(0x9e37_79b9_7f4a_7c15);
    for _ in 0..200_000 {
        let a = noise.finite();
        let b = noise.finite();
        let expected = (f64::from_bits(a) * f64::from_bits(b)).to_bits();
        assert_eq!(multiply(a, b), expected, "{:#x} * {:#x}", a, b);
    }
}

#[test]
fn multiply_agrees_with_the_machine_near_the_smallest_numbers() {
    let mut noise = Noise(0x1234_5678_9abc_def1);
    for _ in 0..200_000 {
        let a = noise.next() % 0x0040_0000_0000_0000;
        let b = noise.unit() + (noise.next() % 8) * 0x0010_0000_0000_0000;
        let expected = (f64::from_bits(a) * f64::from_bits(b)).to_bits();
        assert_eq!(multiply(a, b), expected, "{:#x} * {:#x}", a, b);
    }
}

#[test]
fn subtract_from_one_exact_values() {
    assert_eq!(subtract_from_one(0), ONE_BITS);
    assert_eq!(subtract_from_one(ONE_BITS), 0);
    assert_eq!(subtract_from_one(0.25f64.to_bits()), 0.75f64.to_bits());
    assert_eq!(subtract_from_one(1), ONE_BITS);
    assert_eq!(subtract_from_one(ONE_BITS - 1), (1.0 - f64::from_bits(ONE_BITS - 1)).to_bits());
    // Two to the power of -54 is half a step below one: a tie, which goes to one.
    assert_eq!(subtract_from_one(0x3c90_0000_0000_0000), ONE_BITS);
    assert_eq!(subtract_from_one(0x3c90_0000_0000_0001), ONE_BITS - 1);
}

#[test]
fn subtract_from_one_agrees_with_the_machine() {
    let mut noise = Noise(0x0fed_cba9_8765_4321);
    for _ in 0..200_000 {
        let x = noise.unit();
        let expected = (1.0 - f64::from_bits(x)).to_bits();
        assert_eq!(subtract_from_one(x), expected, "1 - {:#x}", x);
    }
    for field in 0..=1023u64 {
        for fraction in [0u64, 1, 0x000f_ffff_ffff_ffff, 0x0008_0000_0000_0000] {
            let x = field * 0x0010_0000_0000_0000 + fraction;
            if x <= ONE_BITS {
                let expected = (1.0 - f64::from_bits(x)).to_bits();
                assert_eq!(subtract_from_one(x), expected, "1 - {:#x}", x);
            }
        }
    }
}

#[test]
fn convert_integer_agrees_with_the_machine() {
    assert_eq!(convert_integer(0), 0);
    assert_eq!(convert_integer(1), ONE_BITS);
    assert_eq!(convert_integer(4), 4.0f64.to_bits());
    assert_eq!(convert_integer(u64::MAX), (u64::MAX as f64).to_bits());
    assert_eq!(convert_integer((1 << 53) + 1), 0x4340_0000_0000_0000);
    assert_eq!(convert_integer((1 << 53) + 3), 0x4340_0000_0000_0002);
    let mut noise = Noise(0x2545_f491_4f6c_dd1d);
    for _ in 0..200_000 {
        let n = noise.next() >> (noise.next() % 64);
        assert_eq!(convert_integer(n), (n as f64).to_bits(), "{}", n);
    }
}

/// The remainder, from zero up to `count - 1`, of a number rounded to the
/// nearest integer: by the integer itself where it is small, else by its
/// significand doubled as often as its exponent says.
fn machine_remainder(p: f64, count: u64) -> u64 {
    let rounded = p.round_ties_even();
    let size = rounded.abs();
    let remainder = if size < 9.0e18 {
        (size as u64) % count
    } else {
        let bits = size.to_bits();
        let doublings = (bits >> 52) - 1075;
        let mut r = (((bits & 0x000f_ffff_ffff_ffff) | 0x0010_0000_0000_0000) % count) as u128;
        for _ in 0..doublings {
            r = (2 * r) % count as u128;
        }
        r as u64
    };
    if rounded < 0.0 && remainder != 0 {
        count - remainder
    } else {
        remainder
    }
}

#[test]
fn round_to_remainder_exact_values() {
    assert_eq!(round_to_remainder(0, 7), 0);
    assert_eq!(round_to_remainder(0.4f64.to_bits(), 7), 0);
    assert_eq!(round_to_remainder(0.5f64.to_bits(), 3), 0);
    assert_eq!(round_to_remainder(0.6f64.to_bits(), 7), 1);
    assert_eq!(round_to_remainder(1.5f64.to_bits(), 7), 2);
    assert_eq!(round_to_remainder(2.5f64.to_bits(), 7), 2);
    assert_eq!(round_to_remainder(3.5f64.to_bits(), 7), 4);
    assert_eq!(round_to_remainder(9.0f64.to_bits(), 7), 2);
    assert_eq!(round_to_remainder(9.0f64.to_bits(), 1), 0);
    assert_eq!(round_to_remainder(9.0f64.to_bits(), u64::MAX), 9);
    assert_eq!(round_to_remainder(1, 7), 0);
    assert_eq!(round_to_remainder(9007199254740992.0f64.to_bits(), 10), 2);
}

#[test]
fn round_to_remainder_of_integers_beyond_64_bits() {
    assert_eq!(round_to_remainder(1e19f64.to_bits(), 7), 3);
    assert_eq!(round_to_remainder(1e20f64.to_bits(), 7), 2);
    assert_eq!(round_to_remainder(0x43f0_0000_0000_0000, 1000), 616);
    assert_eq!(round_to_remainder(0x43e0_0000_0000_0000, 600), 8);
    assert_eq!(round_to_remainder(1e300f64.to_bits(), 1000), 160);
    assert_eq!(round_to_remainder(f64::MAX.to_bits(), 97), 50);
    assert_eq!(round_to_remainder(1e300f64.to_bits(), 4), 0);
}

#[test]
fn round_to_remainder_agrees_with_the_machine() {
    let mut noise = Noise(0x7f4a_7c15_9e37_79b9);
    for _ in 0..100_000 {
        let count = (noise.next() >> (noise.next() % 64)).max(1);
        let x = noise.finite();
        assert_eq!(
            round_to_remainder(x, count),
            machine_remainder(f64::from_bits(x), count),
            "{:#x} {}",
            x,
            count
        );
        let small = noise.next() % 0x4400_0000_0000_0000;
        assert_eq!(
            round_to_remainder(small, count),
            machine_remainder(f64::from_bits(small), count),
            "{:#x} {}",
            small,
            count
        );
    }
}

#[test]
fn offset_of_rounded_exact_values() {
    assert_eq!(offset_of_rounded(2.0f64.to_bits(), false, 4), 2);
    assert_eq!(offset_of_rounded(2.0f64.to_bits(), true, 4), 2);
    assert_eq!(offset_of_rounded(1.0f64.to_bits(), true, 4), 3);
    assert_eq!(offset_of_rounded(6.18f64.to_bits(), false, 10), 6);
    assert_eq!(offset_of_rounded(6.18f64.to_bits(), true, 10), 4);
    assert_eq!(offset_of_rounded(8.0f64.to_bits(), true, 4), 0);
    assert_eq!(offset_of_rounded(0, true, 4), 0);
    assert_eq!(offset_of_rounded(0.5f64.to_bits(), true, 4), 0);
    assert_eq!(offset_of_rounded(1e19f64.to_bits(), false, 7), 3);
    assert_eq!(offset_of_rounded(1e19f64.to_bits(), true, 7), 4);
    assert_eq!(offset_of_rounded(INFINITY_BITS, false, 10), u64::MAX % 10);
    assert_eq!(offset_of_rounded(INFINITY_BITS, true, 10), 0);
}

#[test]
fn logistic_step_golden_values() {
    let mut x = 0.3f64.to_bits();
    x = logistic_step(x);
    assert_eq!(x, 0x3fea_e147_a2ce_4310);
    x = logistic_step(x);
    assert_eq!(x, 0x3fe1_3405_01bd_e15b);
    x = logistic_step(x);
    assert_eq!(x, 0x3fef_d1ac_711e_35f9);
}

#[test]
fn logistic_step_rests_at_the_ends() {
    assert_eq!(logistic_step(0), 0);
    assert_eq!(logistic_step(ONE_BITS), 0);
    assert_eq!(logistic_step(ONE_BITS + 1), 0);
    assert_eq!(logistic_step(u64::MAX), 0);
}

#[test]
fn logistic_step_agrees_with_the_machine() {
    let mut noise = Noise(0xdead_beef_cafe_f00d);
    for _ in 0..200_000 {
        let bits = noise.unit();
        let x = f64::from_bits(bits);
        let expected = (3.9999999 * x * (1.0 - x)).to_bits();
        assert_eq!(logistic_step(bits), expected, "{:#x}", bits);
    }
}

#[test]
fn logistic_sequence_stays_in_the_unit_interval() {
    for seed in [0.3f64, 0.5, 1e-300, 0.999999999, 0.1234] {
        let mut bits = seed.to_bits();
        let mut x = seed;
        for _ in 0..100_000 {
            bits = logistic_step(bits);
            x = 3.9999999 * x * (1.0 - x);
            assert_eq!(bits, x.to_bits());
            assert!(bits > 0 && bits < ONE_BITS);
        }
    }
}

fn machine_offset(count: usize, key: f64) -> u64 {
    let product = (5.0f64.sqrt() - 1.0) / 2.0 * count as f64 * key;
    if product.is_nan() || product == f64::NEG_INFINITY {
        0
    } else if product == f64::INFINITY {
        u64::MAX % count as u64
    } else {
        machine_remainder(product, count as u64)
    }
}

#[test]
fn offset_golden_values() {
    assert_eq!(compute_offset(4, 0.3f64.to_bits()), 1);
    assert_eq!(compute_offset(4, 1.0f64.to_bits()), 2);
    assert_eq!(compute_offset(12, 0.37f64.to_bits()), 3);
    assert_eq!(compute_offset(12, 1.5f64.to_bits()), 11);
    assert_eq!(compute_offset(1_000_003, 123.456f64.to_bits()), 300_005);
    assert_eq!(compute_offset(10, 1.0f64.to_bits()), 6);
}

#[test]
fn offset_of_negative_keys() {
    assert_eq!(compute_offset(4, (-1.0f64).to_bits()), 2);
    assert_eq!(compute_offset(4, (-0.3f64).to_bits()), 3);
    assert_eq!(compute_offset(10, (-1.0f64).to_bits()), 4);
    assert_eq!(compute_offset(6, (-0.5f64).to_bits()), 4);
    assert_eq!(compute_offset(12, (-0.37f64).to_bits()), 9);
    assert_eq!(compute_offset(12, (-1.5f64).to_bits()), 1);
    assert_eq!(compute_offset(1_000_003, (-123.456f64).to_bits()), 699_998);
    assert_eq!(compute_offset(10, (-0.0f64).to_bits()), 0);
}

#[test]
fn offset_of_products_beyond_64_bits() {
    assert_eq!(compute_offset(4, 1e300f64.to_bits()), 0);
    assert_eq!(compute_offset(4, (-1e300f64).to_bits()), 0);
    assert_eq!(compute_offset(10, 1e300f64.to_bits()), 0);
    assert_eq!(compute_offset(7, 1e19f64.to_bits()), 1);
    assert_eq!(compute_offset(7, (-1e19f64).to_bits()), 6);
    assert_eq!(compute_offset(7, 1e20f64.to_bits()), 6);
    assert_eq!(compute_offset(7, 3e40f64.to_bits()), 1);
    assert_eq!(compute_offset(12, 3e40f64.to_bits()), 8);
}

#[test]
fn offsets_of_opposite_keys_make_a_whole_turn() {
    let mut noise = Noise(0x5151_5151_abab_abab);
    for _ in 0..50_000 {
        let count = noise.next() % 1_000_000 + 1;
        let key = noise.next() % 0x7000_0000_0000_0000;
        let forth = compute_offset(count, key);
        let back = compute_offset(count, key + SIGN_BIT);
        assert_eq!((forth + back) % count, 0, "{} {:#x}", count, key);
    }
}

#[test]
fn offset_ties_go_to_the_even_integer() {
    // The golden-ratio fraction times four times this key is one half.
    let key = 0x3fc9_e377_9b97_f4a7u64;
    assert_eq!((5.0f64.sqrt() - 1.0) / 2.0 * 4.0 * f64::from_bits(key), 0.5);
    assert_eq!(compute_offset(4, key), 0);
    // And times three times this key it is one and a half.
    let key = 0x3fe9_e377_9b97_f4a7u64;
    assert_eq!((5.0f64.sqrt() - 1.0) / 2.0 * 3.0 * f64::from_bits(key), 1.5);
    assert_eq!(compute_offset(3, key), 2);
    assert_eq!(compute_offset(3, key + SIGN_BIT), 1);
}

#[test]
fn offset_of_zero_key_is_zero() {
    for count in [1u64, 2, 4, 1000, u64::MAX] {
        assert_eq!(compute_offset(count, 0), 0);
    }
}

#[test]
fn offset_of_keys_that_are_no_finite_numbers() {
    assert_eq!(compute_offset(10, f64::NAN.to_bits()), 0);
    assert_eq!(compute_offset(10, (-f64::NAN).to_bits()), 0);
    assert_eq!(compute_offset(10, u64::MAX), 0);
    assert_eq!(compute_offset(10, f64::NEG_INFINITY.to_bits()), 0);
    assert_eq!(compute_offset(10, f64::INFINITY.to_bits()), u64::MAX % 10);
}

#[test]
fn offset_of_products_that_are_no_finite_numbers() {
    assert_eq!(compute_offset(10, f64::MAX.to_bits()), u64::MAX % 10);
    assert_eq!(compute_offset(10, f64::MIN.to_bits()), 0);
    assert_eq!(compute_offset(1, f64::MAX.to_bits()), 0);
}

#[test]
fn offset_is_below_the_count_and_agrees_with_the_machine() {
    let mut noise = Noise(0x0123_4567_89ab_cdef);
    for _ in 0..100_000 {
        let count = (noise.next() % 5_000_000 + 1) as usize;
        let key = noise.next();
        let offset = compute_offset(count as u64, key);
        assert!(offset < count as u64);
        assert_eq!(offset, machine_offset(count, f64::from_bits(key)), "{} {:#x}", count, key);
        let unit = f64::from_bits(noise.unit()) * 1000.0;
        assert_eq!(
            compute_offset(count as u64, unit.to_bits()),
            machine_offset(count, unit),
            "{} {}",
            count,
            unit
        );
    }
}
