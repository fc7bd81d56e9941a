use pixel_scramble::error::ScrambleError;
use pixel_scramble::scramble::{
    per_pixel_md5_decrypt, per_pixel_md5_encrypt, row_column_logistic_decrypt,
    row_column_logistic_encrypt, row_logistic_decrypt, row_logistic_encrypt,
    tomato_scramble_decrypt, tomato_scramble_encrypt,
};
use pixel_scramble::utils::{generate_logistic_positions, gilbert2d, shuffle_with_key};

fn image(width: i32, height: i32) -> Vec<i32> {
    (0..width * height).map(|v| v * 7 - 1000).collect()
}

fn sizes() -> Vec<(i32, i32)> {
    vec![(1, 1), (2, 2), (1, 9), (9, 1), (4, 3), (3, 4), (16, 16), (17, 5), (5, 17), (40, 31)]
}

/// The logistic sequence in machine arithmetic: the ranking of `n` samples
/// and the seed after them.
fn machine_positions(seed: f64, n: usize) -> (Vec<usize>, f64) {
    let mut x = seed;
    let mut samples: Vec<(f64, usize)> = Vec::with_capacity(n);
    samples.push((x, 0));
    for i in 1..n {
        x = 3.9999999 * x * (1.0 - x);
        samples.push((x, i));
    }
    x = 3.9999999 * x * (1.0 - x);
    samples.sort_by(|a, b| a.0.partial_cmp(&b.0).unwrap());
    (samples.iter().map(|item| item.1).collect(), x)
}

fn machine_row_column(pixels: &[i32], w: usize, h: usize, key: f64) -> Vec<i32> {
    let mut staged = pixels.to_vec();
    let mut out = pixels.to_vec();
    let mut x = key;
    for j in 0..h {
        let (positions, next) = machine_positions(x, w);
        x = next;
        for i in 0..w {
            staged[i + j * w] = pixels[positions[i] + j * w];
        }
    }
    x = key;
    for i in 0..w {
        let (positions, next) = machine_positions(x, h);
        x = next;
        for j in 0..h {
            out[i + j * w] = staged[i + positions[j] * w];
        }
    }
    out
}

/// The remainder, from zero up to `count - 1`, of a finite number rounded
/// to the nearest integer.
fn machine_remainder(p: f64, count: u64) -> u64 {
    let rounded = p.round_ties_even();
    let size = rounded.abs();
    let remainder = if size < 9.0e18 {
        (size as u64) % count
    } else {
        let bits = size.to_bits();
        let doublings = (bits >> 52) - 1075;
        let mut r = (((bits & 0x000f_ffff_ffff_ffff) | 0x0010_0000_0000_0000) % count) as u128;
        for _ in 0..doublings {
            r = (2 * r) % count as u128;
        }
        r as u64
    };
    if rounded < 0.0 && remainder != 0 {
        count - remainder
    } else {
        remainder
    }
}

fn machine_tomato(pixels: &[i32], width: i32, height: i32, key: f64) -> Vec<i32> {
    let count = pixels.len();
    let product = (5.0f64.sqrt() - 1.0) / 2.0 * count as f64 * key;
    let offset = machine_remainder(product, count as u64) as usize;
    let positions = gilbert2d(width, height);
    let turn = count - offset;
    let mut out = vec![0i32; count];
    for i in 0..turn {
        out[positions[i + offset]] = pixels[positions[i]];
    }
    for i in turn..count {
        out[positions[i - turn]] = pixels[positions[i]];
    }
    out
}

#[test]
fn two_by_two_image_under_every_scramble() {
    let pixels = vec![1, 2, 3, 4];

    let encrypted = per_pixel_md5_encrypt(&pixels, 2, 2, "key").unwrap();
    assert_eq!(encrypted, vec![1, 4, 2, 3]);
    assert_eq!(per_pixel_md5_decrypt(&encrypted, 2, 2, "key"), Ok(pixels.clone()));

    let seed = 0.9f64.to_bits();
    let encrypted = row_logistic_encrypt(&pixels, 2, 2, seed).unwrap();
    assert_eq!(encrypted, vec![2, 1, 4, 3]);
    assert_eq!(row_logistic_decrypt(&encrypted, 2, 2, seed), Ok(pixels.clone()));

    let encrypted = row_column_logistic_encrypt(&pixels, 2, 2, seed).unwrap();
    assert_eq!(encrypted, vec![4, 3, 2, 1]);
    assert_eq!(row_column_logistic_decrypt(&encrypted, 2, 2, seed), Ok(pixels.clone()));

    let key = 0.3f64.to_bits();
    let encrypted = tomato_scramble_encrypt(&pixels, 2, 2, key).unwrap();
    assert_eq!(encrypted, vec![2, 4, 1, 3]);
    assert_eq!(tomato_scramble_decrypt(&encrypted, 2, 2, key), Ok(pixels));
}

#[test]
fn per_pixel_golden_vectors() {
    assert_eq!(per_pixel_md5_encrypt(&[1, 2, 3, 4], 2, 2, "key"), Ok(vec![1, 4, 2, 3]));
    let pixels: Vec<i32> = (10..22).collect();
    assert_eq!(
        per_pixel_md5_encrypt(&pixels, 4, 3, "secret"),
        Ok(vec![10, 13, 20, 15, 11, 18, 21, 16, 12, 19, 14, 17])
    );
    assert_eq!(
        per_pixel_md5_encrypt(&pixels, 3, 4, "secret"),
        Ok(vec![10, 18, 14, 11, 19, 15, 12, 20, 16, 13, 21, 17])
    );
}

#[test]
fn per_pixel_follows_its_formula() {
    let (w, h) = (7usize, 5usize);
    let pixels = image(7, 5);
    let x = shuffle_with_key(w, "formula");
    let y = shuffle_with_key(h, "formula");
    let encrypted = per_pixel_md5_encrypt(&pixels, 7, 5, "formula").unwrap();
    for i in 0..w {
        for j in 0..h {
            let m = x[(x[j % w] + i) % w];
            let n = y[(y[m % h] + j) % h];
            assert_eq!(encrypted[i + j * w], pixels[m + n * w]);
        }
    }
}

#[test]
fn per_pixel_round_trip() {
    for (w, h) in sizes() {
        for key in ["", "a", "a longer key", "ключ"] {
            let pixels = image(w, h);
            let encrypted = per_pixel_md5_encrypt(&pixels, w, h, key).unwrap();
            assert_eq!(encrypted.len(), pixels.len());
            assert_eq!(per_pixel_md5_decrypt(&encrypted, w, h, key), Ok(pixels));
        }
    }
}

#[test]
fn per_pixel_moves_pixels_without_changing_them() {
    let pixels = image(12, 9);
    let mut encrypted = per_pixel_md5_encrypt(&pixels, 12, 9, "values").unwrap();
    assert_ne!(encrypted, pixels);
    encrypted.sort();
    let mut sorted = pixels.clone();
    sorted.sort();
    assert_eq!(encrypted, sorted);
}

#[test]
fn per_pixel_rejects_bad_dimensions() {
    let pixels = image(2, 2);
    for (w, h) in [(0, 4), (4, 0), (-2, -2), (2, 3), (3, 2), (-1, 4), (1, 1)] {
        assert_eq!(
            per_pixel_md5_encrypt(&pixels, w, h, "k"),
            Err(ScrambleError::InvalidDimensions)
        );
        assert_eq!(
            per_pixel_md5_decrypt(&pixels, w, h, "k"),
            Err(ScrambleError::InvalidDimensions)
        );
    }
    assert_eq!(per_pixel_md5_encrypt(&[], 0, 0, "k"), Err(ScrambleError::InvalidDimensions));
}

#[test]
fn logistic_positions_golden_vectors() {
    assert_eq!(
        generate_logistic_positions(0.3f64.to_bits(), 8),
        vec![4, 5, 0, 6, 2, 1, 7, 3]
    );
    assert_eq!(generate_logistic_positions(0.7f64.to_bits(), 5), vec![4, 2, 0, 1, 3]);
    assert_eq!(generate_logistic_positions(0.7f64.to_bits(), 0), Vec::<usize>::new());
}

#[test]
fn logistic_positions_agree_with_the_machine() {
    for seed in [0.3f64, 0.5, 0.999, 1e-9, 0.123456789] {
        for n in [1usize, 2, 3, 10, 257, 2000] {
            assert_eq!(
                generate_logistic_positions(seed.to_bits(), n),
                machine_positions(seed, n).0
            );
        }
    }
}

#[test]
fn logistic_positions_are_a_bijection() {
    for n in [1usize, 2, 64, 1000] {
        let mut positions = generate_logistic_positions(0.42f64.to_bits(), n);
        positions.sort();
        assert_eq!(positions, (0..n).collect::<Vec<usize>>());
    }
}

#[test]
fn logistic_positions_are_deterministic() {
    assert_eq!(
        generate_logistic_positions(0.25f64.to_bits(), 500),
        generate_logistic_positions(0.25f64.to_bits(), 500)
    );
}

#[test]
fn logistic_positions_of_degenerate_seeds() {
    assert_eq!(generate_logistic_positions(0, 5), vec![0, 1, 2, 3, 4]);
    assert_eq!(generate_logistic_positions(1.0f64.to_bits(), 5), vec![1, 2, 3, 4, 0]);
}

#[test]
fn logistic_positions_differ_between_seeds() {
    assert_ne!(
        generate_logistic_positions(0.3f64.to_bits(), 64),
        generate_logistic_positions(0.3000001f64.to_bits(), 64)
    );
}

#[test]
fn row_logistic_golden_vectors() {
    assert_eq!(
        row_logistic_encrypt(&[1, 2, 3, 4], 2, 2, 0.9f64.to_bits()),
        Ok(vec![2, 1, 4, 3])
    );
    assert_eq!(
        row_logistic_encrypt(&[1, 2, 3, 4], 2, 2, 0.3f64.to_bits()),
        Ok(vec![1, 2, 3, 4])
    );
    let pixels: Vec<i32> = (10..22).collect();
    assert_eq!(
        row_logistic_encrypt(&pixels, 4, 3, 0.37f64.to_bits()),
        Ok(vec![12, 10, 13, 11, 16, 14, 17, 15, 20, 18, 21, 19])
    );
}

#[test]
fn row_logistic_follows_its_formula() {
    let (w, h) = (9usize, 4usize);
    let pixels = image(9, 4);
    let key = 0.61f64;
    let positions = machine_positions(key, w).0;
    let encrypted = row_logistic_encrypt(&pixels, 9, 4, key.to_bits()).unwrap();
    for i in 0..w {
        for j in 0..h {
            assert_eq!(encrypted[i + j * w], pixels[positions[i] + j * w]);
        }
    }
}

#[test]
fn row_logistic_round_trip() {
    for (w, h) in sizes() {
        for key in [0.1f64, 0.5, 0.9, 1e-300, 0.9999999999] {
            let pixels = image(w, h);
            let encrypted = row_logistic_encrypt(&pixels, w, h, key.to_bits()).unwrap();
            assert_eq!(encrypted.len(), pixels.len());
            assert_eq!(row_logistic_decrypt(&encrypted, w, h, key.to_bits()), Ok(pixels));
        }
    }
}

#[test]
fn row_logistic_rejects_bad_keys() {
    let pixels = image(2, 2);
    for key in [0.0f64, 1.0, -0.5, 1.5, f64::NAN, f64::INFINITY, f64::NEG_INFINITY, -0.0] {
        assert_eq!(
            row_logistic_encrypt(&pixels, 2, 2, key.to_bits()),
            Err(ScrambleError::InvalidKey)
        );
        assert_eq!(
            row_logistic_decrypt(&pixels, 2, 2, key.to_bits()),
            Err(ScrambleError::InvalidKey)
        );
    }
    assert!(row_logistic_encrypt(&pixels, 2, 2, f64::MIN_POSITIVE.to_bits()).is_ok());
    assert!(row_logistic_encrypt(&pixels, 2, 2, 1).is_ok());
    assert!(row_logistic_encrypt(&pixels, 2, 2, 0.9999999999999999f64.to_bits()).is_ok());
}

#[test]
fn row_logistic_rejects_bad_dimensions_before_bad_keys() {
    let pixels = image(2, 2);
    assert_eq!(
        row_logistic_encrypt(&pixels, 3, 2, 0.5f64.to_bits()),
        Err(ScrambleError::InvalidDimensions)
    );
    assert_eq!(
        row_logistic_encrypt(&pixels, 0, 2, 2.0f64.to_bits()),
        Err(ScrambleError::InvalidDimensions)
    );
    assert_eq!(
        row_logistic_decrypt(&pixels, 2, -2, 2.0f64.to_bits()),
        Err(ScrambleError::InvalidDimensions)
    );
}

#[test]
fn row_column_golden_vectors() {
    assert_eq!(
        row_column_logistic_encrypt(&[1, 2, 3, 4], 2, 2, 0.9f64.to_bits()),
        Ok(vec![4, 3, 2, 1])
    );
    assert_eq!(
        row_column_logistic_encrypt(&[1, 2, 3, 4], 2, 2, 0.123456789f64.to_bits()),
        Ok(vec![1, 3, 4, 2])
    );
    let pixels: Vec<i32> = (10..22).collect();
    assert_eq!(
        row_column_logistic_encrypt(&pixels, 4, 3, 0.37f64.to_bits()),
        Ok(vec![20, 14, 18, 17, 12, 10, 13, 19, 16, 21, 15, 11])
    );
    assert_eq!(
        row_column_logistic_encrypt(&pixels, 3, 4, 0.37f64.to_bits()),
        Ok(vec![18, 16, 17, 12, 10, 19, 20, 13, 11, 14, 21, 15])
    );
}

#[test]
fn row_column_agrees_with_the_machine() {
    for (w, h) in sizes() {
        for key in [0.2f64, 0.77, 0.5] {
            let pixels = image(w, h);
            assert_eq!(
                row_column_logistic_encrypt(&pixels, w, h, key.to_bits()),
                Ok(machine_row_column(&pixels, w as usize, h as usize, key))
            );
        }
    }
}

#[test]
fn row_column_round_trip() {
    for (w, h) in sizes() {
        for key in [0.1f64, 0.5, 0.9, 1e-300, 0.9999999999] {
            let pixels = image(w, h);
            let encrypted = row_column_logistic_encrypt(&pixels, w, h, key.to_bits()).unwrap();
            assert_eq!(encrypted.len(), pixels.len());
            assert_eq!(row_column_logistic_decrypt(&encrypted, w, h, key.to_bits()), Ok(pixels));
        }
    }
}

#[test]
fn row_column_rejects_bad_input() {
    let pixels = image(3, 2);
    assert_eq!(
        row_column_logistic_encrypt(&pixels, 3, 2, 0.0f64.to_bits()),
        Err(ScrambleError::InvalidKey)
    );
    assert_eq!(
        row_column_logistic_decrypt(&pixels, 3, 2, 1.0f64.to_bits()),
        Err(ScrambleError::InvalidKey)
    );
    assert_eq!(
        row_column_logistic_encrypt(&pixels, 3, 2, f64::NAN.to_bits()),
        Err(ScrambleError::InvalidKey)
    );
    assert_eq!(
        row_column_logistic_encrypt(&pixels, 2, 2, 0.5f64.to_bits()),
        Err(ScrambleError::InvalidDimensions)
    );
    assert_eq!(
        row_column_logistic_decrypt(&pixels, 3, 0, 7.0f64.to_bits()),
        Err(ScrambleError::InvalidDimensions)
    );
}

#[test]
fn tomato_golden_vectors() {
    assert_eq!(
        tomato_scramble_encrypt(&[1, 2, 3, 4], 2, 2, 0.3f64.to_bits()),
        Ok(vec![2, 4, 1, 3])
    );
    assert_eq!(
        tomato_scramble_encrypt(&[1, 2, 3, 4], 2, 2, 1.0f64.to_bits()),
        Ok(vec![4, 3, 2, 1])
    );
    assert_eq!(
        tomato_scramble_encrypt(&[1, 2, 3, 4], 2, 2, 1e300f64.to_bits()),
        Ok(vec![1, 2, 3, 4])
    );
    assert_eq!(
        tomato_scramble_encrypt(&[1, 2, 3, 4], 2, 2, (-0.3f64).to_bits()),
        Ok(vec![3, 1, 4, 2])
    );
    let pixels: Vec<i32> = (10..22).collect();
    assert_eq!(
        tomato_scramble_encrypt(&pixels, 4, 3, 0.37f64.to_bits()),
        Ok(vec![16, 12, 21, 17, 10, 13, 20, 19, 11, 15, 14, 18])
    );
    assert_eq!(
        tomato_scramble_encrypt(&pixels, 3, 4, 1.5f64.to_bits()),
        Ok(vec![13, 12, 15, 14, 11, 18, 19, 16, 21, 10, 17, 20])
    );
    assert_eq!(
        tomato_scramble_encrypt(&pixels, 4, 3, (-0.37f64).to_bits()),
        Ok(vec![14, 18, 11, 15, 20, 19, 10, 13, 21, 17, 16, 12])
    );
    assert_eq!(
        tomato_scramble_encrypt(&pixels, 4, 3, 3e40f64.to_bits()),
        Ok(vec![18, 19, 15, 14, 21, 20, 11, 10, 17, 16, 12, 13])
    );
}

#[test]
fn tomato_with_a_negative_key_moves_backwards() {
    let minus_one = (-1.0f64).to_bits();
    assert_eq!(tomato_scramble_encrypt(&[1, 2, 3, 4], 2, 2, minus_one), Ok(vec![4, 3, 2, 1]));
    assert_eq!(tomato_scramble_decrypt(&[4, 3, 2, 1], 2, 2, minus_one), Ok(vec![1, 2, 3, 4]));
}

#[test]
fn tomato_follows_its_formula() {
    let (w, h) = (7, 5);
    let count = 35usize;
    let pixels = image(w, h);
    let curve = gilbert2d(w, h);
    for key in [0.3f64, -0.3, 12.75, -977.0, 1e30, -1e30] {
        let product = (5.0f64.sqrt() - 1.0) / 2.0 * count as f64 * key;
        let offset = machine_remainder(product, count as u64) as usize;
        let encrypted = tomato_scramble_encrypt(&pixels, w, h, key.to_bits()).unwrap();
        let decrypted = tomato_scramble_decrypt(&pixels, w, h, key.to_bits()).unwrap();
        for t in 0..count {
            assert_eq!(encrypted[curve[(t + offset) % count]], pixels[curve[t]]);
            assert_eq!(decrypted[curve[t]], pixels[curve[(t + offset) % count]]);
        }
    }
}

#[test]
fn tomato_decryption_is_encryption_with_the_opposite_key() {
    for (w, h) in sizes() {
        for key in [0.3f64, 1.0, 2.5, 77.7, 1e25] {
            let pixels = image(w, h);
            assert_eq!(
                tomato_scramble_decrypt(&pixels, w, h, (-key).to_bits()),
                tomato_scramble_encrypt(&pixels, w, h, key.to_bits())
            );
            assert_eq!(
                tomato_scramble_decrypt(&pixels, w, h, key.to_bits()),
                tomato_scramble_encrypt(&pixels, w, h, (-key).to_bits())
            );
        }
    }
}

#[test]
fn tomato_agrees_with_the_machine() {
    for (w, h) in sizes() {
        for key in [0.2f64, 1.0, 3.75, 123456.789, 1e-12, -0.2, -55.5, 1e22, -1e200] {
            let pixels = image(w, h);
            assert_eq!(
                tomato_scramble_encrypt(&pixels, w, h, key.to_bits()),
                Ok(machine_tomato(&pixels, w, h, key))
            );
        }
    }
}

#[test]
fn tomato_round_trip() {
    for (w, h) in sizes() {
        for key in [0.0f64, 0.3, 1.0, -4.0, -0.77, 1e300, -1e300, f64::NAN, f64::INFINITY, 77.7] {
            let pixels = image(w, h);
            let encrypted = tomato_scramble_encrypt(&pixels, w, h, key.to_bits()).unwrap();
            assert_eq!(encrypted.len(), pixels.len());
            assert_eq!(tomato_scramble_decrypt(&encrypted, w, h, key.to_bits()), Ok(pixels));
        }
    }
}

#[test]
fn tomato_with_zero_key_changes_nothing() {
    for (w, h) in sizes() {
        let pixels = image(w, h);
        assert_eq!(tomato_scramble_encrypt(&pixels, w, h, 0), Ok(pixels.clone()));
        assert_eq!(tomato_scramble_decrypt(&pixels, w, h, 0), Ok(pixels));
    }
}

#[test]
fn tomato_with_keys_that_are_no_finite_numbers() {
    let pixels = image(5, 4);
    for key in [f64::NAN, f64::NEG_INFINITY] {
        assert_eq!(tomato_scramble_encrypt(&pixels, 5, 4, key.to_bits()), Ok(pixels.clone()));
    }
    assert_eq!(tomato_scramble_encrypt(&pixels, 5, 4, (-0.0f64).to_bits()), Ok(pixels.clone()));
    let encrypted = tomato_scramble_encrypt(&pixels, 5, 4, f64::INFINITY.to_bits()).unwrap();
    let curve = gilbert2d(5, 4);
    let offset = (u64::MAX % 20) as usize;
    for t in 0..20 {
        assert_eq!(encrypted[curve[(t + offset) % 20]], pixels[curve[t]]);
    }
}

#[test]
fn tomato_rejects_bad_dimensions() {
    let pixels = image(3, 3);
    for (w, h) in [(0, 9), (9, 0), (-3, -3), (3, 4), (1, 1)] {
        assert_eq!(
            tomato_scramble_encrypt(&pixels, w, h, 0.5f64.to_bits()),
            Err(ScrambleError::InvalidDimensions)
        );
        assert_eq!(
            tomato_scramble_decrypt(&pixels, w, h, 0.5f64.to_bits()),
            Err(ScrambleError::InvalidDimensions)
        );
    }
}

#[test]
fn larger_image_round_trip() {
    let (w, h) = (320, 200);
    let pixels = image(w, h);
    let seed = 0.61803f64.to_bits();

    let encrypted = per_pixel_md5_encrypt(&pixels, w, h, "a larger image").unwrap();
    assert_ne!(encrypted, pixels);
    assert_eq!(per_pixel_md5_decrypt(&encrypted, w, h, "a larger image"), Ok(pixels.clone()));

    let encrypted = row_logistic_encrypt(&pixels, w, h, seed).unwrap();
    assert_ne!(encrypted, pixels);
    assert_eq!(row_logistic_decrypt(&encrypted, w, h, seed), Ok(pixels.clone()));

    let encrypted = row_column_logistic_encrypt(&pixels, w, h, seed).unwrap();
    assert_eq!(encrypted, machine_row_column(&pixels, w as usize, h as usize, 0.61803));
    assert_eq!(row_column_logistic_decrypt(&encrypted, w, h, seed), Ok(pixels.clone()));

    let encrypted = tomato_scramble_encrypt(&pixels, w, h, seed).unwrap();
    assert_eq!(encrypted, machine_tomato(&pixels, w, h, 0.61803));
    assert_eq!(tomato_scramble_decrypt(&encrypted, w, h, seed), Ok(pixels));
}

#[test]
fn encryption_leaves_its_input_alone() {
    let pixels = image(6, 6);
    let copy = pixels.clone();
    let _ = per_pixel_md5_encrypt(&pixels, 6, 6, "k");
    let _ = row_logistic_encrypt(&pixels, 6, 6, 0.4f64.to_bits());
    let _ = row_column_logistic_encrypt(&pixels, 6, 6, 0.4f64.to_bits());
    let _ = tomato_scramble_encrypt(&pixels, 6, 6, 0.4f64.to_bits());
    assert_eq!(pixels, copy);
}
