use agz::channels::{decode_channels, encode_channels, split_channels};
use agz::entropy::{byte_histogram, calculate_shannon_entropy, READING_GAIN, READING_INCOMPRESSIBLE};
use agz::predict::{
    process_1d_forward, process_1d_forward_multi, process_1d_inverse_multi, process_2d_forward,
    process_2d_inverse,
};

fn entropy(counts: &[usize], len: usize) -> u64 {
    let mut entropy = 0.0;
    let len = len as f64;
    for &count in counts {
        if count > 0 {
            let p = count as f64 / len;
            entropy -= p * p.log2();
        }
    }
    let entropy: f64 = entropy.max(0.0);
    entropy.to_bits()
}

fn noise(n: usize, seed: u64) -> Vec<u8> {
    let mut x: u64 = seed;
    let mut out = Vec::new();
    for _ in 0..n {
        x = (x * 1103515245 + 12345) % 0x8000_0000;
        out.push((x >> 16) as u8);
    }
    out
}

#[test]
fn readings_are_bit_patterns() {
    assert_eq!(f64::from_bits(READING_INCOMPRESSIBLE), 7.95);
    assert_eq!(f64::from_bits(READING_GAIN), 0.99);
    assert_eq!((0.5f64 < 7.95), (0.5f64.to_bits() < READING_INCOMPRESSIBLE));
    assert_eq!((8.0f64 > 7.95), (8.0f64.to_bits() > READING_INCOMPRESSIBLE));
}

#[test]
fn histogram_counts_bytes() {
    let counts = byte_histogram(b"abcab\xff");
    assert_eq!(counts.len(), 256);
    assert_eq!(counts[b'a' as usize], 2);
    assert_eq!(counts[b'b' as usize], 2);
    assert_eq!(counts[b'c' as usize], 1);
    assert_eq!(counts[255], 1);
    assert_eq!(counts[0], 0);
    assert_eq!(counts.iter().sum::<usize>(), 6);
    assert_eq!(byte_histogram(&[]), vec![0usize; 256]);
}

#[test]
fn entropy_of_four_equal_symbols_is_two_bits() {
    let reading = calculate_shannon_entropy(&[1, 1, 2, 2, 3, 3, 4, 4], &entropy);
    assert_eq!(f64::from_bits(reading), 2.0);
    let reading = calculate_shannon_entropy(&[7; 100], &entropy);
    assert_eq!(f64::from_bits(reading), 0.0);
}

#[test]
fn entropy_ignores_the_order() {
    let data = noise(500, 8);
    let mut sorted = data.clone();
    sorted.sort();
    assert_eq!(byte_histogram(&data), byte_histogram(&sorted));
    assert_eq!(
        calculate_shannon_entropy(&data, &entropy),
        calculate_shannon_entropy(&sorted, &entropy)
    );
}

#[test]
fn models_predict_as_named() {
    let channel = [10u8, 20, 40, 70];
    assert_eq!(process_1d_forward(&channel, 0), vec![0, 10, 10, 20, 30]);
    assert_eq!(process_1d_forward(&channel, 1), vec![1, 10, 20, 10, 10]);
    assert_eq!(process_1d_forward(&channel, 2), vec![2, 10, 20, 40, 0]);
    assert_eq!(process_1d_forward(&channel, 3), vec![3, 10, 20, 25, 40]);
    assert_eq!(process_1d_forward(&channel, 9), vec![9, 10, 20, 40, 70]);
    assert_eq!(process_1d_forward(&[5, 3], 0), vec![0, 5, 254]);
}

#[test]
fn inverse_undoes_every_model() {
    for mode in 0..=255u8 {
        let channel = noise(300, mode as u64 + 1);
        assert_eq!(process_1d_inverse_multi(&process_1d_forward(&channel, mode)), channel);
    }
}

#[test]
fn inverse_of_edge_inputs() {
    assert_eq!(process_1d_inverse_multi(&[]), Vec::<u8>::new());
    assert_eq!(process_1d_inverse_multi(&[2]), Vec::<u8>::new());
    assert_eq!(process_1d_inverse_multi(&[200, 1, 2, 3]), vec![1, 2, 3]);
    assert_eq!(process_1d_inverse_multi(&[0, 1, 2, 255]), vec![1, 3, 2]);
}

#[test]
fn best_model_has_least_entropy() {
    let square: Vec<u8> = (0..64usize).map(|i| (i * i * 3) as u8).collect();
    assert_eq!(process_1d_forward_multi(&square, &entropy), process_1d_forward(&square, 1));
    let cube: Vec<u8> = (0..64usize).map(|i| (i * i * i) as u8).collect();
    assert_eq!(process_1d_forward_multi(&cube, &entropy), process_1d_forward(&cube, 2));
    let jumps: Vec<u8> = (0..64usize).map(|i| if i % 2 == 1 { 200 } else { 0 }).collect();
    assert_eq!(process_1d_forward_multi(&jumps, &entropy), process_1d_forward(&jumps, 0));
}

#[test]
fn first_of_equal_models_is_kept() {
    let channel = noise(50, 3);
    let out = process_1d_forward_multi(&channel, &|_: &[usize], _: usize| 7);
    assert_eq!(out, process_1d_forward(&channel, 0));
    let ramp: Vec<u8> = (0..50u8).map(|i| i * 3).collect();
    assert_eq!(process_1d_forward_multi(&ramp, &entropy)[0], 0);
}

#[test]
fn empty_channel_is_a_single_mode_byte() {
    assert_eq!(process_1d_forward_multi(&[], &entropy), vec![0]);
}

#[test]
fn rows_are_predicted_from_left_and_above() {
    let data = [10u8, 20, 30, 15, 25, 40];
    let out = process_2d_forward(&data, 1, 3);
    assert_eq!(out, vec![10, 10, 10, 5, 0, 5]);
    assert_eq!(process_2d_inverse(&out, 1, 3, 6), data.to_vec());
    assert_eq!(process_2d_inverse(&out, 1, 3, 4), data[..4].to_vec());
    assert_eq!(process_2d_forward(&[], 1, 0), Vec::<u8>::new());
    assert_eq!(process_2d_inverse(&[1], 1, 0, 0), Vec::<u8>::new());
}

#[test]
fn two_dimensional_inverse_undoes_forward() {
    let data = noise(700, 99);
    for channels in [1usize, 2, 3, 4, 8, 50, 2000] {
        for row_stride in [1usize, 2, 3, 7, 64, 699, 700, 5000, usize::MAX] {
            let out = process_2d_forward(&data, channels, row_stride);
            assert_eq!(process_2d_inverse(&out, channels, row_stride, data.len()), data);
        }
    }
}

#[test]
fn zero_channels_predict_the_byte_itself() {
    assert_eq!(process_2d_forward(&[1, 2, 3, 4], 0, 2), vec![0, 0, 0, 0]);
    assert_eq!(process_2d_inverse(&[1, 2, 3, 4], 0, 2, 4), vec![1, 2, 3, 4]);
}

#[test]
fn channels_are_split_and_merged() {
    let data = [1u8, 2, 3, 4, 5, 6, 7];
    let parts = split_channels(&data, 3);
    assert_eq!(parts, vec![vec![1, 4, 7], vec![2, 5], vec![3, 6]]);
    assert_eq!(split_channels(&[1, 2], 4), vec![vec![1], vec![2], vec![], vec![]]);

    let out = encode_channels(&data, 3, &|_: &[usize], _: usize| 0);
    assert_eq!(out, vec![0, 1, 3, 3, 0, 2, 3, 0, 3, 3]);
    assert_eq!(decode_channels(&out, 3, 7), data.to_vec());
}

#[test]
fn merging_undoes_joining_for_all_sizes() {
    for n in 0..40usize {
        let data = noise(n, n as u64 + 5);
        for channels in 1..10usize {
            let mut out = encode_channels(&data, channels, &entropy);
            assert_eq!(out.len(), n + channels);
            assert_eq!(decode_channels(&out, channels, n), data);
            out.push(1);
            assert_eq!(decode_channels(&out, channels, n), data);
        }
    }
}

#[test]
fn no_channels_merge_to_zeros() {
    assert_eq!(decode_channels(&[1, 2, 3], 0, 5), vec![0; 5]);
}
