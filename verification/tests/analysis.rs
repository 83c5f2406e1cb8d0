use agz::channels::encode_channels;
use agz::layout::find_layout;
use agz::optimize::{is_restorable, optimize_file, pick_engine, restore_file, EngineType};
use agz::predict::process_2d_forward;

fn entropy(counts: &[usize], len: usize) -> u64 {
    let mut entropy = 0.0;
    let len = len as f64;
    for &count in counts {
        if count > 0 {
            let p = count as f64 / len;
            entropy -= p * p.log2();
        }
    }
    let entropy: f64 = entropy.max(0.0);
    entropy.to_bits()
}

fn product(a: u64, b: u64) -> u64 {
    (f64::from_bits(a) * f64::from_bits(b)).to_bits()
}

fn noise(n: usize, seed: u64) -> Vec<u8> {
    let mut x: u64 = seed;
    let mut out = Vec::new();
    for _ in 0..n {
        x = (x * 1103515245 + 12345) % 0x8000_0000;
        out.push((x >> 16) as u8);
    }
    out
}

fn walk(n: usize) -> Vec<u8> {
    let mut x: u64 = 12345;
    let mut v: u8 = 64;
    let mut out = Vec::new();
    for _ in 0..n {
        x = (x * 1103515245 + 12345) % 0x8000_0000;
        let s = (x >> 16) % 3;
        if s == 0 && v > 0 {
            v -= 1;
        }
        if s == 2 && v < 127 {
            v += 1;
        }
        out.push(v);
    }
    out
}

fn stereo() -> Vec<u8> {
    let a = walk(6000);
    let mut out = Vec::new();
    for i in 0..3000 {
        out.push(a[i]);
        out.push(255 - a[3000 + i]);
    }
    out
}

fn picture() -> Vec<u8> {
    let mut out = Vec::new();
    for y in 0..40usize {
        for x in 0..300usize {
            out.push(((x * 37 % 101) + (x * x % 53) + y) as u8);
        }
    }
    out
}

fn layout_tuple(raw: &[u8]) -> (usize, u64, usize, u64) {
    let layout = find_layout(raw);
    (layout.channels, layout.score_1d, layout.row_stride, layout.score_2d)
}

fn roundtrip(raw: &[u8]) -> (EngineType, usize, usize, Vec<u8>) {
    let (engine, channels, row_stride, transformed) = optimize_file(raw, &entropy, &product);
    assert!(is_restorable(engine, channels, row_stride, raw.len(), &transformed));
    let back = restore_file(engine, channels, row_stride, raw.len(), transformed.clone());
    assert_eq!(back, raw.to_vec());
    (engine, channels, row_stride, transformed)
}

#[test]
fn layouts_of_samples() {
    assert_eq!(layout_tuple(&walk(5000)), (1, 3312, 10, 5998));
    assert_eq!(layout_tuple(&stereo()), (2, 3953, 20, 6013));
    assert_eq!(layout_tuple(&picture()), (3, 315278, 270, 63080));
    assert_eq!(layout_tuple(&[9; 5000]), (1, 0, 1, 0));
    assert_eq!(layout_tuple(&[]), (1, 0, 1, 0));
    assert_eq!(layout_tuple(&[4, 9]), (2, 0, 2, 0));
}

#[test]
fn only_the_sample_counts() {
    let mut raw = vec![0u8; 60_000];
    raw.extend(noise(10_000, 1));
    assert_eq!(layout_tuple(&raw), (1, 0, 1, 0));
}

#[test]
fn rows_need_length_and_fit() {
    assert!(find_layout(&picture()).has_rows());
    assert!(!find_layout(&stereo()).has_rows());
    let mut layout = find_layout(&[]);
    layout.row_stride = 256;
    layout.score_1d = 10;
    layout.score_2d = 9;
    assert!(layout.has_rows());
    layout.score_2d = 10;
    assert!(!layout.has_rows());
    layout.score_2d = 9;
    layout.row_stride = 255;
    assert!(!layout.has_rows());
}

#[test]
fn small_files_are_bypassed() {
    let raw = vec![1u8; 4095];
    let (engine, channels, row_stride, out) = roundtrip(&raw);
    assert_eq!((engine, channels, row_stride), (EngineType::ZstdOnly, 1, 1));
    assert_eq!(out, raw);
    roundtrip(&[]);
}

#[test]
fn incompressible_files_are_bypassed() {
    let raw = noise(8192, 12345);
    let (engine, channels, row_stride, out) = roundtrip(&raw);
    assert_eq!((engine, channels, row_stride), (EngineType::ZstdOnly, 1, 1));
    assert_eq!(out, raw);
}

#[test]
fn transforms_without_gain_are_dropped() {
    let letters = b"aet n";
    let mut x: u64 = 1;
    let mut raw = Vec::new();
    for _ in 0..5000 {
        x = (x * 1103515245 + 12345) % 0x8000_0000;
        raw.push(letters[((x >> 16) % 5) as usize]);
    }
    assert_eq!(layout_tuple(&raw), (4, 144332, 552, 84639));
    let (engine, channels, row_stride, out) = roundtrip(&raw);
    assert_eq!((engine, channels, row_stride), (EngineType::ZstdOnly, 1, 1));
    assert_eq!(out, raw);

    let constant = vec![9u8; 5000];
    assert_eq!(roundtrip(&constant).0, EngineType::ZstdOnly);
}

#[test]
fn interleaved_channels_use_the_first_engine() {
    let mono = walk(5000);
    let (engine, channels, row_stride, out) = roundtrip(&mono);
    assert_eq!((engine, channels, row_stride), (EngineType::Agz1D, 1, 1));
    assert_eq!(out.len(), 5001);
    assert_eq!(out[..8].to_vec(), vec![0, 63, 0, 0, 255, 0, 0, 0]);

    let raw = stereo();
    let (engine, channels, row_stride, out) = roundtrip(&raw);
    assert_eq!((engine, channels, row_stride), (EngineType::Agz1D, 2, 2));
    assert_eq!(out, encode_channels(&raw, 2, &entropy));
    assert_eq!(out.len(), 6002);
    assert_eq!(out[3001..3007].to_vec(), vec![0, 129, 255, 0, 0, 1]);
}

#[test]
fn rows_use_the_second_engine() {
    let raw = picture();
    let (engine, channels, row_stride, out) = roundtrip(&raw);
    assert_eq!((engine, channels, row_stride), (EngineType::Agz2D, 3, 270));
    assert_eq!(out, process_2d_forward(&raw, 3, 270));
    assert_eq!(out[..4].to_vec(), vec![0, 38, 78, 19]);
    assert_eq!(out[5000..5008].to_vec(), vec![32, 235, 187, 235, 32, 80, 235, 235]);
}

#[test]
fn long_files_survive() {
    let mut raw = picture();
    for _ in 0..3 {
        raw.extend(raw.clone());
    }
    raw.extend(noise(777, 4));
    roundtrip(&raw);
}

#[test]
fn restoring_works_whatever_is_measured() {
    let raw = picture();
    for threshold in [0u64, 1, u64::MAX] {
        for reading in [0u64, 1] {
            let measure = |counts: &[usize], len: usize| (counts[0] + len) as u64 * reading;
            let scale = |_: u64, _: u64| threshold;
            let (e, c, s, t) = optimize_file(&raw, &measure, &scale);
            assert_eq!(restore_file(e, c, s, raw.len(), t), raw);
        }
    }
}

#[test]
fn engine_follows_the_readings() {
    assert_eq!(pick_engine(5, Some(4), 10), EngineType::Agz2D);
    assert_eq!(pick_engine(5, Some(5), 10), EngineType::Agz1D);
    assert_eq!(pick_engine(5, None, 10), EngineType::Agz1D);
    assert_eq!(pick_engine(10, None, 10), EngineType::ZstdOnly);
    assert_eq!(pick_engine(12, Some(11), 10), EngineType::ZstdOnly);
    assert_eq!(pick_engine(12, Some(9), 10), EngineType::Agz2D);
}

#[test]
fn engine_codes() {
    for engine in [EngineType::ZstdOnly, EngineType::Agz1D, EngineType::Agz2D] {
        assert_eq!(EngineType::from_code(engine.code()), Some(engine));
    }
    assert_eq!(EngineType::ZstdOnly.code(), 0);
    assert_eq!(EngineType::Agz1D.code(), 1);
    assert_eq!(EngineType::Agz2D.code(), 2);
    assert_eq!(EngineType::from_code(3), None);
}

#[test]
fn short_data_is_not_restorable() {
    assert!(is_restorable(EngineType::ZstdOnly, 0, 0, 100, &[]));
    assert!(is_restorable(EngineType::Agz1D, 2, 2, 3, &[0; 5]));
    assert!(!is_restorable(EngineType::Agz1D, 2, 2, 3, &[0; 4]));
    assert!(!is_restorable(EngineType::Agz1D, usize::MAX, 2, 3, &[0; 4]));
    assert!(is_restorable(EngineType::Agz1D, 0, 2, 3, &[]));
    assert!(!is_restorable(EngineType::Agz1D, 0, 2, usize::MAX, &[]));
    assert!(is_restorable(EngineType::Agz2D, 1, 2, 3, &[0; 3]));
    assert!(!is_restorable(EngineType::Agz2D, 1, 2, 3, &[0; 2]));
    assert!(!is_restorable(EngineType::Agz2D, 1, 0, 3, &[0; 3]));
    assert!(is_restorable(EngineType::Agz2D, 1, 0, 0, &[]));
}
