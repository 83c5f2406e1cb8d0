use agz::archive::{
    assemble_record, decode_payload, encode_record, finish_payload, pack_file, parse_meta, restore_payload,
    unpack_archive, ArchiveError, FileRecord, RecordMeta, Unpacker, AGZ_MAGIC,
};
use agz::little_endian::{read_le, write_le};
use agz::optimize::EngineType;

fn entropy(counts: &[usize], len: usize) -> u64 {
    let mut entropy = 0.0;
    let len = len as f64;
    for &count in counts {
        if count > 0 {
            let p = count as f64 / len;
            entropy -= p * p.log2();
        }
    }
    let entropy: f64 = entropy.max(0.0);
    entropy.to_bits()
}

fn product(a: u64, b: u64) -> u64 {
    (f64::from_bits(a) * f64::from_bits(b)).to_bits()
}

fn pack(path: &str, raw: &[u8]) -> Option<FileRecord> {
    pack_file(path.to_string(), raw, &entropy, &product).unwrap()
}

fn ramp(n: usize) -> Vec<u8> {
    (0..n).map(|i| (i % 97) as u8 + (i / 97 % 31) as u8).collect()
}

fn picture() -> Vec<u8> {
    let mut out = Vec::new();
    for y in 0..40usize {
        for x in 0..300usize {
            out.push(((x * 37 % 101) + (x * x % 53) + y) as u8);
        }
    }
    out
}

fn raw_record(path: &[u8], engine: u8, channels: u32, row_stride: u32, orig: u64, data: &[u8]) -> Vec<u8> {
    let compressed = zstd::stream::encode_all(data, 1).unwrap();
    let mut out = Vec::new();
    out.extend((path.len() as u16).to_le_bytes());
    out.extend(path);
    out.push(engine);
    out.extend(channels.to_le_bytes());
    out.extend(row_stride.to_le_bytes());
    out.extend(orig.to_le_bytes());
    out.extend((compressed.len() as u64).to_le_bytes());
    out.extend(compressed);
    out
}

fn archive(records: &[Vec<u8>]) -> Vec<u8> {
    let mut out = AGZ_MAGIC.to_vec();
    for record in records {
        out.extend(record);
    }
    out
}

#[test]
fn numbers_are_little_endian() {
    let mut out = vec![7u8];
    write_le(&mut out, 0x1234, 2);
    write_le(&mut out, 0x1_0000_0005, 4);
    assert_eq!(out, vec![7, 0x34, 0x12, 5, 0, 0, 0]);
    assert_eq!(read_le(&[]), 0);
    assert_eq!(read_le(&[0x34, 0x12]), 0x1234);
    assert_eq!(read_le(&[255; 8]), u64::MAX);
    for x in [0u64, 1, 255, 256, 65535, 1 << 40, u64::MAX] {
        let mut bytes = Vec::new();
        write_le(&mut bytes, x, 8);
        assert_eq!(bytes, x.to_le_bytes().to_vec());
        assert_eq!(read_le(&bytes), x);
    }
}

#[test]
fn magic_is_agz_sixteen() {
    assert_eq!(AGZ_MAGIC, [b'A', b'G', b'Z', 16]);
}

#[test]
fn record_layout() {
    let record = FileRecord {
        rel_path: "a/b".to_string(),
        engine: EngineType::Agz2D,
        channels: 3,
        row_stride: 0x0102,
        orig_size: 5,
        compressed: vec![9, 8],
    };
    let expected = vec![
        3, 0, b'a', b'/', b'b', 2, 3, 0, 0, 0, 2, 1, 0, 0, 5, 0, 0, 0, 0, 0, 0, 0, 2, 0, 0, 0, 0, 0, 0,
        0, 9, 8,
    ];
    assert_eq!(encode_record(&record), expected);
    let meta = parse_meta(&expected[5..30]);
    assert_eq!(meta.engine_code, 2);
    assert_eq!(meta.channels, 3);
    assert_eq!(meta.row_stride, 0x0102);
    assert_eq!(meta.orig_size, 5);
    assert_eq!(meta.comp_size, 2);
}

#[test]
fn long_paths_lose_their_length() {
    let record = FileRecord {
        rel_path: "x".repeat(65537),
        engine: EngineType::ZstdOnly,
        channels: 1,
        row_stride: 1,
        orig_size: 0,
        compressed: vec![],
    };
    let bytes = encode_record(&record);
    assert_eq!(bytes[..2].to_vec(), vec![1, 0]);
    assert_eq!(bytes.len(), 2 + 65537 + 25);
}

#[test]
fn empty_files_are_not_packed() {
    assert!(pack("empty", &[]).is_none());
    assert!(pack("one byte", &[0]).is_some());
}

#[test]
fn packed_data_is_a_frame_of_level_21() {
    let raw = ramp(3000);
    let record = pack("dir/ramp", &raw).unwrap();
    assert_eq!(record.rel_path, "dir/ramp");
    assert_eq!(record.engine, EngineType::ZstdOnly);
    assert_eq!((record.channels, record.row_stride, record.orig_size), (1, 1, 3000));
    assert_ne!(record.compressed, raw);
    assert_eq!(record.compressed, zstd::stream::encode_all(&raw[..], 21).unwrap());
    assert_eq!(zstd::stream::decode_all(&record.compressed[..]).unwrap(), raw);
}

#[test]
fn failed_compression_is_handed_on() {
    let failed = Err(std::io::Error::from(std::io::ErrorKind::OutOfMemory));
    let error = assemble_record("p".to_string(), 4, EngineType::ZstdOnly, 1, 1, failed).unwrap_err();
    assert_eq!(error.kind(), std::io::ErrorKind::OutOfMemory);
    let record = assemble_record("p".to_string(), 4, EngineType::Agz1D, 2, 2, Ok(vec![1])).unwrap();
    assert_eq!(record.rel_path, "p");
    assert_eq!(record.orig_size, 4);
    assert_eq!(record.engine, EngineType::Agz1D);
    assert_eq!((record.channels, record.row_stride), (2, 2));
    assert_eq!(record.compressed, vec![1]);
}

#[test]
fn unpacking_gives_back_what_was_packed() {
    let files: Vec<(&str, Vec<u8>)> = vec![
        ("small.txt", b"hello".to_vec()),
        ("dir/picture.raw", picture()),
        ("\u{e4}\u{f6}\u{fc}/ramp", ramp(20_000)),
        ("", vec![0; 4096]),
        ("zeros", vec![0; 100_000]),
    ];
    let mut records = Vec::new();
    let mut engines = Vec::new();
    for (path, raw) in &files {
        let record = pack(path, raw).unwrap();
        engines.push(record.engine);
        records.push(encode_record(&record));
    }
    assert_eq!(engines[1], EngineType::Agz2D);
    let bytes = archive(&records);
    let out = unpack_archive(&bytes);
    assert!(out.error.is_none());
    assert_eq!(out.files.len(), files.len());
    for (file, (path, raw)) in out.files.iter().zip(&files) {
        assert_eq!(file.path, *path);
        assert_eq!(&file.data, raw);
    }
}

#[test]
fn only_the_bytes_decide() {
    let raw = picture();
    let a = pack("picture.bmp", &raw).unwrap();
    let b = pack("picture.txt", &raw).unwrap();
    assert_eq!(a.engine, b.engine);
    assert_eq!((a.channels, a.row_stride), (b.channels, b.row_stride));
    assert_eq!(a.compressed, b.compressed);
}

#[test]
fn concatenated_records_unpack_in_turn() {
    let first = encode_record(&pack("same", b"old").unwrap());
    let second = encode_record(&pack("same", b"new").unwrap());
    let third = encode_record(&pack("other", &ramp(5000)).unwrap());
    let out = unpack_archive(&archive(&[first, second, third]));
    assert!(out.error.is_none());
    let paths: Vec<&str> = out.files.iter().map(|f| f.path.as_str()).collect();
    assert_eq!(paths, vec!["same", "same", "other"]);
    assert_eq!(out.files[0].data, b"old".to_vec());
    assert_eq!(out.files[1].data, b"new".to_vec());
    assert_eq!(out.files[2].data, ramp(5000));
}

#[test]
fn stray_byte_after_the_magic_is_ignored() {
    for stray in [0u8, 1, 65, 255] {
        let mut bytes = AGZ_MAGIC.to_vec();
        bytes.push(stray);
        let out = unpack_archive(&bytes);
        assert!(out.error.is_none());
        assert!(out.files.is_empty());
    }
}

#[test]
fn archive_without_records() {
    let out = unpack_archive(&AGZ_MAGIC);
    assert!(out.error.is_none());
    assert!(out.files.is_empty());
}

#[test]
fn foreign_files_are_refused() {
    let out = unpack_archive(b"PK\x03\x04rest");
    assert!(matches!(out.error, Some(ArchiveError::InvalidMagic)));
    assert!(out.files.is_empty());
    let out = unpack_archive(b"AGZ\x0f");
    assert!(matches!(out.error, Some(ArchiveError::InvalidMagic)));
    let out = unpack_archive(b"AGZ");
    assert!(matches!(out.error, Some(ArchiveError::UnexpectedEof)));
    let out = unpack_archive(b"");
    assert!(matches!(out.error, Some(ArchiveError::UnexpectedEof)));
}

#[test]
fn truncated_archives_keep_their_first_files() {
    let first = encode_record(&pack("one", b"first file").unwrap());
    let second = encode_record(&pack("two", b"second file").unwrap());
    let one = 4 + first.len();
    let whole = archive(&[first, second]);
    for kept in 4..whole.len() {
        let out = unpack_archive(&whole[..kept]);
        let complete = if kept >= one { 1 } else { 0 };
        assert_eq!(out.files.len(), complete);
        if complete == 1 {
            assert_eq!(out.files[0].data, b"first file".to_vec());
        }
        // an archive may end where a record begins, or one byte later
        let clean = kept == 4 || kept == 5 || kept == one || kept == one + 1;
        assert_eq!(out.error.is_none(), clean);
        assert!(clean || matches!(out.error, Some(ArchiveError::UnexpectedEof)));
    }
}

#[test]
fn broken_frames_are_reported() {
    let good = raw_record(b"good", 0, 1, 1, 3, b"abc");
    let mut bad = raw_record(b"bad", 0, 1, 1, 3, b"abc");
    bad[30] ^= 0xff;
    let out = unpack_archive(&archive(&[good, bad]));
    assert_eq!(out.files.len(), 1);
    assert_eq!(out.files[0].path, "good");
    assert!(matches!(out.error, Some(ArchiveError::Decompress(_))));
}

#[test]
fn unknown_engines_are_reported() {
    let out = unpack_archive(&archive(&[raw_record(b"x", 3, 1, 1, 3, b"abc")]));
    assert!(out.files.is_empty());
    assert!(matches!(out.error, Some(ArchiveError::UnknownEngine)));
    // a broken frame is noticed first
    let mut both = raw_record(b"bad", 3, 1, 1, 3, b"abc");
    both[30] ^= 0xff;
    let out = unpack_archive(&archive(&[both]));
    assert!(matches!(out.error, Some(ArchiveError::Decompress(_))));
}

#[test]
fn contradictory_sizes_are_reported() {
    for record in [
        raw_record(b"x", 1, 2, 2, 3, &[0, 1, 2, 0]),
        raw_record(b"x", 2, 1, 2, 3, &[0, 1]),
        raw_record(b"x", 2, 1, 0, 2, &[0, 1]),
    ] {
        let out = unpack_archive(&archive(&[record]));
        assert!(out.files.is_empty());
        assert!(matches!(out.error, Some(ArchiveError::Inconsistent)));
    }
}

#[test]
fn engines_restore_their_data() {
    let out = unpack_archive(&archive(&[
        // the size does not matter to the first engine
        raw_record(b"0", 0, 0, 0, 77, b"abc"),
        raw_record(b"1", 1, 2, 2, 3, &[0, 1, 2, 1, 9]),
        raw_record(b"2", 2, 1, 2, 4, &[1, 1, 1, 1, 50]),
        raw_record(b"3", 1, 0, 0, 2, b""),
    ]));
    assert!(out.error.is_none());
    assert_eq!(out.files[0].data, b"abc".to_vec());
    assert_eq!(out.files[1].data, vec![1, 9, 3]);
    assert_eq!(out.files[2].data, vec![1, 2, 2, 4]);
    assert_eq!(out.files[3].data, vec![0, 0]);
}

#[test]
fn paths_are_read_leniently() {
    let out = unpack_archive(&archive(&[
        raw_record(b"a\xffb", 0, 1, 1, 1, b"x"),
        raw_record("\u{20ac}".as_bytes(), 0, 1, 1, 1, b"x"),
    ]));
    assert!(out.error.is_none());
    assert_eq!(out.files[0].path, "a\u{fffd}b");
    assert_eq!(out.files[1].path, "\u{20ac}");
}

#[test]
fn unpacker_asks_for_the_fields_in_turn() {
    let record = raw_record(b"path", 0, 1, 1, 3, b"abc");
    let bytes = archive(&[record]);
    let mut state = Unpacker::new();
    let mut pos = 0;
    let mut asked = Vec::new();
    let mut files = Vec::new();
    while pos < bytes.len() {
        let n = state.wanted();
        asked.push(n);
        assert_eq!(state.end().is_none(), n == 2);
        let progress = state.feed(&bytes[pos..pos + n]).unwrap();
        pos += n;
        state = progress.next;
        if let Some(file) = progress.extracted {
            files.push(file);
        }
    }
    assert_eq!(asked[..4].to_vec(), vec![4, 2, 4, 25]);
    assert_eq!(asked.len(), 5);
    assert!(matches!(state, Unpacker::PathLen));
    assert_eq!(files.len(), 1);
    assert_eq!(files[0].path, "path");
    assert_eq!(files[0].data, b"abc".to_vec());
}

#[test]
fn failed_decompression_is_handed_on() {
    let meta = RecordMeta { engine_code: 0, channels: 1, row_stride: 1, orig_size: 1, comp_size: 0 };
    let failed = Err(std::io::Error::from(std::io::ErrorKind::OutOfMemory));
    match finish_payload(&meta, failed) {
        Err(ArchiveError::Decompress(error)) => {
            assert_eq!(error.kind(), std::io::ErrorKind::OutOfMemory)
        }
        _ => panic!("the error is lost"),
    }
    assert_eq!(finish_payload(&meta, Ok(vec![7, 8])).unwrap(), vec![7, 8]);
    // the decoder's own words come through
    let expected = zstd::stream::decode_all(&[1u8, 2, 3, 4, 5][..]).unwrap_err().to_string();
    match decode_payload(&meta, &[1, 2, 3, 4, 5]) {
        Err(ArchiveError::Decompress(error)) => assert_eq!(error.to_string(), expected),
        _ => panic!("the error is lost"),
    }
}

#[test]
fn payloads_are_decoded_and_restored() {
    let meta = RecordMeta { engine_code: 2, channels: 1, row_stride: 2, orig_size: 4, comp_size: 0 };
    assert_eq!(restore_payload(&meta, vec![1, 1, 1, 1]).unwrap(), vec![1, 2, 2, 4]);
    assert!(matches!(restore_payload(&meta, vec![1]), Err(ArchiveError::Inconsistent)));
    let frame = zstd::stream::encode_all(&[1u8, 1, 1, 1][..], 3).unwrap();
    assert_eq!(decode_payload(&meta, &frame).unwrap(), vec![1, 2, 2, 4]);
    assert!(matches!(decode_payload(&meta, &[1, 2, 3]), Err(ArchiveError::Decompress(_))));
    let unknown = RecordMeta { engine_code: 9, ..meta };
    assert!(matches!(restore_payload(&unknown, vec![]), Err(ArchiveError::UnknownEngine)));
}
