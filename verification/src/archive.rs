//! The archive format: four magic bytes, then one record after the other.
//!
//! A record is the length of the path (two bytes), the path, the engine (one byte), the
//! number of channels and the row stride (four bytes each), the size of the file and of
//! the compressed data (eight bytes each), and the compressed data. Numbers are
//! little-endian.

use crate::codec::{compress, decompress, lossy_string};
use crate::entropy::total_measure;
use crate::little_endian::{read_le, write_le};
use crate::optimize::{
    is_restorable, optimize_file, restore_file, total_scale, EngineType,
};
use vstd::prelude::*;
use vstd::slice::slice_subrange;

verus! {

/// The bytes that open an archive: `AGZ` and the format number.
pub const AGZ_MAGIC: [u8; 4] = [0x41, 0x47, 0x5a, 16];

/// The Zstandard level of all compressed data.
pub const COMPRESSION_LEVEL: i32 = 21;

/// The number of bytes between a path and the compressed data.
pub const META_SIZE: usize = 25;

/// One file of an archive.
#[derive(Debug)]
pub struct FileRecord {
    pub rel_path: String,
    pub engine: EngineType,
    pub channels: usize,
    pub row_stride: usize,
    pub orig_size: u64,
    pub compressed: Vec<u8>,
}

// ---------------------------------------------------------------------------
// Packing
// ---------------------------------------------------------------------------

/// The bytes of a record. Of each number as many low bytes are kept as its field has.
pub open spec fn record_bytes(record: FileRecord) -> Seq<u8> {
    let path = vstd::utf8::encode_utf8(record.rel_path@);
    crate::little_endian::le_bytes(path.len(), 2) + path + meta_bytes(record) + record.compressed@
}

/// The bytes of a record between its path and its compressed data.
pub open spec fn meta_bytes(record: FileRecord) -> Seq<u8> {
    seq![record.engine.spec_code()] + crate::little_endian::le_bytes(record.channels as nat, 4)
        + crate::little_endian::le_bytes(record.row_stride as nat, 4)
        + crate::little_endian::le_bytes(record.orig_size as nat, 8)
        + crate::little_endian::le_bytes(record.compressed@.len(), 8)
}

/// `record` is what packing the file `raw` under `path` gives when its entropy readings
/// are `r`: the optimised bytes, compressed.
pub open spec fn packs(
    record: FileRecord,
    path: Seq<char>,
    raw: Seq<u8>,
    r: crate::optimize::Readings,
) -> bool {
    let (engine, channels, row_stride, transformed) = crate::optimize::optimized(raw, r);
    &&& record.rel_path@ == path
    &&& record.engine == engine
    &&& record.channels == channels
    &&& record.row_stride == row_stride
    &&& record.orig_size == raw.len()
    &&& record.compressed@ == crate::codec::zstd_encoded(transformed, COMPRESSION_LEVEL)
    &&& crate::codec::zstd_decoded(record.compressed@) == Some(transformed)
}

/// Makes the record of a file whose data has been compressed. Where the compression
/// failed, its error is handed on.
pub fn assemble_record(
    rel_path: String,
    orig_size: u64,
    engine: EngineType,
    channels: usize,
    row_stride: usize,
    compressed: Result<Vec<u8>, std::io::Error>,
) -> (result: Result<FileRecord, std::io::Error>)
    ensures
        result == match compressed {
            Ok(compressed) => Ok(
                (FileRecord { rel_path, engine, channels, row_stride, orig_size, compressed }),
            ),
            Err(error) => Err(error),
        },
{
    match compressed {
        Ok(compressed) => Ok(
            FileRecord { rel_path, engine, channels, row_stride, orig_size, compressed },
        ),
        Err(error) => Err(error),
    }
}

/// Optimises and compresses one file. An empty file, and no other, has no record. The
/// compression may fail for want of memory; then its error is handed on.
pub fn pack_file<M: Fn(&[usize], usize) -> u64, S: Fn(u64, u64) -> u64>(
    rel_path: String,
    raw: &[u8],
    measure: &M,
    scale: &S,
) -> (result: Result<Option<FileRecord>, std::io::Error>)
    requires
        total_measure(*measure),
        total_scale(*scale),
    ensures
        raw@.len() == 0 <==> result == Ok::<Option<FileRecord>, std::io::Error>(None),
        result matches Ok(Some(record)) ==> exists|r: crate::optimize::Readings| #[trigger]
            crate::optimize::readings_taken(*measure, *scale, raw@, r) && packs(
                record,
                rel_path@,
                raw@,
                r,
            ),
        result matches Err(error) ==> exists|r: crate::optimize::Readings| #[trigger]
            crate::optimize::readings_taken(*measure, *scale, raw@, r)
                && crate::codec::encoding_gives(
                crate::optimize::optimized(raw@, r).3,
                21,
                Err(error),
            ),
{
    if raw.is_empty() {
        return Ok(None);
    }
    let (engine, channels, row_stride, transformed) = optimize_file(raw, measure, scale);
    let compressed = compress(transformed.as_slice(), COMPRESSION_LEVEL);
    match assemble_record(rel_path, raw.len() as u64, engine, channels, row_stride, compressed) {
        Ok(record) => Ok(Some(record)),
        Err(error) => Err(error),
    }
}

/// The bytes of a record, as they stand in the archive.
pub fn encode_record(record: &FileRecord) -> (out: Vec<u8>)
    ensures
        out@ == record_bytes(*record),
{
    let path = record.rel_path.as_str().as_bytes();
    let mut out: Vec<u8> = Vec::new();
    write_le(&mut out, path.len() as u64, 2);
    out.extend_from_slice(path);
    out.push(record.engine.code());
    write_le(&mut out, record.channels as u64, 4);
    write_le(&mut out, record.row_stride as u64, 4);
    write_le(&mut out, record.orig_size, 8);
    write_le(&mut out, record.compressed.len() as u64, 8);
    out.extend_from_slice(record.compressed.as_slice());
    assert(out@ =~= record_bytes(*record));
    out
}

// ---------------------------------------------------------------------------
// Unpacking
// ---------------------------------------------------------------------------

/// Why an archive cannot be read on.
#[derive(Debug)]
pub enum ArchiveError {
    /// It does not begin with the magic bytes.
    InvalidMagic,
    /// It ends within the magic bytes or within a record.
    UnexpectedEof,
    /// The compressed data of a record cannot be decoded.
    Decompress(std::io::Error),
    /// A record names an engine that does not exist.
    UnknownEngine,
    /// A record holds less data than its sizes call for.
    Inconsistent,
}

/// The kinds of `ArchiveError`.
pub enum Fault {
    InvalidMagic,
    UnexpectedEof,
    Decompress,
    UnknownEngine,
    Inconsistent,
}

impl View for ArchiveError {
    type V = Fault;

    open spec fn view(&self) -> Fault {
        match self {
            ArchiveError::InvalidMagic => Fault::InvalidMagic,
            ArchiveError::UnexpectedEof => Fault::UnexpectedEof,
            ArchiveError::Decompress(_) => Fault::Decompress,
            ArchiveError::UnknownEngine => Fault::UnknownEngine,
            ArchiveError::Inconsistent => Fault::Inconsistent,
        }
    }
}

/// The fields of a record between its path and its compressed data.
#[derive(Debug, Clone, Copy)]
pub struct RecordMeta {
    pub engine_code: u8,
    pub channels: usize,
    pub row_stride: usize,
    pub orig_size: usize,
    pub comp_size: usize,
}

/// A file taken out of an archive.
#[derive(Debug)]
pub struct ExtractedFile {
    pub path: String,
    pub data: Vec<u8>,
}

impl View for ExtractedFile {
    type V = (Seq<char>, Seq<u8>);

    open spec fn view(&self) -> (Seq<char>, Seq<u8>) {
        (self.path@, self.data@)
    }
}

/// The fields that the bytes `s` hold.
pub open spec fn parsed_meta(s: Seq<u8>) -> RecordMeta {
    RecordMeta {
        engine_code: s[0],
        channels: crate::little_endian::le_value(s.subrange(1, 5)) as usize,
        row_stride: crate::little_endian::le_value(s.subrange(5, 9)) as usize,
        orig_size: crate::little_endian::le_value(s.subrange(9, 17)) as usize,
        comp_size: crate::little_endian::le_value(s.subrange(17, 25)) as usize,
    }
}

/// Reads the fields of a record.
pub fn parse_meta(s: &[u8]) -> (meta: RecordMeta)
    requires
        s@.len() == META_SIZE,
    ensures
        meta == parsed_meta(s@),
{
    RecordMeta {
        engine_code: s[0],
        channels: read_le(slice_subrange(s, 1, 5)) as usize,
        row_stride: read_le(slice_subrange(s, 5, 9)) as usize,
        orig_size: read_le(slice_subrange(s, 9, 17)) as usize,
        comp_size: read_le(slice_subrange(s, 17, 25)) as usize,
    }
}

/// The file that the decompressed data of a record stands for.
pub open spec fn restored_payload(meta: RecordMeta, transformed: Seq<u8>) -> Result<Seq<u8>, Fault> {
    match EngineType::spec_from_code(meta.engine_code) {
        None => Err(Fault::UnknownEngine),
        Some(engine) => if crate::optimize::restorable(
            engine,
            meta.channels as int,
            meta.row_stride as int,
            meta.orig_size as int,
            transformed,
        ) {
            Ok(
                crate::optimize::restored(
                    engine,
                    meta.channels as int,
                    meta.row_stride as int,
                    meta.orig_size as nat,
                    transformed,
                ),
            )
        } else {
            Err(Fault::Inconsistent)
        },
    }
}

/// The file that the compressed data of a record stands for.
pub open spec fn decoded_payload(meta: RecordMeta, compressed: Seq<u8>) -> Result<Seq<u8>, Fault> {
    match crate::codec::zstd_decoded(compressed) {
        None => Err(Fault::Decompress),
        Some(transformed) => restored_payload(meta, transformed),
    }
}

/// A result as the model of its value or error.
pub open spec fn bytes_result(result: Result<Vec<u8>, ArchiveError>) -> Result<Seq<u8>, Fault> {
    match result {
        Ok(data) => Ok(data@),
        Err(error) => Err(error@),
    }
}

/// Turns the decompressed data of a record into the file.
pub fn restore_payload(meta: &RecordMeta, transformed: Vec<u8>) -> (result: Result<
    Vec<u8>,
    ArchiveError,
>)
    ensures
        bytes_result(result) == restored_payload(*meta, transformed@),
{
    match EngineType::from_code(meta.engine_code) {
        None => Err(ArchiveError::UnknownEngine),
        Some(engine) => if is_restorable(
            engine,
            meta.channels,
            meta.row_stride,
            meta.orig_size,
            transformed.as_slice(),
        ) {
            Ok(restore_file(engine, meta.channels, meta.row_stride, meta.orig_size, transformed))
        } else {
            Err(ArchiveError::Inconsistent)
        },
    }
}

/// Turns the outcome of decompressing the data of a record into the file. Where the
/// decompression failed, its error is handed on.
pub fn finish_payload(
    meta: &RecordMeta,
    decoded: Result<Vec<u8>, std::io::Error>,
) -> (result: Result<Vec<u8>, ArchiveError>)
    ensures
        decoded matches Ok(transformed) ==> bytes_result(result) == restored_payload(
            *meta,
            transformed@,
        ),
        decoded matches Err(error) ==> result == Err::<Vec<u8>, ArchiveError>(
            ArchiveError::Decompress(error),
        ),
{
    match decoded {
        Ok(transformed) => restore_payload(meta, transformed),
        Err(error) => Err(ArchiveError::Decompress(error)),
    }
}

/// Turns the compressed data of a record into the file. Decompression may fail for want of
/// memory on data that is in order.
pub fn decode_payload(meta: &RecordMeta, compressed: &[u8]) -> (result: Result<
    Vec<u8>,
    ArchiveError,
>)
    ensures
        bytes_result(result) == decoded_payload(*meta, compressed@) || bytes_result(result) == Err::<
            Seq<u8>,
            Fault,
        >(Fault::Decompress),
        exists|decoded: Result<Vec<u8>, std::io::Error>| #[trigger]
            crate::codec::decoding_gives(compressed@, decoded) && match decoded {
                Ok(transformed) => bytes_result(result) == restored_payload(*meta, transformed@),
                Err(error) => result == Err::<Vec<u8>, ArchiveError>(
                    ArchiveError::Decompress(error),
                ),
            },
{
    finish_payload(meta, decompress(compressed))
}

/// Reads an archive piece by piece. Each state says what the next bytes are.
#[derive(Debug)]
pub enum Unpacker {
    /// The magic bytes.
    Magic,
    /// The length of a path. An archive may end here.
    PathLen,
    /// A path.
    Path { len: usize },
    /// The fields of a record.
    Meta { path: String },
    /// The compressed data of a record.
    Payload { path: String, meta: RecordMeta },
}

/// The states of `Unpacker`, with paths as sequences of characters.
pub enum Stage {
    Magic,
    PathLen,
    Path { len: usize },
    Meta { path: Seq<char> },
    Payload { path: Seq<char>, meta: RecordMeta },
}

impl View for Unpacker {
    type V = Stage;

    open spec fn view(&self) -> Stage {
        match self {
            Unpacker::Magic => Stage::Magic,
            Unpacker::PathLen => Stage::PathLen,
            Unpacker::Path { len } => Stage::Path { len: *len },
            Unpacker::Meta { path } => Stage::Meta { path: path@ },
            Unpacker::Payload { path, meta } => Stage::Payload { path: path@, meta: *meta },
        }
    }
}

/// What follows a piece that could be read: the next state, and the file that the piece
/// completed, if it did.
#[derive(Debug)]
pub struct Progress {
    pub next: Unpacker,
    pub extracted: Option<ExtractedFile>,
}

impl Stage {
    /// How many bytes the state asks for.
    pub open spec fn wanted(self) -> usize {
        match self {
            Stage::Magic => 4,
            Stage::PathLen => 2,
            Stage::Path { len } => len,
            Stage::Meta { .. } => META_SIZE,
            Stage::Payload { meta, .. } => meta.comp_size,
        }
    }

    /// What reading the bytes `chunk` in this state leads to.
    pub open spec fn step(self, chunk: Seq<u8>) -> Result<
        (Stage, Option<(Seq<char>, Seq<u8>)>),
        Fault,
    > {
        match self {
            Stage::Magic => if chunk == AGZ_MAGIC@ {
                Ok((Stage::PathLen, None))
            } else {
                Err(Fault::InvalidMagic)
            },
            Stage::PathLen => Ok(
                (Stage::Path { len: crate::little_endian::le_value(chunk) as usize }, None),
            ),
            Stage::Path { .. } => Ok(
                (Stage::Meta { path: crate::codec::text_of(chunk) }, None),
            ),
            Stage::Meta { path } => Ok(
                (Stage::Payload { path, meta: parsed_meta(chunk) }, None),
            ),
            Stage::Payload { path, meta } => match decoded_payload(meta, chunk) {
                Ok(data) => Ok((Stage::PathLen, Some((path, data)))),
                Err(fault) => Err(fault),
            },
        }
    }

    /// What it means that the archive ends where this state asks for more.
    pub open spec fn end(self) -> Option<Fault> {
        match self {
            Stage::PathLen => None,
            _ => Some(Fault::UnexpectedEof),
        }
    }

    /// Steps that ask for no bytes at all lead to states of a lower rank.
    pub open spec fn rank(self) -> nat {
        match self {
            Stage::Path { .. } | Stage::Payload { .. } => 1,
            _ => 0,
        }
    }
}

/// Where a record leads whose data has turned out as `data`: behind it, with its file.
pub open spec fn payload_progress(path: Seq<char>, data: Result<Seq<u8>, Fault>) -> Result<
    (Stage, Option<(Seq<char>, Seq<u8>)>),
    Fault,
> {
    match data {
        Ok(data) => Ok((Stage::PathLen, Some((path, data)))),
        Err(fault) => Err(fault),
    }
}

/// A file, or none, as its model.
pub open spec fn file_view(file: Option<ExtractedFile>) -> Option<(Seq<char>, Seq<u8>)> {
    match file {
        Some(file) => Some(file@),
        None => None,
    }
}

/// The outcome of a step as its model.
pub open spec fn progress_result(result: Result<Progress, ArchiveError>) -> Result<
    (Stage, Option<(Seq<char>, Seq<u8>)>),
    Fault,
> {
    match result {
        Ok(progress) => Ok((progress.next@, file_view(progress.extracted))),
        Err(error) => Err(error@),
    }
}

impl Unpacker {
    /// A reader at the start of an archive.
    pub fn new() -> (unpacker: Unpacker)
        ensures
            unpacker@ == Stage::Magic,
    {
        Unpacker::Magic
    }

    /// How many bytes to read next.
    pub fn wanted(&self) -> (n: usize)
        ensures
            n == self@.wanted(),
    {
        match self {
            Unpacker::Magic => 4,
            Unpacker::PathLen => 2,
            Unpacker::Path { len } => *len,
            Unpacker::Meta { .. } => META_SIZE,
            Unpacker::Payload { meta, .. } => meta.comp_size,
        }
    }

    /// Takes the bytes that `wanted` asked for. At the compressed data of a record,
    /// decompression may fail for want of memory on data that is in order.
    pub fn feed(self, chunk: &[u8]) -> (result: Result<Progress, ArchiveError>)
        requires
            chunk@.len() == self@.wanted(),
        ensures
            progress_result(result) == self@.step(chunk@) || (self@ is Payload && progress_result(
                result,
            ) == Err::<(Stage, Option<(Seq<char>, Seq<u8>)>), Fault>(Fault::Decompress)),
            self@ matches Stage::Payload { path, meta } ==> exists|
                decoded: Result<Vec<u8>, std::io::Error>,
            | #[trigger]
                crate::codec::decoding_gives(chunk@, decoded) && match decoded {
                    Ok(transformed) => progress_result(result) == payload_progress(
                        path,
                        restored_payload(meta, transformed@),
                    ),
                    Err(error) => result == Err::<Progress, ArchiveError>(
                        ArchiveError::Decompress(error),
                    ),
                },
    {
        match self {
            Unpacker::Magic => {
                if chunk[0] == AGZ_MAGIC[0] && chunk[1] == AGZ_MAGIC[1] && chunk[2] == AGZ_MAGIC[2]
                    && chunk[3] == AGZ_MAGIC[3] {
                    assert(chunk@ =~= AGZ_MAGIC@);
                    Ok(Progress { next: Unpacker::PathLen, extracted: None })
                } else {
                    Err(ArchiveError::InvalidMagic)
                }
            },
            Unpacker::PathLen => {
                let len: usize = read_le(chunk) as usize;
                Ok(Progress { next: Unpacker::Path { len }, extracted: None })
            },
            Unpacker::Path { .. } => {
                let path = lossy_string(chunk);
                Ok(Progress { next: Unpacker::Meta { path }, extracted: None })
            },
            Unpacker::Meta { path } => {
                let meta = parse_meta(chunk);
                Ok(Progress { next: Unpacker::Payload { path, meta }, extracted: None })
            },
            Unpacker::Payload { path, meta } => match decode_payload(&meta, chunk) {
                Ok(data) => Ok(
                    Progress {
                        next: Unpacker::PathLen,
                        extracted: Some(ExtractedFile { path, data }),
                    },
                ),
                Err(error) => Err(error),
            },
        }
    }

    /// What it means that the archive has fewer bytes left than `wanted` asked for. Where
    /// a record would begin, that is the end of the archive.
    pub fn end(&self) -> (error: Option<ArchiveError>)
        ensures
            self@.end() is None <==> error is None,
            error matches Some(error) ==> self@.end() == Some(error@),
    {
        match self {
            Unpacker::PathLen => None,
            _ => Some(ArchiveError::UnexpectedEof),
        }
    }
}

/// Reading the archive bytes `rest` from `stage` on: the files that come out, and what
/// stopped the reading before the end of the archive, if anything did.
pub open spec fn unpacked(stage: Stage, rest: Seq<u8>) -> (
    Seq<(Seq<char>, Seq<u8>)>,
    Option<Fault>,
)
    decreases rest.len(), stage.rank(),
{
    let n = stage.wanted() as int;
    if rest.len() < n {
        (Seq::empty(), stage.end())
    } else {
        match stage.step(rest.take(n)) {
            Err(fault) => (Seq::empty(), Some(fault)),
            Ok((next, file)) => {
                let (files, fault) = unpacked(next, rest.skip(n));
                (
                    match file {
                        Some(file) => seq![file] + files,
                        None => files,
                    },
                    fault,
                )
            },
        }
    }
}

/// How many records of the archive bytes `rest` are read as far as their compressed data,
/// from `stage` on.
pub open spec fn payloads(stage: Stage, rest: Seq<u8>) -> nat
    decreases rest.len(), stage.rank(),
{
    let n = stage.wanted() as int;
    if rest.len() < n {
        0
    } else {
        let here: nat = if stage is Payload {
            1
        } else {
            0
        };
        match stage.step(rest.take(n)) {
            Err(_) => here,
            Ok((next, _)) => here + payloads(next, rest.skip(n)),
        }
    }
}

/// The compressed data of the record with index `k` among those that are read as far as
/// their compressed data.
pub open spec fn payload_at(stage: Stage, rest: Seq<u8>, k: nat) -> Seq<u8>
    decreases rest.len(), stage.rank(),
{
    let n = stage.wanted() as int;
    if rest.len() < n {
        Seq::empty()
    } else if stage is Payload && k == 0 {
        rest.take(n)
    } else {
        let left: nat = if stage is Payload {
            (k - 1) as nat
        } else {
            k
        };
        match stage.step(rest.take(n)) {
            Err(_) => Seq::empty(),
            Ok((next, _)) => payload_at(next, rest.skip(n), left),
        }
    }
}

/// The decoder may refuse `bytes`.
pub open spec fn decoding_may_fail(bytes: Seq<u8>) -> bool {
    exists|error: std::io::Error| #[trigger] crate::codec::decoding_gives(bytes, Err(error))
}

/// `out`, files and fault, is what unpacking `archive` may give: what `unpacked` says, or,
/// where the decoder refuses the compressed data of one of the records, the files before
/// that record.
pub open spec fn unpack_outcome(
    archive: Seq<u8>,
    out: (Seq<(Seq<char>, Seq<u8>)>, Option<Fault>),
) -> bool {
    ||| out == unpacked(Stage::Magic, archive)
    ||| {
        &&& out.1 == Some(Fault::Decompress)
        &&& out.0.is_prefix_of(unpacked(Stage::Magic, archive).0)
        &&& out.0.len() < payloads(Stage::Magic, archive)
        &&& decoding_may_fail(payload_at(Stage::Magic, archive, out.0.len()))
    }
}

/// All that came out of an archive, and what stopped the reading before its end, if
/// anything did.
#[derive(Debug)]
pub struct Unpacked {
    pub files: Vec<ExtractedFile>,
    pub error: Option<ArchiveError>,
}

impl View for Unpacked {
    type V = (Seq<(Seq<char>, Seq<u8>)>, Option<Fault>);

    open spec fn view(&self) -> (Seq<(Seq<char>, Seq<u8>)>, Option<Fault>) {
        (
            self.files@.map_values(|file: ExtractedFile| file@),
            match self.error {
                Some(error) => Some(error@),
                None => None,
            },
        )
    }
}

/// Takes all files out of an archive that is held in memory. Decompression may fail for
/// want of memory on data that is in order; then the files before it have come out.
pub fn unpack_archive(archive: &[u8]) -> (out: Unpacked)
    ensures
        unpack_outcome(archive@, out@),
        out.error matches Some(ArchiveError::Decompress(error)) ==> crate::codec::decoding_gives(
            payload_at(Stage::Magic, archive@, out.files@.len()),
            Err(error),
        ),
{
    let mut files: Vec<ExtractedFile> = Vec::new();
    let mut state = Unpacker::new();
    let mut pos: usize = 0;
    let ghost all = unpacked(Stage::Magic, archive@);
    let ghost model = |file: ExtractedFile| file@;
    assert(archive@.skip(0) =~= archive@);
    assert(files@.map_values(model) + all.0 =~= all.0);
    while archive.len() - pos >= state.wanted()
        invariant
            pos <= archive@.len(),
            model == (|file: ExtractedFile| file@),
            all == unpacked(Stage::Magic, archive@),
            all.0 == files@.map_values(model) + unpacked(state@, archive@.skip(pos as int)).0,
            all.1 == unpacked(state@, archive@.skip(pos as int)).1,
            payloads(Stage::Magic, archive@) == files@.len() + payloads(
                state@,
                archive@.skip(pos as int),
            ),
            forall|k: nat|
                payload_at(Stage::Magic, archive@, files@.len() + k) == #[trigger] payload_at(
                    state@,
                    archive@.skip(pos as int),
                    k,
                ),
        decreases archive@.len() - pos, state@.rank(),
    {
        let n: usize = state.wanted();
        let chunk = slice_subrange(archive, pos, pos + n);
        let ghost rest = archive@.skip(pos as int);
        let ghost stage = state@;
        let ghost before = files@.map_values(model);
        assert(chunk@ =~= rest.take(n as int));
        assert(rest.skip(n as int) =~= archive@.skip(pos + n));
        match state.feed(chunk) {
            Ok(progress) => {
                let ghost count = files@.len();
                if let Some(file) = progress.extracted {
                    files.push(file);
                    assert(files@.map_values(model) =~= before + seq![file@]);
                    assert(all.0 =~= files@.map_values(model) + unpacked(
                        progress.next@,
                        archive@.skip(pos + n),
                    ).0);
                }
                state = progress.next;
                pos = pos + n;
                proof {
                    assert forall|k: nat|
                        payload_at(Stage::Magic, archive@, files@.len() + k)
                            == #[trigger] payload_at(state@, archive@.skip(pos as int), k) by {
                        let passed: nat = if stage is Payload {
                            1
                        } else {
                            0
                        };
                        assert(files@.len() == count + passed);
                        assert(payload_at(stage, rest, passed + k) == payload_at(
                            state@,
                            archive@.skip(pos as int),
                            k,
                        ));
                        assert(count + (passed + k) == files@.len() + k);
                    }
                }
            },
            Err(error) => {
                proof {
                    assert(payload_at(Stage::Magic, archive@, files@.len() + 0) == payload_at(
                        stage,
                        rest,
                        0,
                    ));
                    assert(error is Decompress ==> stage is Payload);
                    assert(error matches ArchiveError::Decompress(cause)
                        ==> crate::codec::decoding_gives(chunk@, Err(cause)));
                }
                let out = Unpacked { files, error: Some(error) };
                assert(out@.0 =~= before);
                return out;
            },
        }
    }
    let error = state.end();
    let out = Unpacked { files, error };
    assert(out@.0 =~= all.0);
    out
}

// ---------------------------------------------------------------------------
// Laws
// ---------------------------------------------------------------------------

/// The records of an archive, one after the other.
pub open spec fn records_bytes(records: Seq<FileRecord>) -> Seq<u8>
    decreases records.len(),
{
    if records.len() == 0 {
        Seq::empty()
    } else {
        record_bytes(records[0]) + records_bytes(records.skip(1))
    }
}

/// The bytes of an archive.
pub open spec fn archive_bytes(records: Seq<FileRecord>) -> Seq<u8> {
    AGZ_MAGIC@ + records_bytes(records)
}

/// A file, together with the entropy readings that it was packed by.
pub struct PackedFile {
    pub path: Seq<char>,
    pub raw: Seq<u8>,
    pub readings: crate::optimize::Readings,
}

/// The path of `record` fits the two bytes of its length.
pub open spec fn path_fits(record: FileRecord) -> bool {
    vstd::utf8::encode_utf8(record.rel_path@).len() <= u16::MAX
}

/// `record` is what packing `file` gives, and its path fits.
pub open spec fn packed_well(record: FileRecord, file: PackedFile) -> bool {
    &&& packs(record, file.path, file.raw, file.readings)
    &&& file.raw.len() <= usize::MAX
    &&& path_fits(record)
}

/// The records are what packing the files gives, one for each.
pub open spec fn all_packed_well(records: Seq<FileRecord>, files: Seq<PackedFile>) -> bool {
    &&& records.len() == files.len()
    &&& forall|i: int| 0 <= i < records.len() ==> packed_well(#[trigger] records[i], files[i])
}

/// The files as they come out of an archive.
pub open spec fn file_views(files: Seq<PackedFile>) -> Seq<(Seq<char>, Seq<u8>)> {
    files.map_values(|file: PackedFile| (file.path, file.raw))
}

/// Reading `bytes` from `stage` on meets no fault and ends right where a record would
/// begin.
pub open spec fn at_boundary(stage: Stage, bytes: Seq<u8>) -> bool
    decreases bytes.len(), stage.rank(),
{
    let n = stage.wanted() as int;
    if bytes.len() < n {
        stage is PathLen && bytes.len() == 0
    } else {
        match stage.step(bytes.take(n)) {
            Err(_) => false,
            Ok((next, _)) => at_boundary(next, bytes.skip(n)),
        }
    }
}

/// Where reading `a` ends at a record boundary, reading `a` and then `b` gives the files
/// of `a`, then those of `b`, and stops where reading `b` stops.
pub proof fn concatenation_unpacks_in_turn(stage: Stage, a: Seq<u8>, b: Seq<u8>)
    requires
        at_boundary(stage, a),
    ensures
        unpacked(stage, a).1 is None,
        unpacked(stage, a + b) == (
            unpacked(stage, a).0 + unpacked(Stage::PathLen, b).0,
            unpacked(Stage::PathLen, b).1,
        ),
        payloads(stage, a + b) == payloads(stage, a) + payloads(Stage::PathLen, b),
        forall|k: nat| #[trigger]
            payload_at(stage, a + b, k) == if k < payloads(stage, a) {
                payload_at(stage, a, k)
            } else {
                payload_at(Stage::PathLen, b, (k - payloads(stage, a)) as nat)
            },
        at_boundary(Stage::PathLen, b) ==> at_boundary(stage, a + b),
    decreases a.len(), stage.rank(),
{
    let n = stage.wanted() as int;
    let after = unpacked(Stage::PathLen, b);
    if a.len() < n {
        assert(a + b =~= b);
        assert(unpacked(stage, a).0 + after.0 =~= after.0);
    } else {
        assert((a + b).take(n) =~= a.take(n));
        assert((a + b).skip(n) =~= a.skip(n) + b);
        let (next, file) = stage.step(a.take(n))->Ok_0;
        concatenation_unpacks_in_turn(next, a.skip(n), b);
        assert(unpacked(stage, a + b).0 =~= unpacked(stage, a).0 + after.0);
        assert forall|k: nat| #[trigger]
            payload_at(stage, a + b, k) == if k < payloads(stage, a) {
                payload_at(stage, a, k)
            } else {
                payload_at(Stage::PathLen, b, (k - payloads(stage, a)) as nat)
            } by {
            let left: nat = if stage is Payload && k > 0 {
                (k - 1) as nat
            } else {
                k
            };
            assert(payload_at(next, a.skip(n) + b, left) == if left < payloads(next, a.skip(n)) {
                payload_at(next, a.skip(n), left)
            } else {
                payload_at(Stage::PathLen, b, (left - payloads(next, a.skip(n))) as nat)
            });
        }
    }
}

/// The size of the compressed data is read as it was written.
proof fn lemma_meta_size(record: FileRecord)
    ensures
        meta_bytes(record).len() == META_SIZE,
        parsed_meta(meta_bytes(record)).engine_code == record.engine.spec_code(),
        parsed_meta(meta_bytes(record)).comp_size == record.compressed@.len(),
{
    let m = meta_bytes(record);
    let comp_len = record.compressed.len();
    crate::little_endian::field_ranges();
    crate::little_endian::bytes_have_length(record.channels as nat, 4);
    crate::little_endian::bytes_have_length(record.row_stride as nat, 4);
    crate::little_endian::bytes_have_length(record.orig_size as nat, 8);
    crate::little_endian::bytes_have_length(comp_len as nat, 8);
    crate::little_endian::reading_undoes_writing(comp_len as nat, 8);
    assert(m.subrange(17, 25) =~= crate::little_endian::le_bytes(comp_len as nat, 8));
}

/// The fields of a record are read as they were written.
proof fn lemma_meta_roundtrip(record: FileRecord, file: PackedFile)
    requires
        packed_well(record, file),
    ensures
        parsed_meta(meta_bytes(record)) == (RecordMeta {
            engine_code: record.engine.spec_code(),
            channels: record.channels,
            row_stride: record.row_stride,
            orig_size: file.raw.len() as usize,
            comp_size: record.compressed@.len() as usize,
        }),
{
    let m = meta_bytes(record);
    lemma_meta_size(record);
    crate::optimize::optimized_layout_is_small(file.raw, file.readings);
    crate::little_endian::field_ranges();
    crate::little_endian::bytes_have_length(record.channels as nat, 4);
    crate::little_endian::bytes_have_length(record.row_stride as nat, 4);
    crate::little_endian::bytes_have_length(record.orig_size as nat, 8);
    crate::little_endian::reading_undoes_writing(record.channels as nat, 4);
    crate::little_endian::reading_undoes_writing(record.row_stride as nat, 4);
    crate::little_endian::reading_undoes_writing(record.orig_size as nat, 8);
    assert(m.subrange(1, 5) =~= crate::little_endian::le_bytes(record.channels as nat, 4));
    assert(m.subrange(5, 9) =~= crate::little_endian::le_bytes(record.row_stride as nat, 4));
    assert(m.subrange(9, 17) =~= crate::little_endian::le_bytes(record.orig_size as nat, 8));
}

/// The state in which the compressed data of `record` is asked for.
spec fn payload_stage(record: FileRecord) -> Stage {
    Stage::Payload { path: record.rel_path@, meta: parsed_meta(meta_bytes(record)) }
}

/// Reading a record comes to its compressed data.
proof fn lemma_record_to_payload(record: FileRecord, rest: Seq<u8>)
    requires
        path_fits(record),
    ensures
        unpacked(Stage::PathLen, record_bytes(record) + rest) == unpacked(
            payload_stage(record),
            record.compressed@ + rest,
        ),
        payloads(Stage::PathLen, record_bytes(record) + rest) == payloads(
            payload_stage(record),
            record.compressed@ + rest,
        ),
        at_boundary(Stage::PathLen, record_bytes(record) + rest) == at_boundary(
            payload_stage(record),
            record.compressed@ + rest,
        ),
        payload_at(Stage::PathLen, record_bytes(record) + rest, 0) == record.compressed@,
{
    let text = record.rel_path@;
    let path = vstd::utf8::encode_utf8(text);
    let b0 = record_bytes(record) + rest;
    let b1 = path + meta_bytes(record) + record.compressed@ + rest;
    let b2 = meta_bytes(record) + record.compressed@ + rest;
    let b3 = record.compressed@ + rest;
    lemma_meta_size(record);
    crate::little_endian::field_ranges();

    // the length of the path
    let len = path.len() as usize;
    crate::little_endian::bytes_have_length(path.len(), 2);
    crate::little_endian::reading_undoes_writing(path.len(), 2);
    assert(b0.take(2) =~= crate::little_endian::le_bytes(path.len(), 2));
    assert(b0.skip(2) =~= b1);
    assert(Stage::PathLen.step(b0.take(2)) == Ok::<
        (Stage, Option<(Seq<char>, Seq<u8>)>),
        Fault,
    >((Stage::Path { len }, None)));

    // the path
    let at_path = Stage::Path { len };
    assert(b1.take(len as int) =~= path);
    assert(b1.skip(len as int) =~= b2);
    vstd::utf8::encode_utf8_valid_utf8(text);
    vstd::utf8::encode_utf8_decode_utf8(text);
    assert(unpacked(at_path, b1) == unpacked(Stage::Meta { path: text }, b2));
    assert(payloads(at_path, b1) == payloads(Stage::Meta { path: text }, b2));
    assert(at_boundary(at_path, b1) == at_boundary(Stage::Meta { path: text }, b2));

    // the fields
    let at_meta = Stage::Meta { path: text };
    assert(b2.take(META_SIZE as int) =~= meta_bytes(record));
    assert(b2.skip(META_SIZE as int) =~= b3);
    assert(unpacked(at_meta, b2) == unpacked(payload_stage(record), b3));
    assert(payloads(at_meta, b2) == payloads(payload_stage(record), b3));
    assert(at_boundary(at_meta, b2) == at_boundary(payload_stage(record), b3));

    // the compressed data
    assert(b3.take(record.compressed@.len() as int) =~= record.compressed@);
    assert(payload_at(payload_stage(record), b3, 0) == record.compressed@);
    assert(payload_at(at_meta, b2, 0) == payload_at(payload_stage(record), b3, 0));
    assert(payload_at(at_path, b1, 0) == payload_at(at_meta, b2, 0));
}

/// Reading a record takes its file out and ends at a boundary.
pub proof fn unpacking_record_gives_file(record: FileRecord, file: PackedFile)
    requires
        packed_well(record, file),
    ensures
        unpacked(Stage::PathLen, record_bytes(record)) == (
            seq![(file.path, file.raw)],
            None::<Fault>,
        ),
        payloads(Stage::PathLen, record_bytes(record)) == 1,
        payload_at(Stage::PathLen, record_bytes(record), 0) == record.compressed@,
        at_boundary(Stage::PathLen, record_bytes(record)),
{
    let none = Seq::<u8>::empty();
    let data = record.compressed@ + none;
    let size = record.compressed.len();
    lemma_meta_roundtrip(record, file);
    lemma_record_to_payload(record, none);
    assert(record_bytes(record) + none =~= record_bytes(record));
    assert(data.take(size as int) =~= record.compressed@);
    assert(data.skip(size as int) =~= none);
    crate::optimize::restoring_undoes_optimizing(file.raw, file.readings);
    let meta = parsed_meta(meta_bytes(record));
    assert(decoded_payload(meta, record.compressed@) == Ok::<Seq<u8>, Fault>(file.raw));
    assert(unpacked(Stage::PathLen, none) == (
        Seq::<(Seq<char>, Seq<u8>)>::empty(),
        None::<Fault>,
    ));
    assert(payloads(Stage::PathLen, none) == 0);
    assert(at_boundary(Stage::PathLen, none));
    assert(seq![(file.path, file.raw)] + Seq::empty() =~= seq![(file.path, file.raw)]);
}

proof fn lemma_unpacking_records(records: Seq<FileRecord>, files: Seq<PackedFile>)
    requires
        all_packed_well(records, files),
    ensures
        unpacked(Stage::PathLen, records_bytes(records)) == (file_views(files), None::<Fault>),
        payloads(Stage::PathLen, records_bytes(records)) == records.len(),
        forall|k: nat|
            k < records.len() ==> #[trigger] payload_at(Stage::PathLen, records_bytes(records), k)
                == records[k as int].compressed@,
        at_boundary(Stage::PathLen, records_bytes(records)),
    decreases records.len(),
{
    if records.len() == 0 {
        assert(file_views(files) =~= Seq::empty());
    } else {
        let later = records.skip(1);
        let later_files = files.skip(1);
        assert(packed_well(records[0], files[0]));
        assert forall|i: int| 0 <= i < later.len() implies packed_well(
            #[trigger] later[i],
            later_files[i],
        ) by {
            assert(packed_well(records[i + 1], files[i + 1]));
        }
        lemma_unpacking_records(later, later_files);
        unpacking_record_gives_file(records[0], files[0]);
        concatenation_unpacks_in_turn(
            Stage::PathLen,
            record_bytes(records[0]),
            records_bytes(later),
        );
        assert(file_views(files) =~= seq![(files[0].path, files[0].raw)] + file_views(later_files));
        assert forall|k: nat| k < records.len() implies #[trigger] payload_at(
            Stage::PathLen,
            records_bytes(records),
            k,
        ) == records[k as int].compressed@ by {
            if k > 0 {
                assert(payload_at(Stage::PathLen, records_bytes(later), (k - 1) as nat)
                    == later[k - 1].compressed@);
            }
        }
    }
}

/// Unpacking an archive gives back every file that was packed into it, path and bytes, in
/// the order of the records, whatever the entropy readings were. A path has to fit the
/// two bytes of its length.
pub proof fn unpacking_undoes_packing(records: Seq<FileRecord>, files: Seq<PackedFile>)
    requires
        all_packed_well(records, files),
    ensures
        unpacked(Stage::Magic, archive_bytes(records)) == (file_views(files), None::<Fault>),
        payloads(Stage::Magic, archive_bytes(records)) == records.len(),
        forall|k: nat|
            k < records.len() ==> #[trigger] payload_at(Stage::Magic, archive_bytes(records), k)
                == records[k as int].compressed@,
        at_boundary(Stage::Magic, archive_bytes(records)),
{
    let bytes = archive_bytes(records);
    assert(bytes.take(4) =~= AGZ_MAGIC@);
    assert(bytes.skip(4) =~= records_bytes(records));
    lemma_unpacking_records(records, files);
    assert forall|k: nat| k < records.len() implies #[trigger] payload_at(
        Stage::Magic,
        bytes,
        k,
    ) == records[k as int].compressed@ by {
        assert(payload_at(Stage::Magic, bytes, k) == payload_at(
            Stage::PathLen,
            records_bytes(records),
            k,
        ));
    }
}

/// What unpacking an archive may give: all its files and no fault or, where the decoder
/// refuses the whole compressed data of a record, the files before that record.
pub proof fn packed_files_come_out(
    records: Seq<FileRecord>,
    files: Seq<PackedFile>,
    out: (Seq<(Seq<char>, Seq<u8>)>, Option<Fault>),
)
    requires
        all_packed_well(records, files),
        unpack_outcome(archive_bytes(records), out),
    ensures
        out.0.is_prefix_of(file_views(files)),
        out.1 is None ==> out.0 == file_views(files),
        out.1 is Some ==> out.1 == Some(Fault::Decompress) && out.0.len() < files.len(),
        out.1 is Some ==> decoding_may_fail(records[out.0.len() as int].compressed@),
{
    unpacking_undoes_packing(records, files);
}

proof fn lemma_after_archive(records: Seq<FileRecord>, files: Seq<PackedFile>, end: Seq<u8>)
    requires
        all_packed_well(records, files),
    ensures
        unpacked(Stage::Magic, archive_bytes(records) + end) == (
            file_views(files) + unpacked(Stage::PathLen, end).0,
            unpacked(Stage::PathLen, end).1,
        ),
        payloads(Stage::Magic, archive_bytes(records) + end) == records.len() + payloads(
            Stage::PathLen,
            end,
        ),
{
    unpacking_undoes_packing(records, files);
    concatenation_unpacks_in_turn(Stage::Magic, archive_bytes(records), end);
}

/// A single stray byte after the last record changes nothing, and neither does none.
pub proof fn stray_byte_is_a_normal_end(
    records: Seq<FileRecord>,
    files: Seq<PackedFile>,
    stray: Seq<u8>,
)
    requires
        all_packed_well(records, files),
        stray.len() < 2,
    ensures
        unpacked(Stage::Magic, archive_bytes(records) + stray) == (
            file_views(files),
            None::<Fault>,
        ),
        payloads(Stage::Magic, archive_bytes(records) + stray) == records.len(),
{
    lemma_after_archive(records, files, stray);
    assert(file_views(files) + Seq::empty() =~= file_views(files));
}

/// The magic alone, or with one stray byte, unpacks to no files and no fault: nothing is
/// decompressed, so nothing can fail.
pub proof fn bare_archive_is_empty(
    stray: Seq<u8>,
    out: (Seq<(Seq<char>, Seq<u8>)>, Option<Fault>),
)
    requires
        stray.len() < 2,
        unpack_outcome(AGZ_MAGIC@ + stray, out),
    ensures
        out == (Seq::<(Seq<char>, Seq<u8>)>::empty(), None::<Fault>),
{
    let records = Seq::<FileRecord>::empty();
    let files = Seq::<PackedFile>::empty();
    stray_byte_is_a_normal_end(records, files, stray);
    assert(archive_bytes(records) =~= AGZ_MAGIC@);
    assert(file_views(files) =~= Seq::empty());
}

/// A record that is cut off after its first two bytes is an unexpected end, after the
/// files before it have come out.
pub proof fn cut_record_is_unexpected_end(
    records: Seq<FileRecord>,
    files: Seq<PackedFile>,
    record: FileRecord,
    kept: int,
)
    requires
        all_packed_well(records, files),
        path_fits(record),
        2 <= kept < record_bytes(record).len(),
    ensures
        unpacked(Stage::Magic, archive_bytes(records) + record_bytes(record).take(kept)) == (
            file_views(files),
            Some(Fault::UnexpectedEof),
        ),
        payloads(Stage::Magic, archive_bytes(records) + record_bytes(record).take(kept))
            == records.len(),
{
    let text = record.rel_path@;
    let path = vstd::utf8::encode_utf8(text);
    let len = path.len() as usize;
    let b0 = record_bytes(record).take(kept);
    let b1 = b0.skip(2);
    let at_path = Stage::Path { len };
    let at_meta = Stage::Meta { path: text };
    lemma_after_archive(records, files, b0);
    lemma_meta_size(record);
    crate::little_endian::field_ranges();
    crate::little_endian::bytes_have_length(path.len(), 2);
    crate::little_endian::reading_undoes_writing(path.len(), 2);
    assert(b0.take(2) =~= crate::little_endian::le_bytes(path.len(), 2));
    assert(unpacked(Stage::PathLen, b0) == unpacked(at_path, b1));
    assert(payloads(Stage::PathLen, b0) == payloads(at_path, b1));
    if b1.len() >= len {
        let b2 = b1.skip(len as int);
        assert(b1.take(len as int) =~= path);
        vstd::utf8::encode_utf8_valid_utf8(text);
        vstd::utf8::encode_utf8_decode_utf8(text);
        assert(unpacked(at_path, b1) == unpacked(at_meta, b2));
        assert(payloads(at_path, b1) == payloads(at_meta, b2));
        if b2.len() >= META_SIZE {
            let b3 = b2.skip(META_SIZE as int);
            assert(b2.take(META_SIZE as int) =~= meta_bytes(record));
            assert(unpacked(at_meta, b2) == unpacked(payload_stage(record), b3));
            assert(payloads(at_meta, b2) == payloads(payload_stage(record), b3));
        }
    }
    assert(file_views(files) + Seq::empty() =~= file_views(files));
}

/// A record whose compressed data cannot be decoded is a fault, after the files before it
/// have come out and whatever follows it.
pub proof fn undecodable_record_is_reported(
    records: Seq<FileRecord>,
    files: Seq<PackedFile>,
    record: FileRecord,
    rest: Seq<u8>,
)
    requires
        all_packed_well(records, files),
        path_fits(record),
        crate::codec::zstd_decoded(record.compressed@) is None,
    ensures
        unpacked(Stage::Magic, archive_bytes(records) + (record_bytes(record) + rest)) == (
            file_views(files),
            Some(Fault::Decompress),
        ),
{
    let data = record.compressed@ + rest;
    lemma_after_archive(records, files, record_bytes(record) + rest);
    lemma_meta_size(record);
    lemma_record_to_payload(record, rest);
    assert(data.take(record.compressed@.len() as int) =~= record.compressed@);
    assert(file_views(files) + Seq::empty() =~= file_views(files));
}

/// Bytes that do not begin with the magic are refused before anything comes out of them:
/// nothing is decompressed, so there is no other outcome.
pub proof fn foreign_bytes_are_refused(
    bytes: Seq<u8>,
    out: (Seq<(Seq<char>, Seq<u8>)>, Option<Fault>),
)
    requires
        !AGZ_MAGIC@.is_prefix_of(bytes),
        unpack_outcome(bytes, out),
    ensures
        out == (
            Seq::<(Seq<char>, Seq<u8>)>::empty(),
            Some(
                if bytes.len() < 4 {
                    Fault::UnexpectedEof
                } else {
                    Fault::InvalidMagic
                },
            ),
        ),
{
    if bytes.len() >= 4 {
        assert(bytes.take(4) =~= bytes.subrange(0, 4));
    }
}

/// Two records packed from equal bytes agree in all but the path, where `measure` and
/// `scale` give one result for one input.
pub proof fn names_play_no_part<M: Fn(&[usize], usize) -> u64, S: Fn(u64, u64) -> u64>(
    measure: M,
    scale: S,
    raw: Seq<u8>,
    first: (FileRecord, Seq<char>, crate::optimize::Readings),
    second: (FileRecord, Seq<char>, crate::optimize::Readings),
)
    requires
        crate::entropy::functional_measure(measure),
        crate::optimize::functional_scale(scale),
        crate::optimize::readings_taken(measure, scale, raw, first.2),
        crate::optimize::readings_taken(measure, scale, raw, second.2),
        packs(first.0, first.1, raw, first.2),
        packs(second.0, second.1, raw, second.2),
    ensures
        first.0.engine == second.0.engine,
        first.0.channels == second.0.channels,
        first.0.row_stride == second.0.row_stride,
        first.0.orig_size == second.0.orig_size,
        first.0.compressed@ == second.0.compressed@,
        meta_bytes(first.0) == meta_bytes(second.0),
{
    crate::optimize::equal_bytes_are_optimized_alike(measure, scale, raw, first.2, second.2);
}

/// Of an archive that was cut off, the files at its start still come out as they would
/// have come out of the whole.
pub proof fn truncation_keeps_first_files(stage: Stage, bytes: Seq<u8>, kept: int)
    requires
        0 <= kept <= bytes.len(),
    ensures
        unpacked(stage, bytes.take(kept)).0.is_prefix_of(unpacked(stage, bytes).0),
    decreases bytes.len(), stage.rank(),
{
    let n = stage.wanted() as int;
    if kept >= n {
        assert(bytes.take(kept).take(n) =~= bytes.take(n));
        if let Ok((next, file)) = stage.step(bytes.take(n)) {
            assert(bytes.take(kept).skip(n) =~= bytes.skip(n).take(kept - n));
            truncation_keeps_first_files(next, bytes.skip(n), kept - n);
        }
    }
}

/// An archive opens with the bytes 0x41, 0x47, 0x5a and 16, and its records follow.
pub proof fn magic_comes_first(bytes: Seq<u8>, records: Seq<FileRecord>)
    ensures
        ({
            let out = unpacked(Stage::Magic, bytes);
            let good = bytes[0] == 0x41 && bytes[1] == 0x47 && bytes[2] == 0x5a && bytes[3] == 16;
            &&& bytes.len() < 4 ==> out == (
                Seq::<(Seq<char>, Seq<u8>)>::empty(),
                Some(Fault::UnexpectedEof),
            )
            &&& bytes.len() >= 4 && !good ==> out == (
                Seq::<(Seq<char>, Seq<u8>)>::empty(),
                Some(Fault::InvalidMagic),
            )
            &&& bytes.len() < 4 || !good ==> payloads(Stage::Magic, bytes) == 0
            &&& bytes.len() >= 4 && good ==> {
                &&& out == unpacked(Stage::PathLen, bytes.skip(4))
                &&& payloads(Stage::Magic, bytes) == payloads(Stage::PathLen, bytes.skip(4))
                &&& forall|k: nat| #[trigger]
                    payload_at(Stage::Magic, bytes, k) == payload_at(
                        Stage::PathLen,
                        bytes.skip(4),
                        k,
                    )
            }
        }),
        archive_bytes(records) == seq![0x41u8, 0x47, 0x5a, 16] + records_bytes(records),
{
    if bytes.len() >= 4 {
        let chunk = bytes.take(4);
        if bytes[0] == 0x41 && bytes[1] == 0x47 && bytes[2] == 0x5a && bytes[3] == 16 {
            assert(chunk =~= AGZ_MAGIC@);
        } else {
            assert(AGZ_MAGIC@[0] == 0x41 && AGZ_MAGIC@[1] == 0x47 && AGZ_MAGIC@[2] == 0x5a
                && AGZ_MAGIC@[3] == 16);
            assert(chunk[0] == bytes[0] && chunk[1] == bytes[1] && chunk[2] == bytes[2] && chunk[3]
                == bytes[3]);
            assert(chunk != AGZ_MAGIC@);
        }
    }
    assert(AGZ_MAGIC@ =~= seq![0x41u8, 0x47, 0x5a, 16]);
}

/// The records of an archive stand in it one after the other, each whole, and nothing
/// stands between or behind them.
pub proof fn records_stand_side_by_side(records: Seq<FileRecord>, record: FileRecord)
    ensures
        records_bytes(Seq::empty()) == Seq::<u8>::empty(),
        records_bytes(records.push(record)) == records_bytes(records) + record_bytes(record),
    decreases records.len(),
{
    if records.len() == 0 {
        assert(records.push(record).skip(1) =~= Seq::<FileRecord>::empty());
        assert(records_bytes(records.push(record).skip(1)) == Seq::<u8>::empty());
        assert(records_bytes(records.push(record)) =~= records_bytes(records) + record_bytes(
            record,
        ));
    } else {
        records_stand_side_by_side(records.skip(1), record);
        assert(records.push(record).skip(1) =~= records.skip(1).push(record));
        assert(records_bytes(records.push(record)) =~= records_bytes(records) + record_bytes(
            record,
        ));
    }
}

/// Where the fields of a record stand when it is written. The length of the path keeps
/// two bytes, the number of channels and the row stride keep four; the path, both sizes
/// and the compressed data are kept whole.
pub proof fn record_is_written_field_by_field(record: FileRecord)
    ensures
        ({
            let b = record_bytes(record);
            let path = vstd::utf8::encode_utf8(record.rel_path@);
            let m = 2 + path.len() as int;
            &&& b.len() == m + 25 + record.compressed@.len()
            &&& b[0] + 0x100 * b[1] == path.len() as int % 0x1_0000
            &&& b.subrange(2, m) == path
            &&& b[m] == match record.engine {
                EngineType::ZstdOnly => 0u8,
                EngineType::Agz1D => 1,
                EngineType::Agz2D => 2,
            }
            &&& crate::little_endian::le_value(b.subrange(m + 1, m + 5)) == record.channels as int
                % 0x1_0000_0000
            &&& crate::little_endian::le_value(b.subrange(m + 5, m + 9)) == record.row_stride as int
                % 0x1_0000_0000
            &&& crate::little_endian::le_value(b.subrange(m + 9, m + 17)) == record.orig_size
            &&& crate::little_endian::le_value(b.subrange(m + 17, m + 25))
                == record.compressed@.len()
            &&& b.skip(m + 25) == record.compressed@
        }),
{
    let b = record_bytes(record);
    let path = vstd::utf8::encode_utf8(record.rel_path@);
    let m = 2 + path.len() as int;
    let size = record.compressed.len();
    lemma_meta_size(record);
    crate::little_endian::field_ranges();
    crate::little_endian::high_bytes_are_dropped(path.len(), 2);
    crate::little_endian::high_bytes_are_dropped(record.channels as nat, 4);
    crate::little_endian::high_bytes_are_dropped(record.row_stride as nat, 4);
    crate::little_endian::high_bytes_are_dropped(record.orig_size as nat, 8);
    crate::little_endian::high_bytes_are_dropped(size as nat, 8);
    let head = crate::little_endian::le_bytes(path.len(), 2);
    crate::little_endian::value_in_numbers(head);
    assert(b[0] == head[0] && b[1] == head[1]);
    assert(b.subrange(2, m) =~= path);
    assert(b.subrange(m + 1, m + 5) =~= crate::little_endian::le_bytes(record.channels as nat, 4));
    assert(b.subrange(m + 5, m + 9) =~= crate::little_endian::le_bytes(
        record.row_stride as nat,
        4,
    ));
    assert(b.subrange(m + 9, m + 17) =~= crate::little_endian::le_bytes(
        record.orig_size as nat,
        8,
    ));
    assert(b.subrange(m + 17, m + 25) =~= crate::little_endian::le_bytes(size as nat, 8));
    assert(b.skip(m + 25) =~= record.compressed@);
}

/// A packed record holds the path, the size of the file, and what optimising the file
/// gives, its bytes compressed at level 21.
pub proof fn packed_record_holds_optimized_file(
    record: FileRecord,
    path: Seq<char>,
    raw: Seq<u8>,
    r: crate::optimize::Readings,
)
    requires
        packs(record, path, raw, r),
    ensures
        record.rel_path@ == path,
        record.orig_size == raw.len(),
        (record.engine, record.channels as int, record.row_stride as int) == (
            crate::optimize::optimized(raw, r).0,
            crate::optimize::optimized(raw, r).1,
            crate::optimize::optimized(raw, r).2,
        ),
        record.compressed@ == crate::codec::zstd_encoded(crate::optimize::optimized(raw, r).3, 21),
        crate::codec::zstd_decoded(record.compressed@) == Some(
            crate::optimize::optimized(raw, r).3,
        ),
{
}

/// Where the fields of a record are read from.
pub proof fn fields_are_read_in_place(s: Seq<u8>)
    requires
        s.len() == 25,
    ensures
        parsed_meta(s).engine_code == s[0],
        parsed_meta(s).channels == (s[1] + 0x100 * s[2] + 0x1_0000 * s[3] + 0x100_0000
            * s[4]) as usize,
        parsed_meta(s).row_stride == (s[5] + 0x100 * s[6] + 0x1_0000 * s[7] + 0x100_0000
            * s[8]) as usize,
        parsed_meta(s).orig_size == (s[9] + 0x100 * s[10] + 0x1_0000 * s[11] + 0x100_0000 * s[12]
            + 0x1_0000_0000 * s[13] + 0x100_0000_0000 * s[14] + 0x1_0000_0000_0000 * s[15]
            + 0x100_0000_0000_0000 * s[16]) as usize,
        parsed_meta(s).comp_size == (s[17] + 0x100 * s[18] + 0x1_0000 * s[19] + 0x100_0000 * s[20]
            + 0x1_0000_0000 * s[21] + 0x100_0000_0000 * s[22] + 0x1_0000_0000_0000 * s[23]
            + 0x100_0000_0000_0000 * s[24]) as usize,
{
    crate::little_endian::value_in_numbers(s.subrange(1, 5));
    crate::little_endian::value_in_numbers(s.subrange(5, 9));
    crate::little_endian::value_in_numbers(s.subrange(9, 17));
    crate::little_endian::value_in_numbers(s.subrange(17, 25));
}

/// Reading arbitrary bytes as a record comes to its compressed data, if there are enough.
proof fn lemma_fields_to_payload(bytes: Seq<u8>)
    requires
        bytes.len() >= 2,
    ensures
        ({
            let m = 2 + bytes[0] + 0x100 * bytes[1];
            let out = unpacked(Stage::PathLen, bytes);
            let count = payloads(Stage::PathLen, bytes);
            let eof = (Seq::<(Seq<char>, Seq<u8>)>::empty(), Some(Fault::UnexpectedEof));
            &&& bytes.len() < m + 25 ==> out == eof && count == 0
            &&& bytes.len() >= m + 25 ==> {
                let stage = Stage::Payload {
                    path: crate::codec::text_of(bytes.subrange(2, m)),
                    meta: parsed_meta(bytes.subrange(m, m + 25)),
                };
                let b3 = bytes.skip(m + 25);
                &&& out == unpacked(stage, b3)
                &&& count == payloads(stage, b3)
                &&& forall|k: nat| #[trigger]
                    payload_at(Stage::PathLen, bytes, k) == payload_at(stage, b3, k)
                &&& stage.wanted() == crate::little_endian::le_value(
                    bytes.subrange(m + 17, m + 25),
                ) as usize
                &&& b3.len() < stage.wanted() ==> out == eof && count == 0
            }
        }),
{
    let head = bytes.take(2);
    crate::little_endian::value_in_numbers(head);
    let len = bytes[0] + 0x100 * bytes[1];
    let m = 2 + len;
    let at_path = Stage::Path { len: len as usize };
    let b1 = bytes.skip(2);
    assert(Stage::PathLen.step(head) == Ok::<(Stage, Option<(Seq<char>, Seq<u8>)>), Fault>(
        (at_path, None),
    ));
    assert(unpacked(Stage::PathLen, bytes) == unpacked(at_path, b1));
    assert(payloads(Stage::PathLen, bytes) == payloads(at_path, b1));
    if bytes.len() >= m {
        let text = crate::codec::text_of(bytes.subrange(2, m));
        let at_meta = Stage::Meta { path: text };
        let b2 = bytes.skip(m);
        assert(b1.take(len) =~= bytes.subrange(2, m));
        assert(b1.skip(len) =~= b2);
        assert(unpacked(at_path, b1) == unpacked(at_meta, b2));
        assert(payloads(at_path, b1) == payloads(at_meta, b2));
        if bytes.len() >= m + 25 {
            let fields = bytes.subrange(m, m + 25);
            let at_payload = Stage::Payload { path: text, meta: parsed_meta(fields) };
            let b3 = bytes.skip(m + 25);
            assert(b2.take(25) =~= fields);
            assert(b2.skip(25) =~= b3);
            assert(fields.subrange(17, 25) =~= bytes.subrange(m + 17, m + 25));
            assert(unpacked(at_meta, b2) == unpacked(at_payload, b3));
            assert(payloads(at_meta, b2) == payloads(at_payload, b3));
            assert forall|k: nat| #[trigger]
                payload_at(Stage::PathLen, bytes, k) == payload_at(at_payload, b3, k) by {
                assert(payload_at(Stage::PathLen, bytes, k) == payload_at(at_path, b1, k));
                assert(payload_at(at_path, b1, k) == payload_at(at_meta, b2, k));
                assert(payload_at(at_meta, b2, k) == payload_at(at_payload, b3, k));
            }
        }
    }
}

/// What becomes of the compressed data of a record and of what follows it.
proof fn lemma_payload_step(path: Seq<char>, meta: RecordMeta, bytes: Seq<u8>)
    requires
        bytes.len() >= meta.comp_size,
    ensures
        ({
            let stage = Stage::Payload { path, meta };
            let size = meta.comp_size as int;
            let rest = bytes.skip(size);
            let out = unpacked(stage, bytes);
            &&& payload_at(stage, bytes, 0) == bytes.take(size)
            &&& match decoded_payload(meta, bytes.take(size)) {
                Err(fault) => {
                    &&& out == (Seq::<(Seq<char>, Seq<u8>)>::empty(), Some(fault))
                    &&& payloads(stage, bytes) == 1
                },
                Ok(data) => {
                    &&& out == (
                        seq![(path, data)] + unpacked(Stage::PathLen, rest).0,
                        unpacked(Stage::PathLen, rest).1,
                    )
                    &&& payloads(stage, bytes) == 1 + payloads(Stage::PathLen, rest)
                    &&& forall|k: nat|
                        k > 0 ==> #[trigger] payload_at(stage, bytes, k) == payload_at(
                            Stage::PathLen,
                            rest,
                            (k - 1) as nat,
                        )
                },
            }
        }),
{
}

/// How a record is read from arbitrary bytes. Fewer than two bytes are the end of the
/// archive, and fewer than the record takes an unexpected one. All of the compressed data
/// is decoded; where that fails, where the engine byte is above 2, or where the data is
/// too short for what the other fields call for, that is the fault. Else the record is a
/// file, and what follows the record is read in the same way.
pub proof fn record_is_read_field_by_field(bytes: Seq<u8>)
    ensures
        ({
            let out = unpacked(Stage::PathLen, bytes);
            let count = payloads(Stage::PathLen, bytes);
            let none = Seq::<(Seq<char>, Seq<u8>)>::empty();
            let m = 2 + bytes[0] + 0x100 * bytes[1];
            let size = crate::little_endian::le_value(bytes.subrange(m + 17, m + 25)) as usize;
            let cut = 2 <= bytes.len() < m + 25 || m + 25 <= bytes.len() < m + 25 + size;
            &&& bytes.len() < 2 ==> out == (none, None::<Fault>) && count == 0
            &&& cut ==> out == (none, Some(Fault::UnexpectedEof)) && count == 0
            &&& bytes.len() >= 2 && !cut ==> {
                let path = bytes.subrange(2, m);
                let text = if vstd::utf8::valid_utf8(path) {
                    vstd::utf8::decode_utf8(path)
                } else {
                    crate::codec::utf8_lossy(path)
                };
                let code = bytes[m];
                let channels = crate::little_endian::le_value(
                    bytes.subrange(m + 1, m + 5),
                ) as usize;
                let row_stride = crate::little_endian::le_value(
                    bytes.subrange(m + 5, m + 9),
                ) as usize;
                let orig_size = crate::little_endian::le_value(
                    bytes.subrange(m + 9, m + 17),
                ) as usize;
                let compressed = bytes.subrange(m + 25, m + 25 + size);
                let rest = bytes.skip(m + 25 + size);
                let content = crate::codec::zstd_decoded(compressed);
                let data = content->0;
                let enough = {
                    ||| code == 0
                    ||| code == 1 && channels > 0 && data.len() >= orig_size + channels
                    ||| code == 1 && channels == 0 && orig_size <= isize::MAX
                    ||| code == 2 && data.len() >= orig_size && (orig_size == 0 || row_stride > 0)
                };
                let file = if code == 0 {
                    data
                } else if code == 1 {
                    crate::channels::merged_channels(data, channels as int, orig_size as nat)
                } else {
                    crate::predict::restored_2d(
                        data,
                        channels as int,
                        row_stride as int,
                        orig_size as nat,
                    )
                };
                &&& payload_at(Stage::PathLen, bytes, 0) == compressed
                &&& content is None ==> out == (none, Some(Fault::Decompress)) && count == 1
                &&& content is Some && code > 2 ==> out == (none, Some(Fault::UnknownEngine))
                    && count == 1
                &&& content is Some && code <= 2 && !enough ==> out == (
                    none,
                    Some(Fault::Inconsistent),
                ) && count == 1
                &&& content is Some && enough ==> {
                    &&& out == (
                        seq![(text, file)] + unpacked(Stage::PathLen, rest).0,
                        unpacked(Stage::PathLen, rest).1,
                    )
                    &&& count == 1 + payloads(Stage::PathLen, rest)
                    &&& forall|k: nat|
                        k > 0 ==> #[trigger] payload_at(Stage::PathLen, bytes, k) == payload_at(
                            Stage::PathLen,
                            rest,
                            (k - 1) as nat,
                        )
                }
            }
        }),
{
    if bytes.len() >= 2 {
        let m = 2 + bytes[0] + 0x100 * bytes[1];
        lemma_fields_to_payload(bytes);
        if bytes.len() >= m + 25 {
            let path = crate::codec::text_of(bytes.subrange(2, m));
            let meta = parsed_meta(bytes.subrange(m, m + 25));
            let size = meta.comp_size as int;
            if bytes.len() >= m + 25 + size {
                let b3 = bytes.skip(m + 25);
                assert(b3.take(size) =~= bytes.subrange(m + 25, m + 25 + size));
                assert(b3.skip(size) =~= bytes.skip(m + 25 + size));
                let fields = bytes.subrange(m, m + 25);
                assert(fields.subrange(1, 5) =~= bytes.subrange(m + 1, m + 5));
                assert(fields.subrange(5, 9) =~= bytes.subrange(m + 5, m + 9));
                assert(fields.subrange(9, 17) =~= bytes.subrange(m + 9, m + 17));
                lemma_payload_step(path, meta, b3);
            }
        }
    }
}

/// Unpacking gives all that the archive holds, up to the first fault, unless the decoder
/// refuses a record; and then what it refused is all of the compressed data of the first
/// record whose file has not come out.
pub proof fn nothing_else_comes_out(
    archive: Seq<u8>,
    out: (Seq<(Seq<char>, Seq<u8>)>, Option<Fault>),
)
    requires
        unpack_outcome(archive, out),
    ensures
        out.0 == unpacked(Stage::Magic, archive).0.take(out.0.len() as int),
        out.0.len() <= unpacked(Stage::Magic, archive).0.len(),
        out != unpacked(Stage::Magic, archive) ==> {
            &&& out.1 == Some(Fault::Decompress)
            &&& out.0.len() < payloads(Stage::Magic, archive)
            &&& exists|error: std::io::Error| #[trigger]
                crate::codec::decoding_gives(
                    payload_at(Stage::Magic, archive, out.0.len()),
                    Err(error),
                )
        },
{
    let all = unpacked(Stage::Magic, archive).0;
    assert(out.0 =~= all.take(out.0.len() as int));
}

/// The models of files, errors and outcomes show all that there is to them.
pub proof fn models_show_every_part(file: ExtractedFile, error: ArchiveError, out: Unpacked, i: int)
    ensures
        file@ == (file.path@, file.data@),
        error is InvalidMagic <==> error@ is InvalidMagic,
        error is UnexpectedEof <==> error@ is UnexpectedEof,
        error is Decompress <==> error@ is Decompress,
        error is UnknownEngine <==> error@ is UnknownEngine,
        error is Inconsistent <==> error@ is Inconsistent,
        out@.0.len() == out.files@.len(),
        0 <= i < out.files@.len() ==> out@.0[i] == (out.files@[i].path@, out.files@[i].data@),
        out.error is None <==> out@.1 is None,
        out.error matches Some(fault) ==> out@.1 == Some(fault@),
        file_view(Some(file)) == Some((file.path@, file.data@)),
        file_view(None) is None,
        bytes_result(Ok(file.data)) == Ok::<Seq<u8>, Fault>(file.data@),
        bytes_result(Err(error)) == Err::<Seq<u8>, Fault>(error@),
        progress_result(Err(error)) == Err::<(Stage, Option<(Seq<char>, Seq<u8>)>), Fault>(error@),
{
}

/// The model of a reader shows its state and what the state holds, and so does the model
/// of a step.
pub proof fn states_show_every_part(state: Unpacker, progress: Progress)
    ensures
        state is Magic <==> state@ is Magic,
        state is PathLen <==> state@ is PathLen,
        state matches Unpacker::Path { len } ==> state@ == (Stage::Path { len }),
        state matches Unpacker::Meta { path } ==> state@ == (Stage::Meta { path: path@ }),
        state matches Unpacker::Payload { path, meta } ==> state@ == (Stage::Payload {
            path: path@,
            meta,
        }),
        progress_result(Ok(progress)) == Ok::<(Stage, Option<(Seq<char>, Seq<u8>)>), Fault>(
            (progress.next@, file_view(progress.extracted)),
        ),
{
}

/// What becomes of the data of a record, whatever its fields. Bytes that cannot be decoded
/// are a fault, and so is an engine byte above 2. An engine byte 0 leaves the data as it
/// is; 1 merges its channels where it has a byte for each of the file and each channel;
/// 2 restores its rows where it has a byte for each of the file.
pub proof fn data_becomes_a_file(meta: RecordMeta, compressed: Seq<u8>, data: Seq<u8>)
    ensures
        crate::codec::zstd_decoded(compressed) is None ==> decoded_payload(meta, compressed)
            == Err::<Seq<u8>, Fault>(Fault::Decompress),
        crate::codec::zstd_decoded(compressed) == Some(data) ==> decoded_payload(meta, compressed)
            == restored_payload(meta, data),
        meta.engine_code > 2 ==> restored_payload(meta, data) == Err::<Seq<u8>, Fault>(
            Fault::UnknownEngine,
        ),
        meta.engine_code == 0 ==> restored_payload(meta, data) == Ok::<Seq<u8>, Fault>(data),
        meta.engine_code == 1 && (if meta.channels > 0 {
            data.len() >= meta.orig_size + meta.channels
        } else {
            meta.orig_size <= isize::MAX
        }) ==> restored_payload(meta, data) == Ok::<Seq<u8>, Fault>(
            crate::channels::merged_channels(data, meta.channels as int, meta.orig_size as nat),
        ),
        meta.engine_code == 1 && (if meta.channels > 0 {
            data.len() < meta.orig_size + meta.channels
        } else {
            meta.orig_size > isize::MAX
        }) ==> restored_payload(meta, data) == Err::<Seq<u8>, Fault>(Fault::Inconsistent),
        meta.engine_code == 2 && data.len() >= meta.orig_size && (meta.orig_size == 0
            || meta.row_stride > 0) ==> restored_payload(meta, data) == Ok::<Seq<u8>, Fault>(
            crate::predict::restored_2d(
                data,
                meta.channels as int,
                meta.row_stride as int,
                meta.orig_size as nat,
            ),
        ),
        meta.engine_code == 2 && (data.len() < meta.orig_size || (meta.orig_size > 0
            && meta.row_stride == 0)) ==> restored_payload(meta, data) == Err::<Seq<u8>, Fault>(
            Fault::Inconsistent,
        ),
{
}

/// How much each state asks for, what an end there means, and where its bytes lead.
pub proof fn each_state_leads_to_the_next(stage: Stage, chunk: Seq<u8>)
    requires
        chunk.len() == stage.wanted(),
    ensures
        stage is Magic ==> stage.wanted() == 4,
        stage is PathLen ==> stage.wanted() == 2,
        stage matches Stage::Path { len } ==> stage.wanted() == len,
        stage is Meta ==> stage.wanted() == 25,
        stage matches Stage::Payload { meta, .. } ==> stage.wanted() == meta.comp_size,
        stage is PathLen <==> stage.end() is None,
        stage !is PathLen ==> stage.end() == Some(Fault::UnexpectedEof),
        stage is Magic ==> stage.step(chunk) == if chunk[0] == 0x41 && chunk[1] == 0x47 && chunk[2]
            == 0x5a && chunk[3] == 16 {
            Ok((Stage::PathLen, None::<(Seq<char>, Seq<u8>)>))
        } else {
            Err(Fault::InvalidMagic)
        },
        stage is PathLen ==> stage.step(chunk) == Ok::<
            (Stage, Option<(Seq<char>, Seq<u8>)>),
            Fault,
        >((Stage::Path { len: (chunk[0] + 0x100 * chunk[1]) as usize }, None)),
        stage is Path && vstd::utf8::valid_utf8(chunk) ==> stage.step(chunk) == Ok::<
            (Stage, Option<(Seq<char>, Seq<u8>)>),
            Fault,
        >((Stage::Meta { path: vstd::utf8::decode_utf8(chunk) }, None)),
        stage is Path && !vstd::utf8::valid_utf8(chunk) ==> stage.step(chunk) == Ok::<
            (Stage, Option<(Seq<char>, Seq<u8>)>),
            Fault,
        >((Stage::Meta { path: crate::codec::utf8_lossy(chunk) }, None)),
        stage matches Stage::Meta { path } ==> stage.step(chunk) == Ok::<
            (Stage, Option<(Seq<char>, Seq<u8>)>),
            Fault,
        >((Stage::Payload { path, meta: parsed_meta(chunk) }, None)),
        stage matches Stage::Payload { path, meta } ==> match decoded_payload(meta, chunk) {
            Ok(data) => stage.step(chunk) == Ok::<(Stage, Option<(Seq<char>, Seq<u8>)>), Fault>(
                (Stage::PathLen, Some((path, data))),
            ),
            Err(fault) => stage.step(chunk) == Err::<
                (Stage, Option<(Seq<char>, Seq<u8>)>),
                Fault,
            >(fault),
        },
{
    crate::little_endian::value_in_numbers(chunk);
    if stage is Magic {
        assert(AGZ_MAGIC@ =~= seq![0x41u8, 0x47, 0x5a, 16]);
        if chunk[0] == 0x41 && chunk[1] == 0x47 && chunk[2] == 0x5a && chunk[3] == 16 {
            assert(chunk =~= AGZ_MAGIC@);
        }
    }
}

} // verus!
