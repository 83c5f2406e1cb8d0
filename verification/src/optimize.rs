//! The choice of an engine for a file, the transform it applies, and the way back.

use crate::channels::{decode_channels, encode_channels};
use crate::entropy::{
    calculate_shannon_entropy, total_measure, READING_GAIN, READING_INCOMPRESSIBLE,
};
use crate::layout::find_layout;
use crate::predict::{process_2d_forward, process_2d_inverse};
use vstd::prelude::*;
use vstd::slice::slice_to_vec;

verus! {

/// Files shorter than this are left as they are.
pub const SMALL_FILE: usize = 4096;

/// How the bytes of a file are arranged before they are compressed.
#[derive(Debug, PartialEq, Eq, Clone, Copy, Structural)]
pub enum EngineType {
    /// As they are.
    ZstdOnly,
    /// As residuals of interleaved channels.
    Agz1D,
    /// As residuals of rows of pixels.
    Agz2D,
}

impl EngineType {
    /// The byte that stands for the engine in an archive.
    pub open spec fn spec_code(self) -> u8 {
        match self {
            EngineType::ZstdOnly => 0,
            EngineType::Agz1D => 1,
            EngineType::Agz2D => 2,
        }
    }

    /// The engine that a byte stands for.
    pub open spec fn spec_from_code(code: u8) -> Option<EngineType> {
        if code == 0 {
            Some(EngineType::ZstdOnly)
        } else if code == 1 {
            Some(EngineType::Agz1D)
        } else if code == 2 {
            Some(EngineType::Agz2D)
        } else {
            None
        }
    }

    /// The byte that stands for the engine in an archive.
    pub fn code(self) -> (code: u8)
        ensures
            code == self.spec_code(),
    {
        match self {
            EngineType::ZstdOnly => 0,
            EngineType::Agz1D => 1,
            EngineType::Agz2D => 2,
        }
    }

    /// The engine that a byte stands for, if there is one.
    pub fn from_code(code: u8) -> (engine: Option<EngineType>)
        ensures
            engine == EngineType::spec_from_code(code),
    {
        match code {
            0 => Some(EngineType::ZstdOnly),
            1 => Some(EngineType::Agz1D),
            2 => Some(EngineType::Agz2D),
            _ => None,
        }
    }
}

/// The entropy readings that decide about a file: of the file itself, of each channel
/// under each model, of the one- and the two-dimensional transform, and the reading that
/// a transform has to stay below.
pub struct Readings {
    pub raw: u64,
    pub modes: Seq<Seq<u64>>,
    pub one_d: u64,
    pub two_d: u64,
    pub threshold: u64,
}

/// The file is left as it is without a look at its layout.
pub open spec fn bypassed(raw: Seq<u8>, r: Readings) -> bool {
    raw.len() < SMALL_FILE || r.raw > READING_INCOMPRESSIBLE
}

/// The one-dimensional transform of `raw`.
pub open spec fn transformed_1d(raw: Seq<u8>, modes: Seq<Seq<u64>>) -> Seq<u8> {
    let channels = crate::layout::layout_of(raw).0;
    crate::channels::joined_channels(raw, channels, modes, channels as nat)
}

/// The two-dimensional transform of `raw`.
pub open spec fn transformed_2d(raw: Seq<u8>) -> Seq<u8> {
    let layout = crate::layout::layout_of(raw);
    crate::predict::residuals_2d(raw, layout.0, layout.2)
}

/// The engine that the readings of the transforms decide for. `two_d` is `None` where the
/// two-dimensional transform was not tried.
pub open spec fn picked_engine(one_d: u64, two_d: Option<u64>, threshold: u64) -> EngineType {
    if two_d is Some && two_d->0 < one_d && two_d->0 < threshold {
        EngineType::Agz2D
    } else if one_d < threshold {
        EngineType::Agz1D
    } else {
        EngineType::ZstdOnly
    }
}

/// What becomes of `raw` under the readings `r`: the engine, the number of channels, the
/// row stride and the transformed bytes.
pub open spec fn optimized(raw: Seq<u8>, r: Readings) -> (EngineType, int, int, Seq<u8>) {
    if bypassed(raw, r) {
        (EngineType::ZstdOnly, 1, 1, raw)
    } else {
        let layout = crate::layout::layout_of(raw);
        let two_d = if crate::layout::has_rows(layout) {
            Some(r.two_d)
        } else {
            None
        };
        match picked_engine(r.one_d, two_d, r.threshold) {
            EngineType::Agz2D => (EngineType::Agz2D, layout.0, layout.2, transformed_2d(raw)),
            EngineType::Agz1D => (
                EngineType::Agz1D,
                layout.0,
                layout.0,
                transformed_1d(raw, r.modes),
            ),
            EngineType::ZstdOnly => (EngineType::ZstdOnly, 1, 1, raw),
        }
    }
}

/// `r` holds what `measure` and `scale` may return for `raw`, as far as they are asked.
pub open spec fn readings_taken<M: Fn(&[usize], usize) -> u64, S: Fn(u64, u64) -> u64>(
    measure: M,
    scale: S,
    raw: Seq<u8>,
    r: Readings,
) -> bool {
    let layout = crate::layout::layout_of(raw);
    &&& raw.len() >= SMALL_FILE ==> crate::entropy::reads(measure, raw, r.raw)
    &&& !bypassed(raw, r) ==> {
        &&& crate::channels::channel_readings(measure, raw, layout.0, r.modes)
        &&& crate::entropy::reads(measure, transformed_1d(raw, r.modes), r.one_d)
        &&& crate::layout::has_rows(layout) ==> crate::entropy::reads(
            measure,
            transformed_2d(raw),
            r.two_d,
        )
        &&& call_ensures(scale, (r.raw, READING_GAIN), r.threshold)
    }
}

/// `scale` can be applied to any two readings.
pub open spec fn total_scale<S: Fn(u64, u64) -> u64>(scale: S) -> bool {
    forall|a: u64, b: u64| #[trigger] call_requires(scale, (a, b))
}

/// Picks the engine by the readings of the transforms: the two-dimensional one where it
/// was tried, reads less than the one-dimensional one and stays below the threshold, else
/// the one-dimensional one where it stays below the threshold, else none.
pub fn pick_engine(one_d: u64, two_d: Option<u64>, threshold: u64) -> (engine: EngineType)
    ensures
        engine == picked_engine(one_d, two_d, threshold),
        engine == EngineType::Agz2D <==> (two_d matches Some(reading) && reading < one_d && reading
            < threshold),
        engine == EngineType::ZstdOnly <==> one_d >= threshold && !(two_d matches Some(reading)
            && reading < one_d && reading < threshold),
{
    if let Some(reading) = two_d {
        if reading < one_d && reading < threshold {
            return EngineType::Agz2D;
        }
    }
    if one_d < threshold {
        EngineType::Agz1D
    } else {
        EngineType::ZstdOnly
    }
}

/// Analyses `raw` and transforms it with the engine that lowers its entropy most. Small
/// files and files of high entropy are left as they are, and so is a file of which no
/// transform lowers the entropy by one percent.
///
/// `measure` gives the entropy of a byte histogram and `scale` multiplies two numbers,
/// both as bit patterns (see the `entropy` module). Returns the engine, the number of
/// channels, the row stride and the transformed bytes.
pub fn optimize_file<M: Fn(&[usize], usize) -> u64, S: Fn(u64, u64) -> u64>(
    raw: &[u8],
    measure: &M,
    scale: &S,
) -> (out: (EngineType, usize, usize, Vec<u8>))
    requires
        total_measure(*measure),
        total_scale(*scale),
    ensures
        exists|r: Readings| #[trigger]
            readings_taken(*measure, *scale, raw@, r) && (
                out.0,
                out.1 as int,
                out.2 as int,
                out.3@,
            ) == optimized(raw@, r),
{
    let ghost mut r = Readings {
        raw: 0,
        modes: Seq::empty(),
        one_d: 0,
        two_d: 0,
        threshold: 0,
    };
    if raw.len() < SMALL_FILE {
        assert(readings_taken(*measure, *scale, raw@, r));
        return (EngineType::ZstdOnly, 1, 1, slice_to_vec(raw));
    }
    let raw_reading: u64 = calculate_shannon_entropy(raw, measure);
    proof {
        r = Readings { raw: raw_reading, ..r };
    }
    if raw_reading > READING_INCOMPRESSIBLE {
        assert(readings_taken(*measure, *scale, raw@, r));
        return (EngineType::ZstdOnly, 1, 1, slice_to_vec(raw));
    }
    let layout = find_layout(raw);
    proof {
        crate::layout::layout_is_aligned(raw@);
    }
    let bytes_1d = encode_channels(raw, layout.channels, measure);
    let one_d: u64 = calculate_shannon_entropy(bytes_1d.as_slice(), measure);
    proof {
        let modes = choose|modes: Seq<Seq<u64>>| #[trigger]
            crate::channels::channel_readings(*measure, raw@, layout.channels as int, modes)
                && bytes_1d@ == crate::channels::joined_channels(
                raw@,
                layout.channels as int,
                modes,
                layout.channels as nat,
            );
        r = Readings { modes, one_d, ..r };
    }
    let mut bytes_2d: Vec<u8> = Vec::new();
    let mut two_d: Option<u64> = None;
    if layout.has_rows() {
        bytes_2d = process_2d_forward(raw, layout.channels, layout.row_stride);
        let reading: u64 = calculate_shannon_entropy(bytes_2d.as_slice(), measure);
        two_d = Some(reading);
        proof {
            r = Readings { two_d: reading, ..r };
        }
    }
    let threshold: u64 = scale(raw_reading, READING_GAIN);
    proof {
        r = Readings { threshold, ..r };
        assert(readings_taken(*measure, *scale, raw@, r));
    }
    match pick_engine(one_d, two_d, threshold) {
        EngineType::Agz2D => (EngineType::Agz2D, layout.channels, layout.row_stride, bytes_2d),
        EngineType::Agz1D => (EngineType::Agz1D, layout.channels, layout.channels, bytes_1d),
        EngineType::ZstdOnly => (EngineType::ZstdOnly, 1, 1, slice_to_vec(raw)),
    }
}

/// The bytes of the file that `transformed` stands for.
pub open spec fn restored(
    engine: EngineType,
    channels: int,
    row_stride: int,
    orig_size: nat,
    transformed: Seq<u8>,
) -> Seq<u8> {
    match engine {
        EngineType::ZstdOnly => transformed,
        EngineType::Agz1D => crate::channels::merged_channels(transformed, channels, orig_size),
        EngineType::Agz2D => crate::predict::restored_2d(
            transformed,
            channels,
            row_stride,
            orig_size,
        ),
    }
}

/// `transformed` holds what the engine needs for a file of `orig_size` bytes.
pub open spec fn restorable(
    engine: EngineType,
    channels: int,
    row_stride: int,
    orig_size: int,
    transformed: Seq<u8>,
) -> bool {
    match engine {
        EngineType::ZstdOnly => true,
        EngineType::Agz1D => crate::channels::holds_channels(transformed, channels, orig_size),
        EngineType::Agz2D => {
            &&& transformed.len() >= orig_size
            &&& orig_size > 0 ==> row_stride > 0
        },
    }
}

/// Whether `transformed` holds what the engine needs.
pub fn is_restorable(
    engine: EngineType,
    channels: usize,
    row_stride: usize,
    orig_size: usize,
    transformed: &[u8],
) -> (yes: bool)
    ensures
        yes == restorable(
            engine,
            channels as int,
            row_stride as int,
            orig_size as int,
            transformed@,
        ),
        engine == EngineType::ZstdOnly ==> yes,
        engine == EngineType::Agz1D && channels > 0 ==> (yes <==> transformed@.len() >= orig_size
            + channels),
        engine == EngineType::Agz1D && channels == 0 ==> (yes <==> orig_size <= isize::MAX),
        engine == EngineType::Agz2D ==> (yes <==> transformed@.len() >= orig_size && (orig_size == 0
            || row_stride > 0)),
{
    match engine {
        EngineType::ZstdOnly => true,
        EngineType::Agz1D => if channels > 0 {
            transformed.len() >= orig_size && transformed.len() - orig_size >= channels
        } else {
            orig_size <= isize::MAX as usize
        },
        EngineType::Agz2D => transformed.len() >= orig_size && (orig_size == 0 || row_stride > 0),
    }
}

/// Undoes the transform of a file of `orig_size` bytes.
pub fn restore_file(
    engine: EngineType,
    channels: usize,
    row_stride: usize,
    orig_size: usize,
    transformed: Vec<u8>,
) -> (out: Vec<u8>)
    requires
        restorable(
            engine,
            channels as int,
            row_stride as int,
            orig_size as int,
            transformed@,
        ),
    ensures
        out@ == restored(
            engine,
            channels as int,
            row_stride as int,
            orig_size as nat,
            transformed@,
        ),
{
    match engine {
        EngineType::ZstdOnly => transformed,
        EngineType::Agz1D => decode_channels(transformed.as_slice(), channels, orig_size),
        EngineType::Agz2D => process_2d_inverse(
            transformed.as_slice(),
            channels,
            row_stride,
            orig_size,
        ),
    }
}

/// Whatever the entropy readings decide, what becomes of a file can be undone, and
/// undoing it gives the file back.
pub proof fn restoring_undoes_optimizing(raw: Seq<u8>, r: Readings)
    ensures
        ({
            let (engine, channels, row_stride, transformed) = optimized(raw, r);
            &&& restorable(engine, channels, row_stride, raw.len() as int, transformed)
            &&& restored(engine, channels, row_stride, raw.len(), transformed) == raw
        }),
{
    let layout = crate::layout::layout_of(raw);
    crate::layout::layout_is_aligned(raw);
    crate::channels::merging_undoes_joining(raw, layout.0, r.modes);
    crate::predict::decoding_2d_undoes_encoding(raw, layout.0, layout.2);
}

/// Whatever the entropy readings decide, the number of channels and the row stride of a
/// file fit the fields of an archive.
pub proof fn optimized_layout_is_small(raw: Seq<u8>, r: Readings)
    ensures
        1 <= optimized(raw, r).1 <= crate::layout::CHANNEL_LIMIT,
        1 <= optimized(raw, r).2 <= crate::layout::SAMPLE_LIMIT,
{
    crate::layout::layout_is_aligned(raw);
}

/// A transform is kept only if its reading is below the threshold, and the reading of a
/// two-dimensional transform also below that of the one-dimensional one. A small file or
/// one of high entropy is left as it is.
pub proof fn kept_transform_lowers_reading(raw: Seq<u8>, r: Readings)
    ensures
        optimized(raw, r).0 == EngineType::Agz1D ==> r.one_d < r.threshold,
        optimized(raw, r).0 == EngineType::Agz2D ==> r.two_d < r.threshold && r.two_d < r.one_d,
        optimized(raw, r).0 == EngineType::ZstdOnly ==> optimized(raw, r).3 == raw,
        raw.len() < SMALL_FILE ==> optimized(raw, r).0 == EngineType::ZstdOnly,
        r.raw > READING_INCOMPRESSIBLE ==> optimized(raw, r).0 == EngineType::ZstdOnly,
{
}

/// Every engine is recognised by its byte, and every byte that names an engine is the byte
/// of that engine.
pub proof fn engine_bytes_are_unambiguous(engine: EngineType, code: u8)
    ensures
        EngineType::spec_from_code(engine.spec_code()) == Some(engine),
        EngineType::spec_from_code(code) == Some(engine) ==> code == engine.spec_code(),
        EngineType::spec_from_code(code) is Some <==> code <= 2,
        engine.spec_code() == 0 <==> engine == EngineType::ZstdOnly,
        engine.spec_code() == 1 <==> engine == EngineType::Agz1D,
        engine.spec_code() == 2 <==> engine == EngineType::Agz2D,
{
}

/// `scale` gives one result for one pair of readings.
pub open spec fn functional_scale<S: Fn(u64, u64) -> u64>(scale: S) -> bool {
    forall|a: u64, b: u64, x: u64, y: u64|
        #[trigger] call_ensures(scale, (a, b), x) && #[trigger] call_ensures(scale, (a, b), y)
            ==> x == y
}

/// What becomes of a file depends on its bytes alone, where `measure` and `scale` give one
/// result for one input.
pub proof fn equal_bytes_are_optimized_alike<
    M: Fn(&[usize], usize) -> u64,
    S: Fn(u64, u64) -> u64,
>(measure: M, scale: S, raw: Seq<u8>, a: Readings, b: Readings)
    requires
        crate::entropy::functional_measure(measure),
        functional_scale(scale),
        readings_taken(measure, scale, raw, a),
        readings_taken(measure, scale, raw, b),
    ensures
        optimized(raw, a) == optimized(raw, b),
{
    if raw.len() >= SMALL_FILE {
        crate::entropy::order_plays_no_part(measure, raw, raw);
        assert(a.raw == b.raw);
        if !bypassed(raw, a) {
            let channels = crate::layout::layout_of(raw).0;
            crate::layout::layout_is_aligned(raw);
            crate::channels::channels_are_encoded_alike(
                measure,
                raw,
                channels,
                a.modes,
                b.modes,
                channels as nat,
            );
            let one = transformed_1d(raw, a.modes);
            let two = transformed_2d(raw);
            crate::entropy::order_plays_no_part(measure, one, one);
            crate::entropy::order_plays_no_part(measure, two, two);
            assert(a.one_d == b.one_d);
            assert(a.threshold == b.threshold);
        }
    }
}

/// The decision in numbers. A file below 4096 bytes, or one that reads above 7.95 bits a
/// byte, is left as it is; so is one of which neither transform reads below the
/// threshold, and no other. Rows are tried where the stride is at least 256 and scores
/// below the channels; they are kept where they read below the threshold and below the
/// channels, and else the channels are where they read below the threshold.
pub proof fn engine_follows_the_readings(raw: Seq<u8>, r: Readings)
    ensures
        ({
            let (engine, channels, row_stride, bytes) = optimized(raw, r);
            let (c, score_1d, row, score_2d) = crate::layout::layout_of(raw);
            let tried = raw.len() >= 4096 && r.raw <= 0x401f_cccc_cccc_cccd;
            let rows = row >= 256 && score_2d < score_1d && r.two_d < r.one_d && r.two_d
                < r.threshold;
            &&& engine == EngineType::Agz2D <==> tried && rows
            &&& engine == EngineType::Agz1D <==> tried && !rows && r.one_d < r.threshold
            &&& engine == EngineType::ZstdOnly <==> raw.len() < 4096 || r.raw
                > 0x401f_cccc_cccc_cccd || (r.one_d >= r.threshold && !rows)
            &&& engine == EngineType::ZstdOnly ==> channels == 1 && row_stride == 1 && bytes == raw
            &&& engine == EngineType::Agz1D ==> channels == c && row_stride == c && bytes
                == crate::channels::joined_channels(raw, c, r.modes, c as nat)
            &&& engine == EngineType::Agz2D ==> channels == c && row_stride == row && bytes
                == crate::predict::residuals_2d(raw, c, row)
        }),
{
}

/// The readings are taken of whole files: of all bytes of the file, of every channel, of
/// all bytes of each transform; and the threshold is the reading of the file scaled by
/// 0.99.
pub proof fn readings_are_of_whole_files<
    M: Fn(&[usize], usize) -> u64,
    S: Fn(u64, u64) -> u64,
>(measure: M, scale: S, raw: Seq<u8>, r: Readings)
    requires
        readings_taken(measure, scale, raw, r),
    ensures
        raw.len() >= 4096 ==> crate::entropy::reads(measure, raw, r.raw),
        raw.len() >= 4096 && r.raw <= 0x401f_cccc_cccc_cccd ==> {
            let (c, score_1d, row, score_2d) = crate::layout::layout_of(raw);
            &&& crate::channels::channel_readings(measure, raw, c, r.modes)
            &&& crate::entropy::reads(
                measure,
                crate::channels::joined_channels(raw, c, r.modes, c as nat),
                r.one_d,
            )
            &&& row >= 256 && score_2d < score_1d ==> crate::entropy::reads(
                measure,
                crate::predict::residuals_2d(raw, c, row),
                r.two_d,
            )
            &&& call_ensures(scale, (r.raw, 0x3fef_ae14_7ae1_47aeu64), r.threshold)
        },
{
}

/// Whatever was read, what is restored from it is encoded as what was read: the bytes
/// themselves; the mode byte and residuals of each channel; the residuals of the rows.
/// What a transform does not need is not looked at. Without channels the first transform
/// restores zeros, and the second leaves the bytes as they are.
pub proof fn encoding_undoes_restoring(
    engine: EngineType,
    channels: int,
    row_stride: int,
    n: nat,
    transformed: Seq<u8>,
    c: int,
)
    requires
        channels >= 0,
        row_stride >= 0,
        restorable(engine, channels, row_stride, n as int, transformed),
        channels > 0 ==> 0 <= c < channels,
    ensures
        ({
            let file = restored(engine, channels, row_stride, n, transformed);
            &&& engine == EngineType::ZstdOnly ==> file == transformed
            &&& engine != EngineType::ZstdOnly ==> file.len() == n
            &&& engine == EngineType::Agz2D && channels > 0 ==> crate::predict::residuals_2d(
                file,
                channels,
                row_stride,
            ) == transformed.take(n as int)
            &&& engine == EngineType::Agz2D && channels == 0 ==> file == transformed.take(n as int)
            &&& engine == EngineType::Agz1D && channels == 0 ==> file == Seq::new(
                n,
                |j: int| 0u8,
            )
            &&& engine == EngineType::Agz1D && channels > 0 ==> {
                let channel = crate::channels::channel_of(file, channels, c);
                let at = c + c * (n as int / channels) + if c <= n as int % channels {
                    c
                } else {
                    n as int % channels
                };
                transformed.subrange(at, at + channel.len() + 1) == crate::predict::encoded_1d(
                    transformed[at],
                    channel,
                )
            }
        }),
{
    if engine == EngineType::Agz1D {
        crate::channels::joining_undoes_merging(transformed, channels, n, c);
    }
    if engine == EngineType::Agz2D {
        if n == 0 {
            let file = restored(engine, channels, row_stride, n, transformed);
            assert(file =~= transformed.take(0));
            assert(crate::predict::residuals_2d(file, channels, row_stride) =~= transformed.take(
                0,
            ));
        } else if channels > 0 {
            crate::predict::encoding_2d_undoes_decoding(transformed, channels, row_stride, n);
        } else {
            crate::predict::decoding_2d_without_channels(transformed, row_stride, n);
        }
    }
}

/// Any function that takes every two readings will do as a scale.
pub proof fn any_total_function_scales<S: Fn(u64, u64) -> u64>(scale: S)
    requires
        forall|a: u64, b: u64| #[trigger] call_requires(scale, (a, b)),
    ensures
        total_scale(scale),
{
}

} // verus!
