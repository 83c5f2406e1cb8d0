//! Prediction filters: bytes are replaced by their differences from a prediction, modulo
//! 256, and recovered from them.

use crate::entropy::calculate_shannon_entropy;
use vstd::prelude::*;
use vstd::slice::slice_subrange;

verus! {

/// The number of one-dimensional prediction models.
pub const MODE_COUNT: u8 = 4;

/// `x` modulo 256.
pub open spec fn low_byte(x: int) -> u8 {
    (x % 256) as u8
}

/// The byte of `s` at `i`, or 0 where `s` has none.
pub open spec fn byte_at(s: Seq<u8>, i: int) -> int {
    if 0 <= i < s.len() {
        s[i] as int
    } else {
        0
    }
}

// ---------------------------------------------------------------------------
// One dimension
// ---------------------------------------------------------------------------

/// What model `mode` predicts for position `i` from the bytes of `s` before it: the byte
/// before (0, repeat), the line through the last two (1, linear), the parabola through
/// the last three (2, cubic) or the mean of the last two (3, median). Where too few bytes
/// come before, and for every other mode, it is 0.
pub open spec fn predicted_1d(mode: u8, s: Seq<u8>, i: int) -> int {
    if mode == 0 && i >= 1 {
        s[i - 1] as int
    } else if mode == 1 && i >= 2 {
        2 * s[i - 1] - s[i - 2]
    } else if mode == 2 && i >= 3 {
        3 * s[i - 1] - 3 * s[i - 2] + s[i - 3]
    } else if mode == 3 && i >= 2 {
        (s[i - 1] + s[i - 2]) / 2
    } else {
        0
    }
}

/// The differences of `channel` from the predictions of `mode`.
pub open spec fn residuals_1d(mode: u8, channel: Seq<u8>) -> Seq<u8> {
    Seq::new(channel.len(), |i: int| low_byte(channel[i] - predicted_1d(mode, channel, i)))
}

/// A channel in encoded form: the mode byte, then the residuals.
pub open spec fn encoded_1d(mode: u8, channel: Seq<u8>) -> Seq<u8> {
    seq![mode] + residuals_1d(mode, channel)
}

/// The first `n` bytes that the residuals `data` stand for.
pub open spec fn restored_1d(mode: u8, data: Seq<u8>, n: nat) -> Seq<u8>
    decreases n,
{
    if n == 0 {
        Seq::empty()
    } else {
        let before = restored_1d(mode, data, (n - 1) as nat);
        before.push(low_byte(data[n - 1] + predicted_1d(mode, before, n - 1)))
    }
}

/// The channel that `encoded`, a mode byte and residuals, stands for.
pub open spec fn decoded_1d(encoded: Seq<u8>) -> Seq<u8> {
    if encoded.len() == 0 {
        Seq::empty()
    } else {
        restored_1d(encoded[0], encoded.skip(1), (encoded.len() - 1) as nat)
    }
}

/// The model with the least reading among the first `n`, the lowest of them where
/// several are equal.
pub open spec fn best_mode(readings: Seq<u64>, n: nat) -> u8
    decreases n,
{
    if n <= 1 {
        0
    } else {
        let m = best_mode(readings, (n - 1) as nat);
        if readings[n - 1] < readings[m as int] {
            (n - 1) as u8
        } else {
            m
        }
    }
}

/// The encoded form of `channel` that is kept when its residuals under the models have
/// the given entropy readings.
pub open spec fn chosen_1d(channel: Seq<u8>, readings: Seq<u64>) -> Seq<u8> {
    if channel.len() == 0 {
        seq![0u8]
    } else {
        encoded_1d(best_mode(readings, MODE_COUNT as nat), channel)
    }
}

/// `readings` are entropy readings of the residuals of `channel`, one for each model. Of
/// an empty channel none are taken.
pub open spec fn mode_readings<M: Fn(&[usize], usize) -> u64>(
    measure: M,
    channel: Seq<u8>,
    readings: Seq<u64>,
) -> bool {
    channel.len() > 0 ==> {
        &&& readings.len() == MODE_COUNT
        &&& forall|m: int|
            0 <= m < readings.len() ==> crate::entropy::reads(
                measure,
                residuals_1d(m as u8, channel),
                #[trigger] readings[m],
            )
    }
}

/// `x` modulo 256.
fn wrap_byte(x: i32) -> (b: u8)
    ensures
        b == low_byte(x as int),
{
    x.checked_rem_euclid(256).unwrap() as u8
}

/// The prediction of model `mode` for position `i`.
fn predict_1d(mode: u8, s: &[u8], i: usize) -> (p: i32)
    requires
        i <= s@.len(),
    ensures
        p == predicted_1d(mode, s@, i as int),
        -1024 <= p <= 1024,
{
    match mode {
        0 => if i >= 1 {
            s[i - 1] as i32
        } else {
            0
        },
        1 => if i >= 2 {
            2 * (s[i - 1] as i32) - (s[i - 2] as i32)
        } else {
            0
        },
        2 => if i >= 3 {
            3 * (s[i - 1] as i32) - 3 * (s[i - 2] as i32) + (s[i - 3] as i32)
        } else {
            0
        },
        3 => if i >= 2 {
            ((s[i - 1] as i32) + (s[i - 2] as i32)) / 2
        } else {
            0
        },
        _ => 0,
    }
}

/// Encodes `channel` with the prediction model `mode`.
pub fn process_1d_forward(channel: &[u8], mode: u8) -> (out: Vec<u8>)
    ensures
        out@ == encoded_1d(mode, channel@),
        out@.len() == channel@.len() + 1,
        out@[0] == mode,
        forall|i: int|
            #![trigger out@[i + 1]]
            0 <= i < channel@.len() ==> {
                &&& mode == 0 && i >= 1 ==> out@[i + 1] == (channel@[i] - channel@[i - 1]) % 256
                &&& mode == 1 && i >= 2 ==> out@[i + 1] == (channel@[i] - 2 * channel@[i - 1]
                    + channel@[i - 2]) % 256
                &&& mode == 2 && i >= 3 ==> out@[i + 1] == (channel@[i] - 3 * channel@[i - 1] + 3
                    * channel@[i - 2] - channel@[i - 3]) % 256
                &&& mode == 3 && i >= 2 ==> out@[i + 1] == (channel@[i] - (channel@[i - 1]
                    + channel@[i - 2]) / 2) % 256
                &&& mode > 3 || i == 0 || (mode > 0 && i == 1) || (mode == 2 && i == 2)
                    ==> out@[i + 1] == channel@[i]
            },
{
    let mut out: Vec<u8> = Vec::new();
    out.push(mode);
    for i in 0..channel.len()
        invariant
            out@.len() == i + 1,
            forall|k: int| 0 <= k <= i ==> #[trigger] out@[k] == encoded_1d(mode, channel@)[k],
    {
        let pred: i32 = predict_1d(mode, channel, i);
        out.push(wrap_byte(channel[i] as i32 - pred));
    }
    proof {
        assert(out@ =~= encoded_1d(mode, channel@));
        assert forall|i: int| #![trigger out@[i + 1]] 0 <= i < channel@.len() implies ({
            &&& mode == 0 && i >= 1 ==> out@[i + 1] == (channel@[i] - channel@[i - 1]) % 256
            &&& mode == 1 && i >= 2 ==> out@[i + 1] == (channel@[i] - 2 * channel@[i - 1]
                + channel@[i - 2]) % 256
            &&& mode == 2 && i >= 3 ==> out@[i + 1] == (channel@[i] - 3 * channel@[i - 1] + 3
                * channel@[i - 2] - channel@[i - 3]) % 256
            &&& mode == 3 && i >= 2 ==> out@[i + 1] == (channel@[i] - (channel@[i - 1]
                + channel@[i - 2]) / 2) % 256
            &&& mode > 3 || i == 0 || (mode > 0 && i == 1) || (mode == 2 && i == 2)
                ==> out@[i + 1] == channel@[i]
        }) by {
            models_predict_by_formula(mode, channel@, i);
        }
    }
    out
}

/// Encodes `channel` with the model whose residuals have the least entropy. An empty
/// channel becomes the single byte 0.
pub fn process_1d_forward_multi<M: Fn(&[usize], usize) -> u64>(channel: &[u8], measure: &M) -> (out: Vec<u8>)
    requires
        crate::entropy::total_measure(*measure),
    ensures
        exists|readings: Seq<u64>|
            #[trigger] mode_readings(*measure, channel@, readings) && out@ == chosen_1d(
                channel@,
                readings,
            ),
        channel@.len() == 0 ==> out@ == seq![0u8],
        channel@.len() > 0 ==> out@.len() > 0 && out@[0] < 4 && out@ == encoded_1d(
            out@[0],
            channel@,
        ),
        channel@.len() > 0 ==> exists|readings: Seq<u64>|
            {
                &&& #[trigger] readings.len() == 4
                &&& forall|m: int|
                    0 <= m < 4 ==> {
                        &&& crate::entropy::reads(
                            *measure,
                            encoded_1d(m as u8, channel@).skip(1),
                            #[trigger] readings[m],
                        )
                        &&& readings[out@[0] as int] <= readings[m]
                        &&& m < out@[0] ==> readings[out@[0] as int] < readings[m]
                    }
            },
{
    if channel.is_empty() {
        let out = vec![0u8];
        assert(mode_readings(*measure, channel@, Seq::empty()));
        return out;
    }
    let mut best_out = process_1d_forward(channel, 0);
    let mut best_reading: u64 = read_residuals(&best_out, 0, channel, measure);
    let ghost mut readings = seq![best_reading];
    for mode in 1..MODE_COUNT
        invariant
            crate::entropy::total_measure(*measure),
            readings.len() == mode,
            forall|m: int|
                0 <= m < mode ==> crate::entropy::reads(
                    *measure,
                    residuals_1d(m as u8, channel@),
                    #[trigger] readings[m],
                ),
            best_mode(readings, mode as nat) < mode,
            best_reading == readings[best_mode(readings, mode as nat) as int],
            best_out@ == encoded_1d(best_mode(readings, mode as nat), channel@),
    {
        let out = process_1d_forward(channel, mode);
        let reading: u64 = read_residuals(&out, mode, channel, measure);
        proof {
            let longer = readings.push(reading);
            lemma_best_mode_prefix(readings, longer, mode as nat);
            readings = longer;
        }
        if reading < best_reading {
            best_reading = reading;
            best_out = out;
        }
    }
    assert(mode_readings(*measure, channel@, readings));
    proof {
        best_mode_is_first_minimum(readings, 4);
        assert forall|m: int| 0 <= m < 4 implies crate::entropy::reads(
            *measure,
            encoded_1d(m as u8, channel@).skip(1),
            #[trigger] readings[m],
        ) by {
            assert(encoded_1d(m as u8, channel@).skip(1) =~= residuals_1d(m as u8, channel@));
        }
        assert(readings.len() == 4);
    }
    best_out
}

/// The entropy reading of an encoded channel without its mode byte.
fn read_residuals<M: Fn(&[usize], usize) -> u64>(
    encoded: &Vec<u8>,
    mode: u8,
    channel: &[u8],
    measure: &M,
) -> (reading: u64)
    requires
        crate::entropy::total_measure(*measure),
        encoded@ == encoded_1d(mode, channel@),
    ensures
        crate::entropy::reads(*measure, residuals_1d(mode, channel@), reading),
{
    let tail = slice_subrange(encoded.as_slice(), 1, encoded.len());
    assert(tail@ =~= residuals_1d(mode, channel@));
    calculate_shannon_entropy(tail, measure)
}

proof fn lemma_best_mode_prefix(a: Seq<u64>, b: Seq<u64>, n: nat)
    requires
        n <= a.len(),
        n <= b.len(),
        n <= 256,
        forall|i: int| 0 <= i < n ==> a[i] == b[i],
    ensures
        best_mode(a, n) == best_mode(b, n),
        n > 0 ==> best_mode(a, n) < n,
    decreases n,
{
    if n > 1 {
        lemma_best_mode_prefix(a, b, (n - 1) as nat);
    }
}

/// Decodes a channel from its mode byte and residuals. A mode byte that names no model
/// leaves the residuals as they are.
pub fn process_1d_inverse_multi(encoded: &[u8]) -> (decoded: Vec<u8>)
    ensures
        decoded@ == decoded_1d(encoded@),
{
    if encoded.is_empty() {
        return Vec::new();
    }
    let mode: u8 = encoded[0];
    let data = slice_subrange(encoded, 1, encoded.len());
    assert(data@ == encoded@.skip(1));
    let mut decoded: Vec<u8> = Vec::new();
    for i in 0..data.len()
        invariant
            decoded@.len() == i,
            decoded@ == restored_1d(mode, data@, i as nat),
    {
        let pred: i32 = predict_1d(mode, decoded.as_slice(), i);
        decoded.push(wrap_byte(data[i] as i32 + pred));
    }
    decoded
}

// ---------------------------------------------------------------------------
// Two dimensions
// ---------------------------------------------------------------------------

/// What is predicted for position `i` of a picture with `channels` bytes a pixel and
/// `row_stride` bytes a row: in the first row the same channel one pixel to the left, in
/// the first pixel of a row the byte above, elsewhere left plus above less above-left.
pub open spec fn predicted_2d(s: Seq<u8>, channels: int, row_stride: int, i: int) -> int {
    let left = byte_at(s, i - channels);
    let up = byte_at(s, i - row_stride);
    let upleft = byte_at(s, i - row_stride - channels);
    if i < row_stride {
        left
    } else if i % row_stride < channels {
        up
    } else {
        left + up - upleft
    }
}

/// The differences of `data` from its two-dimensional predictions.
pub open spec fn residuals_2d(data: Seq<u8>, channels: int, row_stride: int) -> Seq<u8> {
    Seq::new(
        data.len(),
        |i: int| low_byte(data[i] - predicted_2d(data, channels, row_stride, i)),
    )
}

/// The first `n` bytes that the residuals `encoded` stand for.
pub open spec fn restored_2d(encoded: Seq<u8>, channels: int, row_stride: int, n: nat) -> Seq<u8>
    decreases n,
{
    if n == 0 {
        Seq::empty()
    } else {
        let before = restored_2d(encoded, channels, row_stride, (n - 1) as nat);
        before.push(
            low_byte(encoded[n - 1] + predicted_2d(before, channels, row_stride, n - 1)),
        )
    }
}

/// The byte `back` places before position `i`, or 0 where there is none in `s`.
fn byte_before(s: &[u8], i: usize, back: usize) -> (b: i32)
    ensures
        b == byte_at(s@, i - back),
        0 <= b <= 255,
{
    if back <= i && i - back < s.len() {
        s[i - back] as i32
    } else {
        0
    }
}

/// The two-dimensional prediction for position `i`.
fn predict_2d(s: &[u8], channels: usize, row_stride: usize, i: usize) -> (p: i32)
    requires
        row_stride > 0,
    ensures
        p == predicted_2d(s@, channels as int, row_stride as int, i as int),
        -1024 <= p <= 1024,
{
    let left: i32 = byte_before(s, i, channels);
    let up: i32 = byte_before(s, i, row_stride);
    let upleft: i32 = if row_stride <= i {
        byte_before(s, i - row_stride, channels)
    } else {
        0
    };
    if i < row_stride {
        left
    } else if (i % row_stride) < channels {
        up
    } else {
        left + up - upleft
    }
}

/// Replaces each byte by its difference from the two-dimensional prediction.
pub fn process_2d_forward(data: &[u8], channels: usize, row_stride: usize) -> (out: Vec<u8>)
    requires
        data@.len() > 0 ==> row_stride > 0,
    ensures
        out@ == residuals_2d(data@, channels as int, row_stride as int),
        out@.len() == data@.len(),
        forall|i: int|
            0 <= i < data@.len() && row_stride <= i && i % (row_stride as int) < channels
                ==> #[trigger] out@[i] == (data@[i] - data@[i - row_stride]) % 256,
        forall|i: int|
            0 <= i < data@.len() && row_stride <= i && channels <= i % (row_stride as int)
                ==> #[trigger] out@[i] == (data@[i] - data@[i - channels] - data@[i - row_stride]
                + data@[i - row_stride - channels]) % 256,
        forall|i: int|
            0 <= i < data@.len() && channels <= i < row_stride ==> #[trigger] out@[i] == (data@[i]
                - data@[i - channels]) % 256,
        forall|i: int|
            0 <= i < data@.len() && i < row_stride && i < channels ==> #[trigger] out@[i]
                == data@[i],
{
    let mut out: Vec<u8> = Vec::new();
    for i in 0..data.len()
        invariant
            data@.len() > 0 ==> row_stride > 0,
            out@.len() == i,
            forall|k: int|
                0 <= k < i ==> #[trigger] out@[k] == residuals_2d(
                    data@,
                    channels as int,
                    row_stride as int,
                )[k],
    {
        let pred: i32 = predict_2d(data, channels, row_stride, i);
        out.push(wrap_byte(data[i] as i32 - pred));
    }
    proof {
        let c = channels as int;
        let w = row_stride as int;
        assert(out@ =~= residuals_2d(data@, c, w));
        assert forall|i: int|
            0 <= i < data@.len() && w <= i && i % w < c implies #[trigger] out@[i] == (data@[i]
            - data@[i - w]) % 256 by {
            rows_predict_by_formula(data@, c, w, i);
        }
        assert forall|i: int|
            0 <= i < data@.len() && w <= i && c <= i % w implies #[trigger] out@[i] == (data@[i]
            - data@[i - c] - data@[i - w] + data@[i - w - c]) % 256 by {
            rows_predict_by_formula(data@, c, w, i);
        }
        assert forall|i: int| 0 <= i < data@.len() && c <= i < w implies #[trigger] out@[i] == (
        data@[i] - data@[i - c]) % 256 by {
            rows_predict_by_formula(data@, c, w, i);
        }
        assert forall|i: int| 0 <= i < data@.len() && i < w && i < c implies #[trigger] out@[i]
            == data@[i] by {
            rows_predict_by_formula(data@, c, w, i);
        }
    }
    out
}

/// Recovers the first `orig_len` bytes from two-dimensional residuals.
pub fn process_2d_inverse(
    encoded: &[u8],
    channels: usize,
    row_stride: usize,
    orig_len: usize,
) -> (decoded: Vec<u8>)
    requires
        orig_len <= encoded@.len(),
        orig_len > 0 ==> row_stride > 0,
    ensures
        decoded@ == restored_2d(encoded@, channels as int, row_stride as int, orig_len as nat),
{
    let mut decoded: Vec<u8> = Vec::new();
    for i in 0..orig_len
        invariant
            orig_len <= encoded@.len(),
            orig_len > 0 ==> row_stride > 0,
            decoded@.len() == i,
            decoded@ == restored_2d(encoded@, channels as int, row_stride as int, i as nat),
    {
        let pred: i32 = predict_2d(decoded.as_slice(), channels, row_stride, i);
        decoded.push(wrap_byte(encoded[i] as i32 + pred));
    }
    decoded
}

// ---------------------------------------------------------------------------
// Laws
// ---------------------------------------------------------------------------

proof fn lemma_low_byte_restores(b: u8, p: int)
    ensures
        low_byte(low_byte(b - p) + p) == b,
{
}

proof fn lemma_restored_1d(mode: u8, channel: Seq<u8>, data: Seq<u8>, n: nat)
    requires
        n <= channel.len(),
        data == residuals_1d(mode, channel),
    ensures
        restored_1d(mode, data, n) == channel.take(n as int),
    decreases n,
{
    if n > 0 {
        let k = n - 1;
        lemma_restored_1d(mode, channel, data, k as nat);
        let before = channel.take(k);
        let pred = predicted_1d(mode, channel, k);
        assert(predicted_1d(mode, before, k) == pred);
        lemma_low_byte_restores(channel[k], pred);
        assert(channel.take(n as int) =~= before.push(channel[k]));
    } else {
        assert(channel.take(0) =~= Seq::<u8>::empty());
    }
}

/// Decoding undoes one-dimensional encoding, whatever the mode byte.
pub proof fn decoding_1d_undoes_encoding(mode: u8, channel: Seq<u8>)
    ensures
        decoded_1d(encoded_1d(mode, channel)) == channel,
{
    let encoded = encoded_1d(mode, channel);
    assert(encoded.skip(1) =~= residuals_1d(mode, channel));
    lemma_restored_1d(mode, channel, residuals_1d(mode, channel), channel.len());
    assert(channel.take(channel.len() as int) =~= channel);
}

/// `best_mode` picks a model whose reading no other model undercuts, and of equal ones
/// the first.
pub proof fn best_mode_is_first_minimum(readings: Seq<u64>, n: nat)
    requires
        0 < n <= readings.len(),
        n <= 256,
    ensures
        best_mode(readings, n) < n,
        forall|k: int|
            0 <= k < n ==> readings[best_mode(readings, n) as int] <= #[trigger] readings[k],
        forall|k: int|
            0 <= k < best_mode(readings, n) ==> readings[best_mode(readings, n) as int]
                < #[trigger] readings[k],
    decreases n,
{
    if n > 1 {
        best_mode_is_first_minimum(readings, (n - 1) as nat);
    }
}

/// Decoding undoes the encoding that is kept for a channel, whatever the readings that it
/// was chosen by.
pub proof fn decoding_1d_undoes_choice(channel: Seq<u8>, readings: Seq<u64>)
    ensures
        decoded_1d(chosen_1d(channel, readings)) == channel,
        chosen_1d(channel, readings).len() == channel.len() + 1,
{
    if channel.len() == 0 {
        assert(encoded_1d(0, channel) =~= seq![0u8]);
        decoding_1d_undoes_encoding(0, channel);
    } else {
        decoding_1d_undoes_encoding(best_mode(readings, MODE_COUNT as nat), channel);
    }
}

proof fn lemma_restored_2d(data: Seq<u8>, channels: int, row_stride: int, encoded: Seq<u8>, n: nat)
    requires
        n <= data.len(),
        channels > 0,
        row_stride > 0,
        encoded == residuals_2d(data, channels, row_stride),
    ensures
        restored_2d(encoded, channels, row_stride, n) == data.take(n as int),
    decreases n,
{
    if n > 0 {
        let k = n - 1;
        lemma_restored_2d(data, channels, row_stride, encoded, k as nat);
        let before = data.take(k);
        let pred = predicted_2d(data, channels, row_stride, k);
        assert(predicted_2d(before, channels, row_stride, k) == pred);
        lemma_low_byte_restores(data[k], pred);
        assert(data.take(n as int) =~= before.push(data[k]));
    } else {
        assert(data.take(0) =~= Seq::<u8>::empty());
    }
}

/// Two-dimensional decoding undoes two-dimensional encoding for every layout with at
/// least one byte a pixel and one byte a row.
pub proof fn decoding_2d_undoes_encoding(data: Seq<u8>, channels: int, row_stride: int)
    requires
        channels > 0,
        row_stride > 0,
    ensures
        restored_2d(residuals_2d(data, channels, row_stride), channels, row_stride, data.len())
            == data,
{
    lemma_restored_2d(
        data,
        channels,
        row_stride,
        residuals_2d(data, channels, row_stride),
        data.len(),
    );
    assert(data.take(data.len() as int) =~= data);
}

/// The encoded form of a channel depends on its bytes alone, where `measure` gives one
/// result for one input.
pub proof fn channel_is_encoded_alike<M: Fn(&[usize], usize) -> u64>(
    measure: M,
    channel: Seq<u8>,
    a: Seq<u64>,
    b: Seq<u64>,
)
    requires
        crate::entropy::functional_measure(measure),
        mode_readings(measure, channel, a),
        mode_readings(measure, channel, b),
    ensures
        chosen_1d(channel, a) == chosen_1d(channel, b),
{
    if channel.len() > 0 {
        assert forall|m: int| 0 <= m < a.len() implies a[m] == b[m] by {
            let residuals = residuals_1d(m as u8, channel);
            crate::entropy::order_plays_no_part(measure, residuals, residuals);
            assert(crate::entropy::reads(measure, residuals, a[m]));
            assert(crate::entropy::reads(measure, residuals, b[m]));
        }
        assert(a =~= b);
    }
}

/// The residuals in numbers. Repeat takes the difference to the byte before; linear the
/// second difference; cubic the third difference; median the difference to the mean of
/// the two bytes before. Where too few bytes come before, and under any other mode byte,
/// the bytes stay as they are.
pub proof fn models_predict_by_formula(mode: u8, channel: Seq<u8>, i: int)
    requires
        0 <= i < channel.len(),
    ensures
        encoded_1d(mode, channel).len() == channel.len() + 1,
        encoded_1d(mode, channel)[0] == mode,
        mode == 0 && i >= 1 ==> encoded_1d(mode, channel)[i + 1] == (channel[i] - channel[i - 1])
            % 256,
        mode == 1 && i >= 2 ==> encoded_1d(mode, channel)[i + 1] == (channel[i] - 2 * channel[i - 1]
            + channel[i - 2]) % 256,
        mode == 2 && i >= 3 ==> encoded_1d(mode, channel)[i + 1] == (channel[i] - 3 * channel[i - 1]
            + 3 * channel[i - 2] - channel[i - 3]) % 256,
        mode == 3 && i >= 2 ==> encoded_1d(mode, channel)[i + 1] == (channel[i] - (channel[i - 1]
            + channel[i - 2]) / 2) % 256,
        mode > 3 || i == 0 || (mode > 0 && i == 1) || (mode == 2 && i == 2) ==> encoded_1d(
            mode,
            channel,
        )[i + 1] == channel[i],
{
    assert(encoded_1d(mode, channel)[i + 1] == residuals_1d(mode, channel)[i]);
}

/// The two-dimensional residuals in numbers. In the first row they are differences to the
/// same channel of the pixel before, in the first pixel of any other row, all its bytes,
/// differences to the byte above, and elsewhere differences of both kinds at once.
pub proof fn rows_predict_by_formula(data: Seq<u8>, channels: int, row_stride: int, i: int)
    requires
        0 <= i < data.len(),
        channels >= 0,
        row_stride > 0,
    ensures
        residuals_2d(data, channels, row_stride).len() == data.len(),
        row_stride <= i && i % row_stride < channels ==> residuals_2d(
            data,
            channels,
            row_stride,
        )[i] == (data[i] - data[i - row_stride]) % 256,
        row_stride <= i && channels <= i % row_stride ==> residuals_2d(
            data,
            channels,
            row_stride,
        )[i] == (data[i] - data[i - channels] - data[i - row_stride] + data[i - row_stride
            - channels]) % 256,
        channels <= i < row_stride ==> residuals_2d(data, channels, row_stride)[i] == (data[i]
            - data[i - channels]) % 256,
        i < row_stride && i < channels ==> residuals_2d(data, channels, row_stride)[i] == data[i],
{
    if row_stride <= i && channels <= i % row_stride {
        vstd::arithmetic::div_mod::lemma_fundamental_div_mod(i, row_stride);
        assert(i >= row_stride + i % row_stride) by (nonlinear_arith)
            requires
                i == row_stride * (i / row_stride) + i % row_stride,
                i >= row_stride,
                0 <= i % row_stride < row_stride,
        ;
    }
}

/// A picture whose rows are all equal leaves nothing after its first row.
pub proof fn equal_rows_leave_no_residuals(data: Seq<u8>, channels: int, row_stride: int, i: int)
    requires
        channels >= 0,
        0 < row_stride <= i < data.len(),
        forall|j: int| row_stride <= j < data.len() ==> #[trigger] data[j] == data[j - row_stride],
    ensures
        residuals_2d(data, channels, row_stride)[i] == 0,
{
    rows_predict_by_formula(data, channels, row_stride, i);
    assert(data[i] == data[i - row_stride]);
    if channels <= i % row_stride {
        vstd::arithmetic::div_mod::lemma_fundamental_div_mod(i, row_stride);
        assert(i >= row_stride + i % row_stride) by (nonlinear_arith)
            requires
                i == row_stride * (i / row_stride) + i % row_stride,
                i >= row_stride,
                0 <= i % row_stride < row_stride,
        ;
        assert(data[i - channels] == data[i - channels - row_stride]);
    }
}

/// Of the four models the kept one reads least, and of those that read least it is the
/// lowest.
pub proof fn kept_model_reads_least<M: Fn(&[usize], usize) -> u64>(
    measure: M,
    channel: Seq<u8>,
    readings: Seq<u64>,
    kept: u64,
    m: u8,
    other: u64,
)
    requires
        crate::entropy::functional_measure(measure),
        channel.len() > 0,
        mode_readings(measure, channel, readings),
        crate::entropy::reads(measure, chosen_1d(channel, readings).skip(1), kept),
        m < 4,
        crate::entropy::reads(measure, encoded_1d(m, channel).skip(1), other),
    ensures
        chosen_1d(channel, readings)[0] < 4,
        chosen_1d(channel, readings) == encoded_1d(chosen_1d(channel, readings)[0], channel),
        kept <= other,
        m < chosen_1d(channel, readings)[0] ==> kept < other,
{
    best_mode_is_first_minimum(readings, 4);
    let best = best_mode(readings, 4);
    assert(chosen_1d(channel, readings) == encoded_1d(best, channel));
    let kept_bytes = encoded_1d(best, channel).skip(1);
    let other_bytes = encoded_1d(m, channel).skip(1);
    assert(kept_bytes =~= residuals_1d(best, channel));
    assert(other_bytes =~= residuals_1d(m, channel));
    crate::entropy::order_plays_no_part(measure, kept_bytes, kept_bytes);
    crate::entropy::order_plays_no_part(measure, other_bytes, other_bytes);
    assert(crate::entropy::reads(measure, residuals_1d(best, channel), readings[best as int]));
    assert(crate::entropy::reads(measure, residuals_1d(m, channel), readings[m as int]));
}

/// Entropy readings of the models are four, one of the residuals under each model.
pub proof fn every_model_is_read<M: Fn(&[usize], usize) -> u64>(
    measure: M,
    channel: Seq<u8>,
    readings: Seq<u64>,
    m: u8,
)
    requires
        channel.len() > 0,
        mode_readings(measure, channel, readings),
        m < 4,
    ensures
        readings.len() == 4,
        crate::entropy::reads(measure, encoded_1d(m, channel).skip(1), readings[m as int]),
{
    assert(encoded_1d(m, channel).skip(1) =~= residuals_1d(m, channel));
    assert(readings[m as int] == readings[m as int]);
}

proof fn lemma_restored_1d_prefix(mode: u8, data: Seq<u8>, n: nat, k: int)
    requires
        0 <= k < n,
    ensures
        restored_1d(mode, data, n).len() == n,
        restored_1d(mode, data, n)[k] == low_byte(
            data[k] + predicted_1d(mode, restored_1d(mode, data, n), k),
        ),
    decreases n,
{
    let whole = restored_1d(mode, data, n);
    let before = restored_1d(mode, data, (n - 1) as nat);
    if n > 1 {
        lemma_restored_1d_prefix(mode, data, (n - 1) as nat, if k < n - 1 {
            k
        } else {
            0
        });
    }
    assert(predicted_1d(mode, whole, k) == predicted_1d(mode, before, k));
}

proof fn lemma_low_byte_recovers(b: u8, p: int)
    ensures
        low_byte(low_byte(b + p) - p) == b,
{
}

/// Encoding undoes one-dimensional decoding: whatever was read, mode byte and residuals,
/// is what the decoded channel is encoded as. Nothing decodes to nothing.
pub proof fn encoding_1d_undoes_decoding(encoded: Seq<u8>)
    ensures
        encoded.len() == 0 ==> decoded_1d(encoded) == Seq::<u8>::empty(),
        encoded.len() > 0 ==> decoded_1d(encoded).len() == encoded.len() - 1,
        encoded.len() > 0 ==> encoded_1d(encoded[0], decoded_1d(encoded)) == encoded,
{
    if encoded.len() > 0 {
        let mode = encoded[0];
        let data = encoded.skip(1);
        let n = data.len();
        let channel = decoded_1d(encoded);
        if n > 0 {
            lemma_restored_1d_prefix(mode, data, n, 0);
        }
        assert forall|k: int| 0 <= k < n implies residuals_1d(mode, channel)[k] == data[k] by {
            lemma_restored_1d_prefix(mode, data, n, k);
            lemma_low_byte_recovers(data[k], predicted_1d(mode, channel, k));
        }
        assert(channel.len() == n);
        assert(residuals_1d(mode, channel) =~= data);
        assert(seq![mode] + data =~= encoded);
    }
}

proof fn lemma_restored_2d_prefix(
    encoded: Seq<u8>,
    channels: int,
    row_stride: int,
    n: nat,
    k: int,
)
    requires
        0 <= k < n,
        channels > 0,
        row_stride > 0,
    ensures
        restored_2d(encoded, channels, row_stride, n).len() == n,
        restored_2d(encoded, channels, row_stride, n)[k] == low_byte(
            encoded[k] + predicted_2d(
                restored_2d(encoded, channels, row_stride, n),
                channels,
                row_stride,
                k,
            ),
        ),
    decreases n,
{
    let whole = restored_2d(encoded, channels, row_stride, n);
    let before = restored_2d(encoded, channels, row_stride, (n - 1) as nat);
    if n > 1 {
        lemma_restored_2d_prefix(encoded, channels, row_stride, (n - 1) as nat, if k < n - 1 {
            k
        } else {
            0
        });
    }
    assert(predicted_2d(whole, channels, row_stride, k) == predicted_2d(
        before,
        channels,
        row_stride,
        k,
    ));
}

/// Two-dimensional encoding undoes decoding: the first `n` residuals are those of the `n`
/// bytes that they are decoded to.
pub proof fn encoding_2d_undoes_decoding(
    encoded: Seq<u8>,
    channels: int,
    row_stride: int,
    n: nat,
)
    requires
        channels > 0,
        row_stride > 0,
        n <= encoded.len(),
    ensures
        restored_2d(encoded, channels, row_stride, n).len() == n,
        residuals_2d(restored_2d(encoded, channels, row_stride, n), channels, row_stride)
            == encoded.take(n as int),
{
    let data = restored_2d(encoded, channels, row_stride, n);
    if n > 0 {
        lemma_restored_2d_prefix(encoded, channels, row_stride, n, 0);
    }
    assert forall|k: int| 0 <= k < n implies residuals_2d(data, channels, row_stride)[k]
        == encoded[k] by {
        lemma_restored_2d_prefix(encoded, channels, row_stride, n, k);
        lemma_low_byte_recovers(encoded[k], predicted_2d(data, channels, row_stride, k));
    }
    assert(residuals_2d(data, channels, row_stride) =~= encoded.take(n as int));
}

/// With no bytes a pixel decoding predicts nothing and leaves the bytes as they are.
pub proof fn decoding_2d_without_channels(encoded: Seq<u8>, row_stride: int, n: nat)
    requires
        row_stride > 0,
        n <= encoded.len(),
    ensures
        restored_2d(encoded, 0, row_stride, n) == encoded.take(n as int),
    decreases n,
{
    if n == 0 {
        assert(encoded.take(0) =~= Seq::<u8>::empty());
    } else {
        let k = n - 1;
        decoding_2d_without_channels(encoded, row_stride, k as nat);
        let before = encoded.take(k);
        assert(predicted_2d(before, 0, row_stride, k) == 0);
        assert(encoded.take(n as int) =~= before.push(encoded[k]));
    }
}

/// Whatever the readings, an empty channel is kept as the single byte 0.
pub proof fn empty_channel_is_one_zero(readings: Seq<u64>)
    ensures
        chosen_1d(Seq::empty(), readings) == seq![0u8],
{
}

} // verus!
