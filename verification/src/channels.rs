//! Interleaved channels: the data is taken apart byte by byte, each channel is encoded on
//! its own, and the encoded channels follow one another.

use crate::entropy::total_measure;
use crate::predict::{process_1d_forward_multi, process_1d_inverse_multi};
use vstd::arithmetic::div_mod::{
    lemma_fundamental_div_mod, lemma_fundamental_div_mod_converse,
};
use vstd::prelude::*;
use vstd::slice::slice_subrange;

verus! {

/// How many of `n` bytes belong to channel `c`.
pub open spec fn channel_len(n: int, channels: int, c: int) -> int {
    n / channels + if c < n % channels {
        1int
    } else {
        0
    }
}

/// Channel `c` of `raw`: its bytes `c`, `c + channels` and so on.
pub open spec fn channel_of(raw: Seq<u8>, channels: int, c: int) -> Seq<u8> {
    Seq::new(
        channel_len(raw.len() as int, channels, c) as nat,
        |k: int| raw[k * channels + c],
    )
}

/// The first `count` channels of `raw` in encoded form, one after the other, where
/// `readings` holds the entropy readings that each was chosen by.
pub open spec fn joined_channels(
    raw: Seq<u8>,
    channels: int,
    readings: Seq<Seq<u64>>,
    count: nat,
) -> Seq<u8>
    decreases count,
{
    if count == 0 {
        Seq::empty()
    } else {
        joined_channels(raw, channels, readings, (count - 1) as nat)
            + crate::predict::chosen_1d(channel_of(raw, channels, count - 1), readings[count - 1])
    }
}

/// `readings` holds, for each channel of `raw`, entropy readings of its residuals.
pub open spec fn channel_readings<M: Fn(&[usize], usize) -> u64>(
    measure: M,
    raw: Seq<u8>,
    channels: int,
    readings: Seq<Seq<u64>>,
) -> bool {
    &&& readings.len() == channels
    &&& forall|c: int|
        0 <= c < channels ==> crate::predict::mode_readings(
            measure,
            channel_of(raw, channels, c),
            #[trigger] readings[c],
        )
}

/// Where the encoded form of channel `c` of `n` bytes begins: each channel before it
/// takes its bytes and a mode byte.
pub open spec fn channel_offset(n: int, channels: int, c: int) -> int {
    c * (n / channels + 1) + if c < n % channels {
        c
    } else {
        n % channels
    }
}

/// The encoded form of channel `c` within the encoded channels of `n` bytes.
pub open spec fn channel_part(joined: Seq<u8>, channels: int, n: int, c: int) -> Seq<u8> {
    joined.subrange(
        channel_offset(n, channels, c),
        channel_offset(n, channels, c) + channel_len(n, channels, c) + 1,
    )
}

/// The `n` bytes that the encoded channels stand for: byte `j` is byte `j / channels` of
/// channel `j % channels`. With no channels at all they are zero.
pub open spec fn merged_channels(joined: Seq<u8>, channels: int, n: nat) -> Seq<u8> {
    Seq::new(
        n,
        |j: int|
            if channels == 0 {
                0u8
            } else {
                crate::predict::decoded_1d(
                    channel_part(joined, channels, n as int, j % channels),
                )[j / channels]
            },
    )
}

/// Takes `raw` apart into its channels.
pub fn split_channels(raw: &[u8], channels: usize) -> (out: Vec<Vec<u8>>)
    requires
        channels > 0,
    ensures
        out@.len() == channels,
        forall|c: int|
            0 <= c < channels ==> (#[trigger] out@[c])@ == channel_of(raw@, channels as int, c),
{
    let mut out: Vec<Vec<u8>> = Vec::new();
    for c in 0..channels
        invariant
            out@.len() == c,
            forall|k: int| 0 <= k < c ==> (#[trigger] out@[k])@ == Seq::<u8>::empty(),
    {
        out.push(Vec::new());
    }
    proof {
        assert forall|c: int| 0 <= c < channels implies (#[trigger] out@[c])@ == channel_of(
            raw@.take(0),
            channels as int,
            c,
        ) by {
            lemma_fundamental_div_mod_converse(0, channels as int, 0, 0);
        }
    }
    for i in 0..raw.len()
        invariant
            channels > 0,
            out@.len() == channels,
            forall|c: int|
                0 <= c < channels ==> (#[trigger] out@[c])@ == channel_of(
                    raw@.take(i as int),
                    channels as int,
                    c,
                ),
    {
        let ghost before = out@;
        let at: usize = i % channels;
        out[at].push(raw[i]);
        proof {
            assert forall|c: int| 0 <= c < channels implies (#[trigger] out@[c])@ == channel_of(
                raw@.take(i + 1),
                channels as int,
                c,
            ) by {
                lemma_channel_push(raw@, channels as int, i as int, c);
                assert(before[c]@ == channel_of(raw@.take(i as int), channels as int, c));
            }
        }
    }
    assert(raw@.take(raw@.len() as int) == raw@);
    out
}

/// Encodes every channel of `raw` with the model that suits it best.
pub fn encode_channels<M: Fn(&[usize], usize) -> u64>(
    raw: &[u8],
    channels: usize,
    measure: &M,
) -> (out: Vec<u8>)
    requires
        channels > 0,
        total_measure(*measure),
    ensures
        exists|readings: Seq<Seq<u64>>| #[trigger]
            channel_readings(*measure, raw@, channels as int, readings) && out@ == joined_channels(
                raw@,
                channels as int,
                readings,
                channels as nat,
            ),
{
    let parts = split_channels(raw, channels);
    let mut out: Vec<u8> = Vec::new();
    let ghost mut readings = Seq::<Seq<u64>>::empty();
    for c in 0..channels
        invariant
            total_measure(*measure),
            parts@.len() == channels,
            forall|k: int|
                0 <= k < channels ==> (#[trigger] parts@[k])@ == channel_of(
                    raw@,
                    channels as int,
                    k,
                ),
            readings.len() == c,
            forall|k: int|
                0 <= k < c ==> crate::predict::mode_readings(
                    *measure,
                    channel_of(raw@, channels as int, k),
                    #[trigger] readings[k],
                ),
            out@ == joined_channels(raw@, channels as int, readings, c as nat),
    {
        let part = process_1d_forward_multi(parts[c].as_slice(), measure);
        let ghost joined = out@;
        out.extend_from_slice(part.as_slice());
        proof {
            let channel = channel_of(raw@, channels as int, c as int);
            let taken = choose|r: Seq<u64>| #[trigger]
                crate::predict::mode_readings(*measure, channel, r) && part@
                    == crate::predict::chosen_1d(channel, r);
            let longer = readings.push(taken);
            lemma_joined_prefix(raw@, channels as int, readings, longer, c as nat);
            assert(out@ =~= joined + part@);
            readings = longer;
        }
    }
    assert(channel_readings(*measure, raw@, channels as int, readings));
    out
}

/// The encoded channels `joined` are long enough to hold `orig_size` bytes. With no
/// channels they hold nothing, and the zeros only have to fit into memory.
pub open spec fn holds_channels(joined: Seq<u8>, channels: int, orig_size: int) -> bool {
    if channels > 0 {
        joined.len() >= orig_size + channels
    } else {
        orig_size <= isize::MAX
    }
}

/// Decodes the channels and interleaves them again. What follows the last channel is
/// ignored.
pub fn decode_channels(joined: &[u8], channels: usize, orig_size: usize) -> (out: Vec<u8>)
    requires
        holds_channels(joined@, channels as int, orig_size as int),
    ensures
        out@ == merged_channels(joined@, channels as int, orig_size as nat),
{
    let mut out: Vec<u8> = vec![0u8; orig_size];
    let mut offset: usize = 0;
    let ghost merged = merged_channels(joined@, channels as int, orig_size as nat);
    proof {
        if channels > 0 {
            lemma_channel_offset(orig_size as int, channels as int, 0);
        }
    }
    for c in 0..channels
        invariant
            holds_channels(joined@, channels as int, orig_size as int),
            merged == merged_channels(joined@, channels as int, orig_size as nat),
            out@.len() == orig_size,
            channels > 0 ==> offset == channel_offset(orig_size as int, channels as int, c as int),
            channels == 0 ==> forall|j: int| 0 <= j < orig_size ==> #[trigger] out@[j] == 0,
            channels > 0 ==> forall|j: int|
                0 <= j < orig_size && j % (channels as int) < c ==> #[trigger] out@[j] == merged[j],
    {
        proof {
            lemma_channel_offset(orig_size as int, channels as int, c as int);
            assert(joined@.len() == joined.len());
            assert(channel_len(orig_size as int, channels as int, c as int) + 1 <= joined@.len());
        }
        let extra: usize = if c < orig_size % channels {
            1
        } else {
            0
        };
        let len: usize = orig_size / channels + extra + 1;
        let part = slice_subrange(joined, offset, offset + len);
        let restored = process_1d_inverse_multi(part);
        proof {
            lemma_decoded_len(part@);
        }
        for i in 0..restored.len()
            invariant
                c < channels,
                merged == merged_channels(joined@, channels as int, orig_size as nat),
                out@.len() == orig_size,
                part@ == channel_part(joined@, channels as int, orig_size as int, c as int),
                restored@ == crate::predict::decoded_1d(part@),
                restored@.len() == channel_len(orig_size as int, channels as int, c as int),
                forall|j: int|
                    0 <= j < orig_size && (j % (channels as int) < c || (j % (channels as int) == c
                        && j / (channels as int) < i)) ==> #[trigger] out@[j] == merged[j],
        {
            proof {
                lemma_channel_index(orig_size as int, channels as int, c as int, i as int);
            }
            let at: usize = i * channels + c;
            out[at] = restored[i];
            proof {
                assert forall|j: int|
                    0 <= j < orig_size && (j % (channels as int) < c || (j % (channels as int) == c
                        && j / (channels as int) < i + 1)) implies #[trigger] out@[j]
                    == merged[j] by {
                    lemma_index_in_channel(orig_size as int, channels as int, j);
                }
            }
        }
        proof {
            assert forall|j: int|
                0 <= j < orig_size && j % (channels as int) < c + 1 implies #[trigger] out@[j]
                == merged[j] by {
                lemma_index_in_channel(orig_size as int, channels as int, j);
            }
        }
        offset = offset + len;
    }
    proof {
        assert forall|j: int| 0 <= j < orig_size implies #[trigger] out@[j] == merged[j] by {
            if channels > 0 {
                lemma_fundamental_div_mod(j, channels as int);
            }
        }
        assert(out@ =~= merged);
    }
    out
}

// ---------------------------------------------------------------------------
// Laws
// ---------------------------------------------------------------------------

/// Index `k` of channel `c` lies within the data, and leads back to `c` and `k`.
proof fn lemma_channel_index(n: int, channels: int, c: int, k: int)
    requires
        n >= 0,
        0 <= c < channels,
        0 <= k < channel_len(n, channels, c),
    ensures
        0 <= k * channels <= k * channels + c < n,
        (k * channels + c) % channels == c,
        (k * channels + c) / channels == k,
{
    lemma_fundamental_div_mod(n, channels);
    let q = n / channels;
    let r = n % channels;
    assert(n == channels * q + r);
    if k < q {
        assert(k * channels + c < channels * q) by (nonlinear_arith)
            requires
                0 <= k < q,
                0 <= c < channels,
        ;
    } else {
        assert(k * channels == channels * q) by (nonlinear_arith)
            requires
                k == q,
        ;
    }
    assert(0 <= k * channels) by (nonlinear_arith)
        requires
            0 <= k,
            0 < channels,
    ;
    lemma_fundamental_div_mod_converse(k * channels + c, channels, k, c);
}

/// Every index of the data lies in its channel.
proof fn lemma_index_in_channel(n: int, channels: int, j: int)
    requires
        0 <= j < n,
        channels > 0,
    ensures
        0 <= j % channels < channels,
        0 <= j / channels < channel_len(n, channels, j % channels),
        (j / channels) * channels + j % channels == j,
{
    lemma_fundamental_div_mod(n, channels);
    lemma_fundamental_div_mod(j, channels);
    let q = n / channels;
    let r = n % channels;
    let k = j / channels;
    let c = j % channels;
    assert(k * channels == channels * k) by (nonlinear_arith);
    assert(k >= 0) by (nonlinear_arith)
        requires
            j == channels * k + c,
            j >= 0,
            0 <= c < channels,
    ;
    assert(k <= q && (k == q ==> c < r)) by (nonlinear_arith)
        requires
            channels * k + c < channels * q + r,
            0 <= c < channels,
            0 <= r < channels,
    ;
}

/// One more byte lengthens exactly the channel it belongs to.
proof fn lemma_channel_push(raw: Seq<u8>, channels: int, i: int, c: int)
    requires
        0 <= i < raw.len(),
        0 <= c < channels,
    ensures
        channel_of(raw.take(i + 1), channels, c) == if c == i % channels {
            channel_of(raw.take(i), channels, c).push(raw[i])
        } else {
            channel_of(raw.take(i), channels, c)
        },
{
    lemma_fundamental_div_mod(i, channels);
    let q = i / channels;
    let r = i % channels;
    assert(channels * q == q * channels) by (nonlinear_arith);
    if r + 1 < channels {
        lemma_fundamental_div_mod_converse(i + 1, channels, q, r + 1);
    } else {
        assert((q + 1) * channels == q * channels + channels) by (nonlinear_arith);
        lemma_fundamental_div_mod_converse(i + 1, channels, q + 1, 0);
    }
    assert(q >= 0) by (nonlinear_arith)
        requires
            i == channels * q + r,
            i >= 0,
            0 <= r < channels,
    ;
    let before = channel_of(raw.take(i), channels, c);
    let after = channel_of(raw.take(i + 1), channels, c);
    assert forall|k: int| 0 <= k < before.len() implies after[k] == before[k] by {
        lemma_channel_index(i, channels, c, k);
    }
    if c == r {
        assert(after =~= before.push(raw[i]));
    } else {
        assert(after =~= before);
    }
}

/// Channels follow one another, and all of them take `n` bytes and a mode byte each.
proof fn lemma_channel_offset(n: int, channels: int, c: int)
    requires
        n >= 0,
        0 <= c < channels,
    ensures
        channel_len(n, channels, c) >= 0,
        channel_offset(n, channels, 0) == 0,
        channel_offset(n, channels, c) >= 0,
        channel_offset(n, channels, c + 1) == channel_offset(n, channels, c) + channel_len(
            n,
            channels,
            c,
        ) + 1,
        channel_offset(n, channels, c + 1) <= n + channels,
        channel_offset(n, channels, channels) == n + channels,
{
    lemma_fundamental_div_mod(n, channels);
    let q = n / channels;
    let r = n % channels;
    assert(q >= 0) by (nonlinear_arith)
        requires
            n == channels * q + r,
            n >= 0,
            0 <= r < channels,
    ;
    assert((c + 1) * (q + 1) == c * (q + 1) + q + 1) by (nonlinear_arith);
    assert(channels * (q + 1) == channels * q + channels) by (nonlinear_arith);
    assert(0 <= c * (q + 1)) by (nonlinear_arith)
        requires
            0 <= c,
            0 <= q,
    ;
    assert((c + 1) * (q + 1) <= channels * (q + 1)) by (nonlinear_arith)
        requires
            c + 1 <= channels,
            0 <= q,
    ;
}

proof fn lemma_restored_len(mode: u8, data: Seq<u8>, n: nat)
    ensures
        crate::predict::restored_1d(mode, data, n).len() == n,
    decreases n,
{
    if n > 0 {
        lemma_restored_len(mode, data, (n - 1) as nat);
    }
}

proof fn lemma_decoded_len(encoded: Seq<u8>)
    requires
        encoded.len() > 0,
    ensures
        crate::predict::decoded_1d(encoded).len() == encoded.len() - 1,
{
    lemma_restored_len(encoded[0], encoded.skip(1), (encoded.len() - 1) as nat);
}

proof fn lemma_joined_prefix(
    raw: Seq<u8>,
    channels: int,
    a: Seq<Seq<u64>>,
    b: Seq<Seq<u64>>,
    count: nat,
)
    requires
        count <= a.len(),
        count <= b.len(),
        forall|c: int| 0 <= c < count ==> a[c] == b[c],
    ensures
        joined_channels(raw, channels, a, count) == joined_channels(raw, channels, b, count),
    decreases count,
{
    if count > 0 {
        lemma_joined_prefix(raw, channels, a, b, (count - 1) as nat);
    }
}

proof fn lemma_joined_parts(
    raw: Seq<u8>,
    channels: int,
    readings: Seq<Seq<u64>>,
    count: nat,
    c: int,
)
    requires
        channels > 0,
        0 <= c < count <= channels,
    ensures
        joined_channels(raw, channels, readings, count).len() == channel_offset(
            raw.len() as int,
            channels,
            count as int,
        ),
        channel_part(joined_channels(raw, channels, readings, count), channels, raw.len() as int, c)
            == crate::predict::chosen_1d(channel_of(raw, channels, c), readings[c]),
    decreases count,
{
    let n = raw.len() as int;
    let last = count - 1;
    let before = joined_channels(raw, channels, readings, last as nat);
    let piece = crate::predict::chosen_1d(channel_of(raw, channels, last), readings[last]);
    lemma_channel_offset(n, channels, last);
    lemma_channel_offset(n, channels, c);
    crate::predict::decoding_1d_undoes_choice(channel_of(raw, channels, last), readings[last]);
    if last > 0 {
        lemma_joined_parts(raw, channels, readings, last as nat, if c < last {
            c
        } else {
            0
        });
    }
    let joined = joined_channels(raw, channels, readings, count);
    assert(joined == before + piece);
    if c < last {
        lemma_offset_monotonic(n, channels, c + 1, last);
        assert(channel_part(joined, channels, n, c) =~= channel_part(before, channels, n, c));
    } else {
        assert(channel_part(joined, channels, n, c) =~= piece);
    }
}

proof fn lemma_offset_monotonic(n: int, channels: int, a: int, b: int)
    requires
        n >= 0,
        0 <= a <= b <= channels,
        channels > 0,
    ensures
        channel_offset(n, channels, a) <= channel_offset(n, channels, b),
    decreases b - a,
{
    if a < b {
        lemma_channel_offset(n, channels, a);
        lemma_offset_monotonic(n, channels, a + 1, b);
    }
}

/// Decoding and interleaving the channels undoes splitting and encoding them, whatever
/// the readings that the models were chosen by.
pub proof fn merging_undoes_joining(raw: Seq<u8>, channels: int, readings: Seq<Seq<u64>>)
    requires
        channels > 0,
    ensures
        joined_channels(raw, channels, readings, channels as nat).len() == raw.len() + channels,
        merged_channels(
            joined_channels(raw, channels, readings, channels as nat),
            channels,
            raw.len(),
        ) == raw,
{
    let n = raw.len() as int;
    let joined = joined_channels(raw, channels, readings, channels as nat);
    let merged = merged_channels(joined, channels, raw.len());
    lemma_channel_offset(n, channels, 0);
    lemma_joined_parts(raw, channels, readings, channels as nat, 0);
    assert forall|j: int| 0 <= j < n implies merged[j] == raw[j] by {
        let c = j % channels;
        lemma_index_in_channel(n, channels, j);
        lemma_joined_parts(raw, channels, readings, channels as nat, c);
        crate::predict::decoding_1d_undoes_choice(channel_of(raw, channels, c), readings[c]);
    }
    assert(merged =~= raw);
}

/// The encoded channels depend on the data alone, where `measure` gives one result for one
/// input.
pub proof fn channels_are_encoded_alike<M: Fn(&[usize], usize) -> u64>(
    measure: M,
    raw: Seq<u8>,
    channels: int,
    a: Seq<Seq<u64>>,
    b: Seq<Seq<u64>>,
    count: nat,
)
    requires
        crate::entropy::functional_measure(measure),
        count <= channels,
        channel_readings(measure, raw, channels, a),
        channel_readings(measure, raw, channels, b),
    ensures
        joined_channels(raw, channels, a, count) == joined_channels(raw, channels, b, count),
    decreases count,
{
    if count > 0 {
        let c = count - 1;
        channels_are_encoded_alike(measure, raw, channels, a, b, c as nat);
        crate::predict::channel_is_encoded_alike(
            measure,
            channel_of(raw, channels, c),
            a[c],
            b[c],
        );
    }
}

/// Taking the data apart loses nothing and adds nothing: byte `j` is byte `j / channels`
/// of channel `j % channels`, and the channels are no longer than that takes. With
/// `n = channels * q + r` the first `r` of them have `q + 1` bytes and the others `q`.
pub proof fn channels_hold_every_byte(raw: Seq<u8>, channels: int, j: int, c: int)
    requires
        0 <= c < channels,
    ensures
        0 <= j < raw.len() ==> j / channels < channel_of(raw, channels, j % channels).len()
            && channel_of(raw, channels, j % channels)[j / channels] == raw[j],
        c < raw.len() as int % channels ==> channel_of(raw, channels, c).len() == raw.len() as int
            / channels + 1,
        c >= raw.len() as int % channels ==> channel_of(raw, channels, c).len() == raw.len() as int
            / channels,
{
    if 0 <= j < raw.len() {
        lemma_index_in_channel(raw.len() as int, channels, j);
    }
    lemma_channel_offset(raw.len() as int, channels, c);
}

/// Each channel has readings of its own, and the encoded channels follow one another:
/// with `n = channels * q + r` that of channel `c` stands behind `c` mode bytes, `c * q`
/// bytes and one more byte for each channel before it that is longer.
pub proof fn channels_follow_one_another<M: Fn(&[usize], usize) -> u64>(
    measure: M,
    raw: Seq<u8>,
    channels: int,
    readings: Seq<Seq<u64>>,
    c: int,
)
    requires
        0 <= c < channels,
        channel_readings(measure, raw, channels, readings),
    ensures
        readings.len() == channels,
        crate::predict::mode_readings(measure, channel_of(raw, channels, c), readings[c]),
        ({
            let n = raw.len() as int;
            let joined = joined_channels(raw, channels, readings, channels as nat);
            let at = c + c * (n / channels) + if c <= n % channels {
                c
            } else {
                n % channels
            };
            let kept = crate::predict::chosen_1d(channel_of(raw, channels, c), readings[c]);
            &&& joined.len() == n + channels
            &&& 0 <= at <= at + kept.len() <= joined.len()
            &&& joined.subrange(at, at + kept.len()) == kept
        }),
{
    let n = raw.len() as int;
    assert(readings[c] == readings[c]);
    lemma_channel_offset(n, channels, c);
    lemma_joined_parts(raw, channels, readings, channels as nat, c);
    crate::predict::decoding_1d_undoes_choice(channel_of(raw, channels, c), readings[c]);
    assert(c * (n / channels + 1) == c + c * (n / channels)) by (nonlinear_arith);
}

/// Encoding what was merged gives back what was read, channel by channel: whatever mode
/// byte and residuals stand where channel `c` is due, they are the encoded form of every
/// `channels`-th byte of the result from byte `c` on. Nothing behind the last channel
/// counts, and without channels the result is zeros.
pub proof fn joining_undoes_merging(joined: Seq<u8>, channels: int, n: nat, c: int)
    requires
        channels > 0 ==> 0 <= c < channels && joined.len() >= n + channels,
    ensures
        merged_channels(joined, channels, n).len() == n,
        channels == 0 ==> merged_channels(joined, channels, n) == Seq::new(n, |j: int| 0u8),
        channels > 0 ==> {
            let merged = merged_channels(joined, channels, n);
            let at = c + c * (n as int / channels) + if c <= n as int % channels {
                c
            } else {
                n as int % channels
            };
            let len = channel_of(merged, channels, c).len();
            &&& 0 <= at < at + len + 1 <= n + channels
            &&& joined.subrange(at, at + len + 1) == crate::predict::encoded_1d(
                joined[at],
                channel_of(merged, channels, c),
            )
            &&& merged == merged_channels(joined.take(n + channels), channels, n)
        },
{
    let merged = merged_channels(joined, channels, n);
    if channels == 0 {
        assert(merged =~= Seq::new(n, |j: int| 0u8));
    }
    if channels > 0 {
        let m = n as int;
        let channel = channel_of(merged, channels, c);
        let part = channel_part(joined, channels, m, c);
        lemma_channel_offset(m, channels, c);
        assert(c * (m / channels + 1) == c + c * (m / channels)) by (nonlinear_arith);
        crate::predict::encoding_1d_undoes_decoding(part);
        assert(channel.len() == channel_len(m, channels, c));
        assert forall|k: int| 0 <= k < channel.len() implies channel[k]
            == crate::predict::decoded_1d(part)[k] by {
            lemma_channel_index(m, channels, c, k);
        }
        assert(channel =~= crate::predict::decoded_1d(part));
        let cut = joined.take(m + channels);
        assert forall|j: int| 0 <= j < n implies merged[j] == merged_channels(
            cut,
            channels,
            n,
        )[j] by {
            lemma_index_in_channel(m, channels, j);
            lemma_channel_offset(m, channels, j % channels);
            assert(channel_part(joined, channels, m, j % channels) =~= channel_part(
                cut,
                channels,
                m,
                j % channels,
            ));
        }
        assert(merged =~= merged_channels(cut, channels, n));
    }
}

} // verus!
