//! Entropy readings.
//!
//! The analysis compares Shannon entropies, which are floating-point numbers. Here a
//! reading is carried as the IEEE 754 bit pattern of a non-negative `f64`: on such
//! numbers the order of the bit patterns is the order of the numbers, so every
//! comparison is one of integers. The caller supplies the formula itself, as a function
//! from a byte histogram and the number of bytes to a reading.

use vstd::prelude::*;

verus! {

/// 7.95 bits per byte. Data above it counts as compressed already.
pub const READING_INCOMPRESSIBLE: u64 = 0x401f_cccc_cccc_cccd;

/// 0.99, the factor by which a transform has to lower the entropy to be kept.
pub const READING_GAIN: u64 = 0x3fef_ae14_7ae1_47ae;

/// How often each byte value occurs in `data`.
pub open spec fn histogram(data: Seq<u8>) -> Seq<usize> {
    Seq::new(256, |b: int| data.to_multiset().count(b as u8) as usize)
}

/// `reading` is a value that `measure` may return for `data`.
pub open spec fn reads<M: Fn(&[usize], usize) -> u64>(measure: M, data: Seq<u8>, reading: u64) -> bool {
    exists|counts: &[usize]|
        counts@ == histogram(data) && #[trigger] call_ensures(
            measure,
            (counts, data.len() as usize),
            reading,
        )
}

/// `measure` can be applied to any histogram.
pub open spec fn total_measure<M: Fn(&[usize], usize) -> u64>(measure: M) -> bool {
    forall|counts: &[usize], len: usize| #[trigger] call_requires(measure, (counts, len))
}

/// Counts the occurrences of each byte value.
pub fn byte_histogram(data: &[u8]) -> (counts: Vec<usize>)
    ensures
        counts@ == histogram(data@),
{
    let mut counts: Vec<usize> = vec![0usize; 256];
    proof {
        broadcast use vstd::seq_lib::group_to_multiset_ensures;

        assert(counts@ =~= histogram(data@.take(0)));
    }
    for i in 0..data.len()
        invariant
            counts@ =~= histogram(data@.take(i as int)),
    {
        let b: usize = data[i] as usize;
        proof {
            broadcast use vstd::seq_lib::group_to_multiset_ensures;

            let before = data@.take(i as int);
            let after = data@.take(i + 1);
            assert(after == before.push(data@[i as int]));
            assert(after.to_multiset() =~= before.to_multiset().insert(data@[i as int]));
            assert(before.to_multiset().len() == before.len());
        }
        let n: usize = counts[b];
        counts[b] = n + 1;
    }
    assert(data@.take(data@.len() as int) == data@);
    counts
}

/// The entropy reading of `data`: `measure` applied to its histogram and length.
pub fn calculate_shannon_entropy<M: Fn(&[usize], usize) -> u64>(data: &[u8], measure: &M) -> (reading: u64)
    requires
        total_measure(*measure),
    ensures
        reads(*measure, data@, reading),
{
    let counts = byte_histogram(data);
    let slice = counts.as_slice();
    let len: usize = data.len();
    let reading: u64 = measure(slice, len);
    assert(slice@ == histogram(data@));
    assert(len == data@.len() as usize);
    assert(call_ensures(*measure, (slice, len), reading));
    reading
}

/// The sum of all counts.
pub open spec fn count_total(counts: Seq<usize>) -> int
    decreases counts.len(),
{
    if counts.len() == 0 {
        0
    } else {
        count_total(counts.drop_last()) + counts.last()
    }
}

proof fn lemma_total_of_zeros(counts: Seq<usize>)
    requires
        forall|i: int| 0 <= i < counts.len() ==> counts[i] == 0,
    ensures
        count_total(counts) == 0,
    decreases counts.len(),
{
    if counts.len() > 0 {
        lemma_total_of_zeros(counts.drop_last());
    }
}

proof fn lemma_total_of_update(counts: Seq<usize>, at: int, count: usize)
    requires
        0 <= at < counts.len(),
    ensures
        count_total(counts.update(at, count)) == count_total(counts) - counts[at] + count,
    decreases counts.len(),
{
    let updated = counts.update(at, count);
    if at == counts.len() - 1 {
        assert(updated.drop_last() =~= counts.drop_last());
    } else {
        lemma_total_of_update(counts.drop_last(), at, count);
        assert(updated.drop_last() =~= counts.drop_last().update(at, count));
    }
}

/// A histogram has a count for each of the 256 byte values, and they add up to the number
/// of bytes.
pub proof fn histogram_counts_every_byte(data: Seq<u8>)
    requires
        data.len() <= usize::MAX,
    ensures
        histogram(data).len() == 256,
        count_total(histogram(data)) == data.len(),
    decreases data.len(),
{
    broadcast use vstd::seq_lib::group_to_multiset_ensures;

    if data.len() == 0 {
        assert(data =~= Seq::empty());
        lemma_total_of_zeros(histogram(data));
    } else {
        let before = data.drop_last();
        let b = data.last();
        histogram_counts_every_byte(before);
        assert(data =~= before.push(b));
        assert(data.to_multiset() =~= before.to_multiset().insert(b));
        assert(before.to_multiset().len() == before.len());
        let count = (histogram(before)[b as int] + 1) as usize;
        assert(histogram(data) =~= histogram(before).update(b as int, count));
        lemma_total_of_update(histogram(before), b as int, count);
    }
}

/// `measure` gives one result for one histogram and length.
pub open spec fn functional_measure<M: Fn(&[usize], usize) -> u64>(measure: M) -> bool {
    forall|a: &[usize], b: &[usize], len: usize, x: u64, y: u64|
        a@ == b@ && #[trigger] call_ensures(measure, (a, len), x) && #[trigger] call_ensures(
            measure,
            (b, len),
            y,
        ) ==> x == y
}

/// Only the number of each byte value matters, not the order: data with equal counts has
/// the same histogram and the same readings.
pub proof fn order_plays_no_part<M: Fn(&[usize], usize) -> u64>(
    measure: M,
    a: Seq<u8>,
    b: Seq<u8>,
)
    requires
        a.to_multiset() == b.to_multiset(),
    ensures
        a.len() == b.len(),
        histogram(a) == histogram(b),
        forall|reading: u64| reads(measure, a, reading) <==> reads(measure, b, reading),
        functional_measure(measure) ==> forall|x: u64, y: u64|
            #[trigger] reads(measure, a, x) && #[trigger] reads(measure, b, y) ==> x == y,
{
    broadcast use vstd::seq_lib::group_to_multiset_ensures;

    assert(a.to_multiset().len() == a.len());
    assert(b.to_multiset().len() == b.len());
    assert(histogram(a) =~= histogram(b));
}

/// A histogram starts at zero, and one more byte raises the count of its value by one and
/// no other.
pub proof fn one_more_byte_counts_once(data: Seq<u8>, b: u8, v: int)
    requires
        data.len() < usize::MAX,
        0 <= v < 256,
    ensures
        histogram(Seq::empty()).len() == 256,
        histogram(Seq::empty())[v] == 0,
        histogram(data).len() == 256,
        histogram(data.push(b))[v] == histogram(data)[v] + if v == b {
            1int
        } else {
            0
        },
{
    broadcast use vstd::seq_lib::group_to_multiset_ensures;

    assert(data.push(b).to_multiset() =~= data.to_multiset().insert(b));
    assert(data.to_multiset().len() == data.len());
}

/// A reading of `data` is one that `measure` gives for the number of occurrences of each
/// of the 256 byte values and the length of all of `data`.
pub proof fn readings_are_of_counts_and_length<M: Fn(&[usize], usize) -> u64>(
    measure: M,
    data: Seq<u8>,
    reading: u64,
)
    requires
        data.len() <= usize::MAX,
    ensures
        reads(measure, data, reading) <==> exists|counts: &[usize]|
            {
                &&& counts@.len() == 256
                &&& forall|v: int|
                    0 <= v < 256 ==> #[trigger] counts@[v] == data.to_multiset().count(v as u8)
                &&& #[trigger] call_ensures(measure, (counts, data.len() as usize), reading)
            },
{
    broadcast use vstd::seq_lib::group_to_multiset_ensures;

    assert(data.to_multiset().len() == data.len());
    assert forall|v: int| 0 <= v < 256 implies #[trigger] histogram(data)[v]
        == data.to_multiset().count(v as u8) by {
        assert(data.to_multiset().count(v as u8) <= data.to_multiset().len());
    }
    if reads(measure, data, reading) {
        let counts = choose|counts: &[usize]|
            counts@ == histogram(data) && #[trigger] call_ensures(
                measure,
                (counts, data.len() as usize),
                reading,
            );
        assert forall|v: int| 0 <= v < 256 implies #[trigger] counts@[v]
            == data.to_multiset().count(v as u8) by {
            assert(histogram(data)[v] == counts@[v]);
        }
        assert(call_ensures(measure, (counts, data.len() as usize), reading));
    }
    assert forall|counts: &[usize]|
        ({
            &&& counts@.len() == 256
            &&& forall|v: int|
                0 <= v < 256 ==> #[trigger] counts@[v] == data.to_multiset().count(v as u8)
            &&& #[trigger] call_ensures(measure, (counts, data.len() as usize), reading)
        }) implies reads(measure, data, reading) by {
        assert(counts@ =~= histogram(data));
    }
}

/// Any function that takes every histogram and length will do as a measure.
pub proof fn any_total_function_measures<M: Fn(&[usize], usize) -> u64>(measure: M)
    requires
        forall|counts: &[usize], len: usize| #[trigger] call_requires(measure, (counts, len)),
    ensures
        total_measure(measure),
{
}

} // verus!
