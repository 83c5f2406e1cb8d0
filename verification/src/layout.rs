//! Layout analysis: how many interleaved channels the data has, and how long its rows
//! are, judged by how little bytes differ from those one pixel or one row before.

use vstd::prelude::*;
use vstd::slice::slice_subrange;

verus! {

/// The analysis looks at no more than this many bytes.
pub const SAMPLE_LIMIT: usize = 60_000;

/// The largest number of channels that is tried.
pub const CHANNEL_LIMIT: usize = 8;

/// A row stride is judged by this many bytes.
pub const ROW_WINDOW: usize = 3_000;

/// The part of `raw` that is analysed.
pub open spec fn sample_of(raw: Seq<u8>) -> Seq<u8> {
    if raw.len() <= SAMPLE_LIMIT {
        raw
    } else {
        raw.take(SAMPLE_LIMIT as int)
    }
}

/// How far two bytes are apart.
pub open spec fn distance(a: u8, b: u8) -> int {
    if a >= b {
        a - b
    } else {
        b - a
    }
}

/// The sum of the distances of the bytes from `lag` up to `end` to those `lag` before them.
pub open spec fn lag_sum(s: Seq<u8>, lag: int, end: int) -> int
    decreases end - lag,
{
    if end <= lag {
        0
    } else {
        lag_sum(s, lag, end - 1) + distance(s[end - 1], s[end - 1 - lag])
    }
}

/// How badly `lag` fits: the sum of distances over the first `window` bytes that have a
/// byte `lag` before them.
pub open spec fn lag_score(s: Seq<u8>, lag: int, window: int) -> int {
    lag_sum(s, lag, if lag + window <= s.len() { lag + window } else { s.len() as int })
}

/// Tries the lags `first`, `first + step` and so on up to `last` against a lag and score
/// to beat, and keeps the first of the least score.
pub open spec fn least_lag(
    s: Seq<u8>,
    window: int,
    first: int,
    step: int,
    last: int,
    best: (int, int),
) -> (int, int)
    decreases last - first,
{
    if step <= 0 || first > last {
        best
    } else {
        let score = lag_score(s, first, window);
        let better = if score < best.1 {
            (first, score)
        } else {
            best
        };
        if first + step > last {
            better
        } else {
            least_lag(s, window, first + step, step, last, better)
        }
    }
}

/// The number of channels of the sample `s` and its score.
pub open spec fn channels_of(s: Seq<u8>) -> (int, int) {
    least_lag(s, s.len() as int, 1, 1, CHANNEL_LIMIT as int, (1, u64::MAX as int))
}

/// The shortest row that is tried for the given number of channels.
pub open spec fn shortest_row(channels: int) -> int {
    channels * 10
}

/// The longest row that is tried in a sample of `len` bytes.
pub open spec fn longest_row(channels: int, len: int) -> int {
    if channels * 4000 <= len / 4 {
        channels * 4000
    } else {
        len / 4
    }
}

/// The best row stride on the coarse grid of every eighth pixel.
pub open spec fn coarse_row(s: Seq<u8>, channels: int) -> int {
    least_lag(
        s,
        ROW_WINDOW as int,
        shortest_row(channels),
        channels * 8,
        longest_row(channels, s.len() as int),
        (shortest_row(channels), u64::MAX as int),
    ).0
}

/// The row stride of the sample `s` and its score, given the number of channels and
/// their score. A stride has to score below twice the channel score; where none does, or
/// the sample is too short to hold rows, it is the number of channels.
pub open spec fn row_of(s: Seq<u8>, channels: int, score_1d: int) -> (int, int) {
    let shortest = shortest_row(channels);
    let longest = longest_row(channels, s.len() as int);
    let start = (channels, score_1d * 2);
    if longest > shortest {
        let coarse = coarse_row(s, channels);
        let low = if coarse - channels * 8 >= shortest {
            coarse - channels * 8
        } else {
            shortest
        };
        let high = if coarse + channels * 8 <= longest {
            coarse + channels * 8
        } else {
            longest
        };
        least_lag(s, ROW_WINDOW as int, low, channels, high, start)
    } else {
        start
    }
}

/// What the analysis found: channels and row stride, each with its score.
#[derive(Debug, Clone, Copy)]
pub struct Layout {
    pub channels: usize,
    pub score_1d: u64,
    pub row_stride: usize,
    pub score_2d: u64,
}

/// The layout of `raw` as mathematical integers: channels, their score, row stride, its
/// score.
pub open spec fn layout_of(raw: Seq<u8>) -> (int, int, int, int) {
    let s = sample_of(raw);
    let (channels, score_1d) = channels_of(s);
    let (row_stride, score_2d) = row_of(s, channels, score_1d);
    (channels, score_1d, row_stride, score_2d)
}

impl View for Layout {
    type V = (int, int, int, int);

    open spec fn view(&self) -> (int, int, int, int) {
        (self.channels as int, self.score_1d as int, self.row_stride as int, self.score_2d as int)
    }
}

/// `layout` says that the data is worth a try as rows: the rows are long enough and fit
/// better than the channels alone.
pub open spec fn has_rows(layout: (int, int, int, int)) -> bool {
    layout.2 >= 256 && layout.3 < layout.1
}

impl Layout {
    /// Whether the two-dimensional filter is worth a try.
    pub fn has_rows(&self) -> (yes: bool)
        ensures
            yes == has_rows(self@),
            yes == (self.row_stride >= 256 && self.score_2d < self.score_1d),
    {
        self.row_stride >= 256 && self.score_2d < self.score_1d
    }
}

/// The score of one lag.
fn score_lag(s: &[u8], lag: usize, window: usize) -> (score: u64)
    requires
        s@.len() <= SAMPLE_LIMIT,
        lag + window <= usize::MAX,
    ensures
        score == lag_score(s@, lag as int, window as int),
        score <= 255 * SAMPLE_LIMIT,
{
    let end: usize = if lag + window <= s.len() {
        lag + window
    } else {
        s.len()
    };
    let mut score: u64 = 0;
    let mut i: usize = lag;
    while i < end
        invariant
            s@.len() <= SAMPLE_LIMIT,
            end <= s@.len(),
            lag <= i,
            i <= end || i == lag,
            score == lag_sum(s@, lag as int, i as int),
            score <= 255 * i,
            i == lag ==> score == 0,
        decreases end - i,
    {
        let a: u8 = s[i];
        let b: u8 = s[i - lag];
        let d: u8 = if a >= b {
            a - b
        } else {
            b - a
        };
        score = score + d as u64;
        i = i + 1;
    }
    score
}

/// Keeps the first lag of the least score, as `least_lag` says.
fn find_least_lag(
    s: &[u8],
    window: usize,
    first: usize,
    step: usize,
    last: usize,
    start: (usize, u64),
) -> (best: (usize, u64))
    requires
        s@.len() <= SAMPLE_LIMIT,
        0 < step <= SAMPLE_LIMIT,
        last <= SAMPLE_LIMIT,
        window <= SAMPLE_LIMIT,
    ensures
        (best.0 as int, best.1 as int) == least_lag(
            s@,
            window as int,
            first as int,
            step as int,
            last as int,
            (start.0 as int, start.1 as int),
        ),
{
    let mut best: (usize, u64) = start;
    let mut lag: usize = first;
    while lag <= last
        invariant
            s@.len() <= SAMPLE_LIMIT,
            0 < step <= SAMPLE_LIMIT,
            last <= SAMPLE_LIMIT,
            window <= SAMPLE_LIMIT,
            least_lag(
                s@,
                window as int,
                lag as int,
                step as int,
                last as int,
                (best.0 as int, best.1 as int),
            ) == least_lag(
                s@,
                window as int,
                first as int,
                step as int,
                last as int,
                (start.0 as int, start.1 as int),
            ),
        decreases last + step - lag,
    {
        let score: u64 = score_lag(s, lag, window);
        if score < best.1 {
            best = (lag, score);
        }
        lag = lag + step;
    }
    best
}

/// Finds the layout of `raw` from a sample at its start.
pub fn find_layout(raw: &[u8]) -> (layout: Layout)
    ensures
        layout@ == layout_of(raw@),
        layout.channels == layout_of(raw@).0,
        layout.score_1d == layout_of(raw@).1,
        layout.row_stride == layout_of(raw@).2,
        layout.score_2d == layout_of(raw@).3,
        1 <= layout.channels <= 8,
        layout.score_1d == lag_score(raw@, layout.channels as int, 60_000 - layout.channels),
        forall|c: int|
            1 <= c <= 8 ==> {
                &&& layout.score_1d <= #[trigger] lag_score(raw@, c, 60_000 - c)
                &&& c < layout.channels ==> layout.score_1d < lag_score(raw@, c, 60_000 - c)
            },
{
    let s = if raw.len() <= SAMPLE_LIMIT {
        raw
    } else {
        slice_subrange(raw, 0, SAMPLE_LIMIT)
    };
    assert(s@ == sample_of(raw@));
    let len: usize = s.len();
    let (channels, score_1d) = find_least_lag(s, len, 1, 1, CHANNEL_LIMIT, (1, u64::MAX));
    proof {
        layout_is_aligned(raw@);
        channels_fit_best(raw@);
        lemma_least_lag_bounds(s@, len as int, 1, 1, CHANNEL_LIMIT as int, (1, u64::MAX as int));
    }
    let shortest: usize = channels * 10;
    let longest: usize = if channels * 4000 <= len / 4 {
        channels * 4000
    } else {
        len / 4
    };
    let mut row: (usize, u64) = (channels, score_1d * 2);
    if longest > shortest {
        let step: usize = channels * 8;
        let (coarse, _coarse_score) = find_least_lag(
            s,
            ROW_WINDOW,
            shortest,
            step,
            longest,
            (shortest, u64::MAX),
        );
        let low: usize = if coarse >= step && coarse - step >= shortest {
            coarse - step
        } else {
            shortest
        };
        let high: usize = if coarse <= longest && step <= longest - coarse {
            coarse + step
        } else {
            longest
        };
        row = find_least_lag(s, ROW_WINDOW, low, channels, high, row);
    }
    Layout { channels, score_1d, row_stride: row.0, score_2d: row.1 }
}

// ---------------------------------------------------------------------------
// Laws
// ---------------------------------------------------------------------------

/// `lag` is one of the lags `first`, `first + step` and so on up to `last`.
pub open spec fn on_grid(first: int, step: int, last: int, lag: int) -> bool {
    first <= lag <= last && (lag - first) % step == 0
}

proof fn lemma_grid_step(first: int, step: int, last: int, lag: int)
    requires
        step > 0,
    ensures
        on_grid(first, step, last, lag) <==> (first <= last && lag == first) || on_grid(
            first + step,
            step,
            last,
            lag,
        ),
{
    let d = lag - first;
    vstd::arithmetic::div_mod::lemma_mod_sub_multiples_vanish(d, step);
    assert(lag - (first + step) == d - step);
    if 0 <= d < step {
        vstd::arithmetic::div_mod::lemma_small_mod(d as nat, step as nat);
    }
    vstd::arithmetic::div_mod::lemma_small_mod(0, step as nat);
}

/// The lag that `least_lag` keeps is the first of the least score among those tried and
/// the one to beat; it is the one to beat unless one of those tried scores less.
pub proof fn least_lag_is_first_minimum(
    s: Seq<u8>,
    window: int,
    first: int,
    step: int,
    last: int,
    best: (int, int),
)
    requires
        step > 0,
    ensures
        ({
            let kept = least_lag(s, window, first, step, last, best);
            &&& kept.1 <= best.1
            &&& forall|lag: int|
                on_grid(first, step, last, lag) ==> kept.1 <= #[trigger] lag_score(s, lag, window)
            &&& kept != best ==> {
                &&& on_grid(first, step, last, kept.0)
                &&& kept.1 == lag_score(s, kept.0, window)
                &&& kept.1 < best.1
                &&& forall|lag: int|
                    on_grid(first, step, last, lag) && lag < kept.0 ==> kept.1
                        < #[trigger] lag_score(s, lag, window)
            }
        }),
    decreases last - first,
{
    let kept = least_lag(s, window, first, step, last, best);
    if first <= last {
        let score = lag_score(s, first, window);
        let better = if score < best.1 {
            (first, score)
        } else {
            best
        };
        if first + step <= last {
            least_lag_is_first_minimum(s, window, first + step, step, last, better);
        }
        assert forall|lag: int| on_grid(first, step, last, lag) implies kept.1
            <= #[trigger] lag_score(s, lag, window) by {
            lemma_grid_step(first, step, last, lag);
        }
        lemma_grid_step(first, step, last, kept.0);
        lemma_grid_step(first, step, last, first);
        assert forall|lag: int|
            kept != best && on_grid(first, step, last, lag) && lag < kept.0 implies kept.1
            < #[trigger] lag_score(s, lag, window) by {
            lemma_grid_step(first, step, last, lag);
        }
    }
}

proof fn lemma_lag_sum_bounds(s: Seq<u8>, lag: int, end: int)
    ensures
        0 <= lag_sum(s, lag, end),
        end >= lag ==> lag_sum(s, lag, end) <= 255 * (end - lag),
        end <= lag ==> lag_sum(s, lag, end) == 0,
    decreases end - lag,
{
    if end > lag {
        lemma_lag_sum_bounds(s, lag, end - 1);
    }
}

proof fn lemma_lag_score_bounds(s: Seq<u8>, lag: int, window: int)
    requires
        s.len() <= SAMPLE_LIMIT,
        lag >= 0,
    ensures
        0 <= lag_score(s, lag, window) <= 255 * SAMPLE_LIMIT,
{
    let end = if lag + window <= s.len() {
        lag + window
    } else {
        s.len() as int
    };
    lemma_lag_sum_bounds(s, lag, end);
}

/// A search over at least one lag from a bound that every score beats ends on the grid.
proof fn lemma_least_lag_bounds(
    s: Seq<u8>,
    window: int,
    first: int,
    step: int,
    last: int,
    best: (int, int),
)
    requires
        s.len() <= SAMPLE_LIMIT,
        step > 0,
        0 <= first <= last,
        best.1 == u64::MAX,
    ensures
        ({
            let kept = least_lag(s, window, first, step, last, best);
            &&& on_grid(first, step, last, kept.0)
            &&& kept.1 == lag_score(s, kept.0, window)
            &&& 0 <= kept.1 <= 255 * SAMPLE_LIMIT
        }),
{
    let kept = least_lag(s, window, first, step, last, best);
    least_lag_is_first_minimum(s, window, first, step, last, best);
    lemma_grid_step(first, step, last, first);
    lemma_lag_score_bounds(s, first, window);
    lemma_lag_score_bounds(s, kept.0, window);
}

proof fn lemma_multiple_offset(base: int, off: int, d: int)
    requires
        d > 0,
        base % d == 0,
        off % d == 0,
    ensures
        (base + off) % d == 0,
        (base - off) % d == 0,
{
    vstd::arithmetic::div_mod::lemma_add_mod_noop(base, off, d);
    vstd::arithmetic::div_mod::lemma_sub_mod_noop(base, off, d);
    vstd::arithmetic::div_mod::lemma_small_mod(0, d as nat);
}

/// Whatever the data, the layout has one to eight channels and a row stride that is a
/// positive multiple of them, so that rows hold whole pixels.
pub proof fn layout_is_aligned(raw: Seq<u8>)
    ensures
        ({
            let layout = layout_of(raw);
            &&& 1 <= layout.0 <= CHANNEL_LIMIT
            &&& layout.2 >= layout.0
            &&& layout.2 % layout.0 == 0
            &&& layout.2 == layout.0 || shortest_row(layout.0) <= layout.2 <= longest_row(
                layout.0,
                sample_of(raw).len() as int,
            )
        }),
{
    let s = sample_of(raw);
    let c = channels_of(s).0;
    let score_1d = channels_of(s).1;
    lemma_least_lag_bounds(s, s.len() as int, 1, 1, CHANNEL_LIMIT as int, (1, u64::MAX as int));
    let shortest = shortest_row(c);
    let longest = longest_row(c, s.len() as int);
    let start = (c, score_1d * 2);
    assert(c % c == 0) by (nonlinear_arith)
        requires
            c > 0,
    ;
    if longest > shortest {
        let coarse = coarse_row(s, c);
        lemma_least_lag_bounds(
            s,
            ROW_WINDOW as int,
            shortest,
            c * 8,
            longest,
            (shortest, u64::MAX as int),
        );
        assert(shortest % c == 0 && (c * 8) % c == 0) by (nonlinear_arith)
            requires
                c > 0,
                shortest == c * 10,
        ;
        assert((coarse - shortest) % c == 0) by (nonlinear_arith)
            requires
                c > 0,
                (coarse - shortest) % (c * 8) == 0,
        {
            let q = (coarse - shortest) / (c * 8);
            assert(coarse - shortest == c * (8 * q));
            vstd::arithmetic::div_mod::lemma_mod_multiples_basic(8 * q, c);
        }
        lemma_multiple_offset(coarse - shortest, shortest, c);
        lemma_multiple_offset(coarse, c * 8, c);
        let low = if coarse - c * 8 >= shortest {
            coarse - c * 8
        } else {
            shortest
        };
        let high = if coarse + c * 8 <= longest {
            coarse + c * 8
        } else {
            longest
        };
        let row = least_lag(s, ROW_WINDOW as int, low, c, high, start);
        least_lag_is_first_minimum(s, ROW_WINDOW as int, low, c, high, start);
        if row != start {
            lemma_multiple_offset(row.0 - low, low, c);
        }
    }
}

proof fn lemma_lag_sum_push(s: Seq<u8>, b: u8, lag: int, end: int)
    requires
        lag >= 1,
        end <= s.len(),
    ensures
        lag_sum(s.push(b), lag, end) == lag_sum(s, lag, end),
    decreases end - lag,
{
    if end > lag {
        lemma_lag_sum_push(s, b, lag, end - 1);
    }
}

/// The score of a lag in numbers: it starts at zero, and one more byte adds its absolute
/// difference to the byte `lag` before it, if there is one and the window reaches that
/// far, and else nothing.
pub proof fn score_adds_absolute_differences(s: Seq<u8>, b: u8, lag: int, window: int)
    requires
        lag >= 1,
        window >= 0,
    ensures
        lag_score(Seq::empty(), lag, window) == 0,
        s.len() < lag ==> lag_score(s.push(b), lag, window) == lag_score(s, lag, window),
        s.len() >= lag + window ==> lag_score(s.push(b), lag, window) == lag_score(s, lag, window),
        lag <= s.len() < lag + window && b >= s[s.len() - lag] ==> lag_score(
            s.push(b),
            lag,
            window,
        ) == lag_score(s, lag, window) + (b - s[s.len() - lag]),
        lag <= s.len() < lag + window && b <= s[s.len() - lag] ==> lag_score(
            s.push(b),
            lag,
            window,
        ) == lag_score(s, lag, window) + (s[s.len() - lag] - b),
{
    let n = s.len() as int;
    let end = if lag + window <= n {
        lag + window
    } else {
        n
    };
    lemma_lag_sum_push(s, b, lag, end);
    lemma_lag_sum_bounds(Seq::empty(), lag, 0);
    lemma_lag_sum_bounds(s, lag, n);
    lemma_lag_sum_bounds(s.push(b), lag, n + 1);
}

proof fn lemma_lag_sum_prefix(s: Seq<u8>, len: int, lag: int, end: int)
    requires
        lag >= 1,
        end <= len <= s.len(),
    ensures
        lag_sum(s.take(len), lag, end) == lag_sum(s, lag, end),
    decreases end - lag,
{
    if end > lag {
        lemma_lag_sum_prefix(s, len, lag, end - 1);
    }
}

/// The sample scores a lag as the data does within the first 60,000 bytes.
proof fn lemma_sample_score(raw: Seq<u8>, lag: int, window: int)
    requires
        lag >= 1,
    ensures
        lag + window <= 60_000 ==> lag_score(sample_of(raw), lag, window) == lag_score(
            raw,
            lag,
            window,
        ),
        lag <= 60_000 ==> lag_score(sample_of(raw), lag, sample_of(raw).len() as int) == lag_score(
            raw,
            lag,
            60_000 - lag,
        ),
{
    if raw.len() > 60_000 {
        if lag + window <= 60_000 {
            lemma_lag_sum_prefix(raw, 60_000, lag, lag + window);
        }
        lemma_lag_sum_prefix(raw, 60_000, lag, 60_000);
    }
}

/// The number of channels is the lag from one to eight that fits the first 60,000 bytes
/// best, the least of them where several fit equally well.
pub proof fn channels_fit_best(raw: Seq<u8>)
    ensures
        ({
            let (channels, score, _, _) = layout_of(raw);
            &&& 1 <= channels <= 8
            &&& score == lag_score(raw, channels, 60_000 - channels)
            &&& forall|c: int|
                1 <= c <= 8 ==> {
                    &&& score <= #[trigger] lag_score(raw, c, 60_000 - c)
                    &&& c < channels ==> score < lag_score(raw, c, 60_000 - c)
                }
        }),
{
    let s = sample_of(raw);
    let n = s.len() as int;
    let kept = channels_of(s);
    lemma_least_lag_bounds(s, n, 1, 1, 8, (1, u64::MAX as int));
    least_lag_is_first_minimum(s, n, 1, 1, 8, (1, u64::MAX as int));
    assert forall|c: int| 1 <= c <= 8 implies {
        &&& kept.1 <= #[trigger] lag_score(raw, c, 60_000 - c)
        &&& c < kept.0 ==> kept.1 < lag_score(raw, c, 60_000 - c)
    } by {
        assert(on_grid(1, 1, 8, c));
        lemma_sample_score(raw, c, n);
        assert(kept.1 <= lag_score(s, c, n));
    }
    lemma_sample_score(raw, kept.0, n);
}

/// How the row stride is found. Rows of ten to four thousand pixels are tried, up to a
/// quarter of the first 60,000 bytes, and judged by 3,000 bytes: first every eighth
/// pixel, then every pixel up to eight around the best of those. The stride is the best
/// of the latter where it scores below twice the score of the channels, and else, as
/// where the data is too short for rows, the number of channels.
pub proof fn row_fits_best(raw: Seq<u8>)
    ensures
        ({
            let (c, score_1d, row, score) = layout_of(raw);
            let quarter = if raw.len() <= 60_000 {
                raw.len() as int / 4
            } else {
                15_000
            };
            let longest = if 4_000 * c <= quarter {
                4_000 * c
            } else {
                quarter
            };
            &&& longest <= 10 * c ==> row == c && score == 2 * score_1d
            &&& longest > 10 * c ==> exists|coarse: int|
                {
                    let low = if coarse - 8 * c >= 10 * c {
                        coarse - 8 * c
                    } else {
                        10 * c
                    };
                    let high = if coarse + 8 * c <= longest {
                        coarse + 8 * c
                    } else {
                        longest
                    };
                    &&& 10 * c <= coarse <= longest
                    &&& (coarse - 10 * c) % (8 * c) == 0
                    &&& forall|lag: int|
                        10 * c <= lag <= longest && (lag - 10 * c) % (8 * c) == 0 ==> {
                            &&& #[trigger] lag_score(raw, coarse, 3_000) <= #[trigger] lag_score(
                                raw,
                                lag,
                                3_000,
                            )
                            &&& lag < coarse ==> lag_score(raw, coarse, 3_000) < lag_score(
                                raw,
                                lag,
                                3_000,
                            )
                        }
                    &&& score <= 2 * score_1d
                    &&& forall|lag: int|
                        low <= lag <= high && (lag - low) % c == 0 ==> score
                            <= #[trigger] lag_score(raw, lag, 3_000)
                    &&& row == c ==> score == 2 * score_1d
                    &&& row != c ==> {
                        &&& low <= row <= high
                        &&& (row - low) % c == 0
                        &&& score == lag_score(raw, row, 3_000)
                        &&& score < 2 * score_1d
                        &&& forall|lag: int|
                            low <= lag < row && (lag - low) % c == 0 ==> score
                                < #[trigger] lag_score(raw, lag, 3_000)
                    }
                }
        }),
{
    let s = sample_of(raw);
    let n = s.len() as int;
    let (c, score_1d, row, score) = layout_of(raw);
    layout_is_aligned(raw);
    let longest = longest_row(c, n);
    if longest > 10 * c {
        let coarse = coarse_row(s, c);
        let first = 10 * c;
        let none = (first, u64::MAX as int);
        lemma_least_lag_bounds(s, 3_000, first, 8 * c, longest, none);
        least_lag_is_first_minimum(s, 3_000, first, 8 * c, longest, none);
        assert(coarse == least_lag(s, 3_000, first, 8 * c, longest, none).0);
        lemma_sample_score(raw, coarse, 3_000);
        assert forall|lag: int|
            first <= lag <= longest && (lag - first) % (8 * c) == 0 implies {
            &&& lag_score(raw, coarse, 3_000) <= #[trigger] lag_score(raw, lag, 3_000)
            &&& lag < coarse ==> lag_score(raw, coarse, 3_000) < lag_score(raw, lag, 3_000)
        } by {
            assert(on_grid(first, 8 * c, longest, lag));
            lemma_lag_score_bounds(s, lag, 3_000);
            lemma_sample_score(raw, lag, 3_000);
        }
        let low = if coarse - 8 * c >= first {
            coarse - 8 * c
        } else {
            first
        };
        let high = if coarse + 8 * c <= longest {
            coarse + 8 * c
        } else {
            longest
        };
        let start = (c, 2 * score_1d);
        least_lag_is_first_minimum(s, 3_000, low, c, high, start);
        assert((row, score) == least_lag(s, 3_000, low, c, high, start));
        assert forall|lag: int| low <= lag <= high && (lag - low) % c == 0 implies score
            <= #[trigger] lag_score(raw, lag, 3_000) by {
            assert(on_grid(low, c, high, lag));
            lemma_sample_score(raw, lag, 3_000);
            assert(score <= lag_score(s, lag, 3_000));
        }
        assert forall|lag: int|
            row != c && low <= lag < row && (lag - low) % c == 0 implies score
            < #[trigger] lag_score(raw, lag, 3_000) by {
            assert(on_grid(low, c, high, lag));
            lemma_sample_score(raw, lag, 3_000);
            assert(score < lag_score(s, lag, 3_000));
        }
        if row != c {
            lemma_sample_score(raw, row, 3_000);
        }
    }
}

} // verus!
