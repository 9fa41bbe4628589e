//! Energy-based voice activity detection: which parts of a recording hold
//! speech.
use vstd::prelude::*;
use vstd::slice::slice_subrange;
use crate::wav::le_u16;

verus! {

// ---------------------------------------------------------------------------
// Levels
// ---------------------------------------------------------------------------

/// The `k`-th 16-bit sample.
pub open spec fn sample(bytes: Seq<u8>, k: int) -> int {
    let unsigned = le_u16(bytes, 2 * k);
    if unsigned >= 32768 {
        unsigned - 65536
    } else {
        unsigned
    }
}

/// The sum of the squares of the first `count` samples.
pub open spec fn energy(bytes: Seq<u8>, count: nat) -> nat
    decreases count,
{
    if count == 0 {
        0
    } else {
        let value = sample(bytes, count - 1);
        energy(bytes, (count - 1) as nat) + (value * value) as nat
    }
}

/// The largest number whose square is at most `n`.
pub open spec fn floor_sqrt(n: nat) -> nat
    decreases n,
{
    if n == 0 {
        0
    } else {
        let r = floor_sqrt((n - 1) as nat);
        if (r + 1) * (r + 1) <= n {
            r + 1
        } else {
            r
        }
    }
}

/// The root of the mean of the squares of the samples, rounded down; a last odd
/// byte is no sample. The sum of the squares stops at the largest `u64`.
pub open spec fn rms_level(bytes: Seq<u8>) -> nat {
    let count = bytes.len() / 2;
    if count == 0 {
        0
    } else {
        let sum = energy(bytes, count);
        let kept = if sum <= u64::MAX {
            sum
        } else {
            u64::MAX as nat
        };
        floor_sqrt(kept / count)
    }
}

proof fn lemma_square_bound(v: int)
    by (nonlinear_arith)
    requires
        -32768 <= v <= 32767,
    ensures
        0 <= v * v <= 1073741824,
{
}

proof fn lemma_energy_bound(bytes: Seq<u8>, count: nat)
    requires
        2 * count <= bytes.len(),
    ensures
        energy(bytes, count) <= count * 1073741824,
    decreases count,
{
    if count > 0 {
        lemma_energy_bound(bytes, (count - 1) as nat);
        lemma_square_bound(sample(bytes, count - 1));
    }
}

/// What makes `floor_sqrt(n)` the root of `n` rounded down.
pub proof fn lemma_floor_sqrt(n: nat)
    ensures
        floor_sqrt(n) * floor_sqrt(n) <= n,
        n < (floor_sqrt(n) + 1) * (floor_sqrt(n) + 1),
    decreases n,
{
    let s = floor_sqrt(n);
    if n == 0 {
        assert(s * s == 0 && (s + 1) * (s + 1) == 1) by (nonlinear_arith)
            requires
                s == 0,
        ;
    } else {
        lemma_floor_sqrt((n - 1) as nat);
        let r = floor_sqrt((n - 1) as nat);
        if s == r + 1 {
            assert(s * s <= n && n < (s + 1) * (s + 1)) by (nonlinear_arith)
                requires
                    s == r + 1,
                    (r + 1) * (r + 1) <= n,
                    n - 1 < (r + 1) * (r + 1),
            ;
        }
    }
}

proof fn lemma_floor_sqrt_unique(n: nat, r: nat)
    requires
        r * r <= n,
        n < (r + 1) * (r + 1),
    ensures
        r == floor_sqrt(n),
{
    lemma_floor_sqrt(n);
    let s = floor_sqrt(n);
    if r < s {
        assert((r + 1) * (r + 1) <= s * s) by (nonlinear_arith)
            requires
                r + 1 <= s,
        ;
    } else if s < r {
        assert((s + 1) * (s + 1) <= r * r) by (nonlinear_arith)
            requires
                s + 1 <= r,
        ;
    }
}

/// The root of a number below 2^31, rounded down.
fn integer_sqrt(n: u64) -> (r: u32)
    requires
        n < 0x8000_0000,
    ensures
        r == floor_sqrt(n as nat),
        r < 65536,
{
    let mut low: u64 = 0;
    let mut high: u64 = 65536;
    while high - low > 1
        invariant
            low < high <= 65536,
            low * low <= n,
            n < high * high,
        decreases high - low,
    {
        let mid = low + (high - low) / 2;
        proof {
            assert(mid * mid <= 65536 * 65536) by (nonlinear_arith)
                requires
                    mid <= 65536,
            ;
        }
        if mid * mid <= n {
            low = mid;
        } else {
            high = mid;
        }
    }
    proof {
        assert(high == low + 1);
        lemma_floor_sqrt_unique(n as nat, low as nat);
    }
    low as u32
}

/// The level of a stretch of 16-bit samples.
pub fn rms_pcm16(bytes: &[u8]) -> (level: u32)
    ensures
        level == rms_level(bytes@),
{
    let mut sum: u64 = 0;
    let mut count: u64 = 0;
    let mut at: usize = 0;
    while bytes.len() - at >= 2
        invariant
            at <= bytes.len(),
            at == 2 * count,
            sum == if energy(bytes@, count as nat) <= u64::MAX {
                energy(bytes@, count as nat)
            } else {
                u64::MAX as nat
            },
        decreases bytes.len() - at,
    {
        let unsigned = bytes[at] as i64 + 256 * (bytes[at + 1] as i64);
        let value = if unsigned >= 32768 {
            unsigned - 65536
        } else {
            unsigned
        };
        proof {
            assert(value == sample(bytes@, count as int));
            lemma_square_bound(value as int);
        }
        sum = sum.saturating_add((value * value) as u64);
        count = count + 1;
        at = at + 2;
    }
    proof {
        assert(count == bytes@.len() / 2);
    }
    if count == 0 {
        return 0;
    }
    let mean = sum / count;
    proof {
        lemma_energy_bound(bytes@, count as nat);
        assert(mean <= 1073741824) by (nonlinear_arith)
            requires
                mean == sum / count,
                sum <= count * 1073741824,
                count > 0,
        ;
    }
    integer_sqrt(mean)
}

/// The levels of the frames of `frame_bytes` bytes; the last frame may be
/// shorter.
pub open spec fn frame_levels(data: Seq<u8>, frame_bytes: nat) -> Seq<u32>
    decreases data.len(),
{
    if data.len() == 0 || frame_bytes == 0 {
        Seq::empty()
    } else if data.len() <= frame_bytes {
        seq![rms_level(data) as u32]
    } else {
        seq![rms_level(data.take(frame_bytes as int)) as u32] + frame_levels(
            data.skip(frame_bytes as int),
            frame_bytes,
        )
    }
}

/// Measures the level of every frame.
pub fn measure_levels(data: &[u8], frame_bytes: usize) -> (levels: Vec<u32>)
    requires
        frame_bytes > 0,
    ensures
        levels@ == frame_levels(data@, frame_bytes as nat),
{
    let mut levels: Vec<u32> = Vec::new();
    let mut at: usize = 0;
    let ghost all = frame_levels(data@, frame_bytes as nat);
    proof {
        assert(data@.skip(0) == data@);
        assert(levels@ + all == all);
    }
    while at < data.len()
        invariant
            at <= data.len(),
            frame_bytes > 0,
            levels@ + frame_levels(data@.skip(at as int), frame_bytes as nat) == all,
        decreases data.len() - at,
    {
        let ghost rest = data@.skip(at as int);
        let end = if data.len() - at <= frame_bytes {
            data.len()
        } else {
            at + frame_bytes
        };
        let level = rms_pcm16(slice_subrange(data, at, end));
        let ghost before = levels@;
        levels.push(level);
        proof {
            let later = frame_levels(data@.skip(end as int), frame_bytes as nat);
            assert(data@.subrange(at as int, end as int) == rest.take(end - at));
            if rest.len() <= frame_bytes {
                assert(rest.take(end - at) == rest);
                assert(later =~= Seq::<u32>::empty());
                assert(seq![level] + later =~= seq![level]);
            }
            assert(rest.skip(end - at) == data@.skip(end as int));
            assert(levels@ + later =~= before + (seq![level] + later));
        }
        at = end;
    }
    proof {
        assert(levels@ + Seq::<u32>::empty() =~= levels@);
    }
    levels
}

/// The number of frames.
pub proof fn lemma_frame_count(data: Seq<u8>, frame_bytes: nat)
    requires
        frame_bytes > 0,
        data.len() > 0,
    ensures
        frame_levels(data, frame_bytes).len() > 0,
        (frame_levels(data, frame_bytes).len() - 1) * frame_bytes < data.len(),
        data.len() <= frame_levels(data, frame_bytes).len() * frame_bytes,
    decreases data.len(),
{
    if data.len() > frame_bytes {
        let rest = data.skip(frame_bytes as int);
        lemma_frame_count(rest, frame_bytes);
        let n = frame_levels(rest, frame_bytes).len() as int;
        assert(frame_levels(data, frame_bytes).len() == n + 1);
        assert(n * frame_bytes == (n - 1) * frame_bytes + frame_bytes) by (nonlinear_arith);
        assert((n + 1) * frame_bytes == n * frame_bytes + frame_bytes) by (nonlinear_arith);
    } else {
        assert(0 * frame_bytes == 0) by (nonlinear_arith);
        assert(1 * frame_bytes == frame_bytes) by (nonlinear_arith);
    }
}

// ---------------------------------------------------------------------------
// The threshold
// ---------------------------------------------------------------------------

/// The level at position `rank` when the levels are sorted.
pub open spec fn ranked(levels: Seq<u32>, rank: int) -> int {
    levels.sort_by(|a: u32, b: u32| a <= b)[rank] as int
}

/// `slice::sort_unstable` of the standard library sorts numbers: the same
/// numbers are there afterwards, none before a smaller one.
#[verifier::external_body]
fn sort_levels(levels: &mut Vec<u32>)
    ensures
        final(levels)@.to_multiset() == old(levels)@.to_multiset(),
        forall|i: int, j: int|
            0 <= i <= j < final(levels)@.len() ==> final(levels)@[i] <= final(levels)@[j],
{
    levels.sort_unstable();
}

/// The level from which on a frame counts as speech: three times the noise,
/// which is the level that a fifth of the frames stay below, but not more than
/// half of the level that nine tenths of the frames stay below, and at least
/// 120.
pub open spec fn speech_threshold(levels: Seq<u32>) -> int {
    let noise = ranked(levels, levels.len() as int / 5);
    let loud = ranked(levels, levels.len() as int * 9 / 10);
    let adaptive = if 3 * noise <= loud / 2 {
        3 * noise
    } else {
        loud / 2
    };
    if adaptive >= 120 {
        adaptive
    } else {
        120
    }
}

/// Which frames hold speech.
pub open spec fn speech_frames(levels: Seq<u32>) -> Seq<bool> {
    levels.map_values(|l: u32| l >= speech_threshold(levels))
}

/// Finds the frames that hold speech.
pub fn detect_speech(levels: &Vec<u32>) -> (speech: Vec<bool>)
    requires
        levels@.len() > 0,
    ensures
        speech@ == speech_frames(levels@),
{
    let count = levels.len();
    let mut sorted: Vec<u32> = Vec::new();
    for i in 0..count
        invariant
            count == levels@.len(),
            sorted@ == levels@.take(i as int),
    {
        sorted.push(levels[i]);
    }
    proof {
        assert(levels@.take(count as int) == levels@);
    }
    sort_levels(&mut sorted);
    proof {
        let leq = |a: u32, b: u32| a <= b;
        levels@.lemma_sort_by_ensures(leq);
        assert(vstd::relations::sorted_by(sorted@, leq));
        vstd::seq_lib::lemma_sorted_unique(sorted@, levels@.sort_by(leq), leq);
        sorted@.to_multiset_ensures();
        levels@.to_multiset_ensures();
    }
    let noise = sorted[count / 5];
    let ninth = count / 10 * 9 + count % 10 * 9 / 10;
    let loud = sorted[ninth];
    let tripled: u32 = if noise <= u32::MAX / 3 {
        noise * 3
    } else {
        u32::MAX
    };
    let adaptive = if tripled <= loud / 2 {
        tripled
    } else {
        loud / 2
    };
    let threshold: u32 = if adaptive >= 120 {
        adaptive
    } else {
        120
    };
    proof {
        assert(threshold == speech_threshold(levels@));
    }
    let mut speech: Vec<bool> = Vec::new();
    for i in 0..count
        invariant
            count == levels@.len(),
            threshold == speech_threshold(levels@),
            speech@ == speech_frames(levels@).take(i as int),
    {
        speech.push(levels[i] >= threshold);
        proof {
            assert(speech@ =~= speech_frames(levels@).take(i + 1));
        }
    }
    proof {
        assert(speech@ =~= speech_frames(levels@));
    }
    speech
}

// ---------------------------------------------------------------------------
// Regions of speech
// ---------------------------------------------------------------------------

/// Where the run of speech that `at` stands in ends.
pub open spec fn run_end(speech: Seq<bool>, at: int) -> int
    decreases speech.len() - at,
{
    if 0 <= at < speech.len() && speech[at] {
        run_end(speech, at + 1)
    } else {
        at
    }
}

/// The maximal runs of speech from `from` on that are at least `min_frames`
/// long, each with its start and its end.
pub open spec fn speech_runs(speech: Seq<bool>, from: int, min_frames: int) -> Seq<(int, int)>
    decreases speech.len() - from,
    via speech_runs_decreases
{
    if from < 0 || from >= speech.len() {
        Seq::empty()
    } else if !speech[from] {
        speech_runs(speech, from + 1, min_frames)
    } else {
        let end = run_end(speech, from);
        let rest = speech_runs(speech, end, min_frames);
        if end - from >= min_frames {
            seq![(from, end)] + rest
        } else {
            rest
        }
    }
}

#[via_fn]
proof fn speech_runs_decreases(speech: Seq<bool>, from: int, min_frames: int) {
    if 0 <= from < speech.len() && speech[from] {
        lemma_run_end(speech, from + 1);
    }
}

proof fn lemma_run_end(speech: Seq<bool>, at: int)
    requires
        0 <= at <= speech.len(),
    ensures
        at <= run_end(speech, at) <= speech.len(),
        forall|i: int| at <= i < run_end(speech, at) ==> speech[i],
        run_end(speech, at) < speech.len() ==> !speech[run_end(speech, at)],
    decreases speech.len() - at,
{
    if at < speech.len() && speech[at] {
        lemma_run_end(speech, at + 1);
    }
}

/// A run with `padding` frames added on both sides, as far as the recording
/// goes.
pub open spec fn widened(run: (int, int), padding: int, count: int) -> (int, int) {
    (
        if run.0 >= padding {
            run.0 - padding
        } else {
            0
        },
        if run.1 + padding <= count {
            run.1 + padding
        } else {
            count
        },
    )
}

/// The regions with those joined that are no more than `gap` frames apart.
pub open spec fn bridged(regions: Seq<(int, int)>, gap: int) -> Seq<(int, int)>
    decreases regions.len(),
{
    if regions.len() == 0 {
        Seq::empty()
    } else {
        let done = bridged(regions.drop_last(), gap);
        let next = regions.last();
        if done.len() > 0 && next.0 <= done.last().1 + gap {
            let last = done.last();
            done.drop_last().push(
                (
                    last.0,
                    if last.1 >= next.1 {
                        last.1
                    } else {
                        next.1
                    },
                ),
            )
        } else {
            done.push(next)
        }
    }
}

/// The widened runs.
pub open spec fn widened_runs(
    speech: Seq<bool>,
    from: int,
    min_frames: int,
    padding: int,
) -> Seq<(int, int)> {
    speech_runs(speech, from, min_frames).map_values(
        |run: (int, int)| widened(run, padding, speech.len() as int),
    )
}

/// The regions of speech: every run of at least `min_frames` frames, widened by
/// `padding` frames on both sides, and joined with the next where no more than
/// `gap` frames lie between them.
pub open spec fn regions_of_speech(
    speech: Seq<bool>,
    min_frames: int,
    gap: int,
    padding: int,
) -> Seq<(int, int)> {
    bridged(widened_runs(speech, 0, min_frames, padding), gap)
}

/// Pairs of positions as pairs of numbers.
pub open spec fn pair_views(pairs: Seq<(usize, usize)>) -> Seq<(int, int)> {
    pairs.map_values(|p: (usize, usize)| (p.0 as int, p.1 as int))
}

fn find_runs(speech: &[bool], min_frames: usize, padding: usize) -> (raw: Vec<(usize, usize)>)
    requires
        speech@.len() + padding <= usize::MAX,
    ensures
        pair_views(raw@) == widened_runs(speech@, 0, min_frames as int, padding as int),
{
    let mut raw: Vec<(usize, usize)> = Vec::new();
    let mut at: usize = 0;
    let ghost all = widened_runs(speech@, 0, min_frames as int, padding as int);
    let ghost wide = |run: (int, int)| widened(run, padding as int, speech@.len() as int);
    proof {
        assert(pair_views(raw@) + all =~= all);
    }
    while at < speech.len()
        invariant
            at <= speech.len(),
            speech@.len() + padding <= usize::MAX,
            wide == (|run: (int, int)| widened(run, padding as int, speech@.len() as int)),
            all == widened_runs(speech@, 0, min_frames as int, padding as int),
            pair_views(raw@) + widened_runs(
                speech@,
                at as int,
                min_frames as int,
                padding as int,
            ) == all,
        decreases speech.len() - at,
    {
        if !speech[at] {
            at = at + 1;
        } else {
            let begin = at;
            proof {
                lemma_run_end(speech@, begin as int);
            }
            while at < speech.len() && speech[at]
                invariant
                    begin <= at <= speech.len(),
                    run_end(speech@, at as int) == run_end(speech@, begin as int),
                decreases speech.len() - at,
            {
                at = at + 1;
            }
            let ghost rest = speech_runs(speech@, at as int, min_frames as int);
            let ghost run = (begin as int, at as int);
            proof {
                assert(run_end(speech@, begin as int) == at);
                assert((seq![run] + rest).map_values(wide) =~= seq![wide(run)] + rest.map_values(
                    wide,
                ));
            }
            if at - begin >= min_frames {
                let ghost before = raw@;
                let start = if begin >= padding {
                    begin - padding
                } else {
                    0
                };
                let end = if at + padding <= speech.len() {
                    at + padding
                } else {
                    speech.len()
                };
                raw.push((start, end));
                proof {
                    assert(pair_views(raw@) =~= pair_views(before).push(wide(run)));
                    assert(pair_views(raw@) + rest.map_values(wide) =~= pair_views(before) + (
                    seq![wide(run)] + rest.map_values(wide)));
                }
            }
        }
    }
    proof {
        assert(pair_views(raw@) + Seq::<(int, int)>::empty() =~= pair_views(raw@));
        assert(widened_runs(speech@, at as int, min_frames as int, padding as int) =~= Seq::<
            (int, int),
        >::empty());
    }
    raw
}

/// Finds the regions of speech.
pub fn speech_regions(
    speech: &[bool],
    min_speech_frames: usize,
    merge_gap_frames: usize,
    padding_frames: usize,
) -> (regions: Vec<(usize, usize)>)
    requires
        speech@.len() + padding_frames <= usize::MAX,
        speech@.len() + merge_gap_frames <= usize::MAX,
    ensures
        pair_views(regions@) == regions_of_speech(
            speech@,
            min_speech_frames as int,
            merge_gap_frames as int,
            padding_frames as int,
        ),
{
    let raw = find_runs(speech, min_speech_frames, padding_frames);
    let ghost wanted = pair_views(raw@);
    let mut merged: Vec<(usize, usize)> = Vec::new();
    proof {
        lemma_runs(speech@, 0, min_speech_frames as int);
        assert(pair_views(merged@) =~= Seq::<(int, int)>::empty());
    }
    for i in 0..raw.len()
        invariant
            wanted == pair_views(raw@),
            forall|k: int| 0 <= k < wanted.len() ==> (#[trigger] wanted[k]).1 <= speech@.len(),
            speech@.len() + merge_gap_frames <= usize::MAX,
            pair_views(merged@) == bridged(wanted.take(i as int), merge_gap_frames as int),
            forall|k: int| 0 <= k < merged@.len() ==> (#[trigger] merged@[k]).1 <= speech@.len(),
    {
        let region = raw[i];
        let count = merged.len();
        let ghost before = pair_views(merged@);
        proof {
            assert(wanted.take(i + 1).drop_last() == wanted.take(i as int));
            assert(wanted.take(i + 1).last() == wanted[i as int]);
        }
        if count > 0 && region.0 <= merged[count - 1].1 + merge_gap_frames {
            let last = merged[count - 1];
            let end = if last.1 >= region.1 {
                last.1
            } else {
                region.1
            };
            merged.set(count - 1, (last.0, end));
            proof {
                assert(pair_views(merged@) =~= before.drop_last().push((last.0 as int, end as int)));
            }
        } else {
            merged.push(region);
            proof {
                assert(pair_views(merged@) =~= before.push(wanted[i as int]));
            }
        }
    }
    proof {
        assert(wanted.take(wanted.len() as int) == wanted);
    }
    merged
}

/// The runs are maximal, long enough, in order and apart from each other.
proof fn lemma_runs(speech: Seq<bool>, from: int, min_frames: int)
    requires
        0 <= from,
    ensures
        ({
            let runs = speech_runs(speech, from, min_frames);
            &&& forall|k: int|
                0 <= k < runs.len() ==> from <= (#[trigger] runs[k]).0 < runs[k].1 <= speech.len()
                    && runs[k].1 - runs[k].0 >= min_frames && runs[k].1 == run_end(
                    speech,
                    runs[k].0,
                )
            &&& forall|j: int, k: int|
                0 <= j < k < runs.len() ==> (#[trigger] runs[j]).1 < (#[trigger] runs[k]).0
        }),
    decreases speech.len() - from,
{
    if from < speech.len() {
        if !speech[from] {
            lemma_runs(speech, from + 1, min_frames);
            assert(speech_runs(speech, from, min_frames) == speech_runs(
                speech,
                from + 1,
                min_frames,
            ));
        } else {
            lemma_run_end(speech, from);
            lemma_run_end(speech, from + 1);
            let end = run_end(speech, from);
            lemma_runs(speech, end, min_frames);
            let runs = speech_runs(speech, from, min_frames);
            let rest = speech_runs(speech, end, min_frames);
            assert forall|k: int| 0 <= k < rest.len() implies end < (#[trigger] rest[k]).0 by {
                lemma_run_end(speech, rest[k].0);
                if rest[k].0 == end {
                    assert(run_end(speech, end) == end);
                }
            }
            if end - from >= min_frames {
                assert forall|k: int| 0 <= k < runs.len() implies from <= (#[trigger] runs[k]).0
                    < runs[k].1 <= speech.len() && runs[k].1 - runs[k].0 >= min_frames && runs[k].1
                    == run_end(speech, runs[k].0) by {
                    if k > 0 {
                        assert(runs[k] == rest[k - 1]);
                    }
                }
                assert forall|j: int, k: int| 0 <= j < k < runs.len() implies (
                #[trigger] runs[j]).1 < (#[trigger] runs[k]).0 by {
                    assert(runs[k] == rest[k - 1]);
                    if j > 0 {
                        assert(runs[j] == rest[j - 1]);
                    }
                }
            } else {
                assert(runs == rest);
            }
        }
    } else {
        assert(speech_runs(speech, from, min_frames).len() == 0);
    }
}

// ---------------------------------------------------------------------------
// Laws of the regions
// ---------------------------------------------------------------------------

/// Whether the regions lie within `count` frames, in order, with more than `gap`
/// frames between one and the next.
pub open spec fn apart(regions: Seq<(int, int)>, gap: int, count: int) -> bool {
    &&& forall|k: int|
        0 <= k < regions.len() ==> 0 <= (#[trigger] regions[k]).0 < regions[k].1 <= count
    &&& forall|j: int, k: int|
        0 <= j < k < regions.len() ==> (#[trigger] regions[j]).1 + gap < (#[trigger] regions[k]).0
}

/// Whether one of the regions holds everything from `a` up to `b`.
pub open spec fn within_one(regions: Seq<(int, int)>, a: int, b: int) -> bool {
    exists|m: int|
        0 <= m < regions.len() && (#[trigger] regions[m]).0 <= a && b <= regions[m].1
}

/// Whether neither the starts nor the ends go back.
spec fn advancing(regions: Seq<(int, int)>, count: int) -> bool {
    &&& forall|k: int|
        0 <= k < regions.len() ==> 0 <= (#[trigger] regions[k]).0 < regions[k].1 <= count
    &&& forall|j: int, k: int|
        0 <= j < k < regions.len() ==> (#[trigger] regions[j]).0 <= (#[trigger] regions[k]).0
            && regions[j].1 <= regions[k].1
}

proof fn lemma_widened(speech: Seq<bool>, min_frames: int, padding: int)
    requires
        padding >= 0,
    ensures
        advancing(widened_runs(speech, 0, min_frames, padding), speech.len() as int),
{
    lemma_runs(speech, 0, min_frames);
    let runs = speech_runs(speech, 0, min_frames);
    let wide = widened_runs(speech, 0, min_frames, padding);
    assert forall|k: int| 0 <= k < wide.len() implies 0 <= (#[trigger] wide[k]).0 < wide[k].1
        <= speech.len() by {
        assert(0 <= runs[k].0 < runs[k].1 <= speech.len());
    }
    assert forall|j: int, k: int| 0 <= j < k < wide.len() implies (#[trigger] wide[j]).0 <= (
    #[trigger] wide[k]).0 && wide[j].1 <= wide[k].1 by {
        assert(runs[j].0 < runs[j].1 < runs[k].0 < runs[k].1);
    }
}

proof fn lemma_bridged(raw: Seq<(int, int)>, gap: int, count: int)
    requires
        gap >= 0,
        advancing(raw, count),
    ensures
        apart(bridged(raw, gap), gap, count),
        raw.len() > 0 ==> {
            &&& bridged(raw, gap).len() > 0
            &&& bridged(raw, gap).last().0 <= raw.last().0
            &&& bridged(raw, gap).last().1 == raw.last().1
        },
        forall|k: int|
            0 <= k < raw.len() ==> within_one(
                bridged(raw, gap),
                (#[trigger] raw[k]).0,
                raw[k].1,
            ),
    decreases raw.len(),
{
    if raw.len() > 0 {
        let before = raw.drop_last();
        assert forall|k: int| 0 <= k < before.len() implies before[k] == raw[k] by {}
        lemma_bridged(before, gap, count);
        let done = bridged(before, gap);
        let next = raw.last();
        let all = bridged(raw, gap);
        if done.len() > 0 {
            assert(before.last() == raw[raw.len() - 2]);
            assert(before.last().0 <= next.0 && before.last().1 <= next.1);
        }
        let joins = done.len() > 0 && next.0 <= done.last().1 + gap;
        assert forall|k: int| 0 <= k < raw.len() implies within_one(
            all,
            (#[trigger] raw[k]).0,
            raw[k].1,
        ) by {
            if k == raw.len() - 1 {
                let m = all.len() - 1;
                assert(all[m].0 <= raw[k].0 && raw[k].1 <= all[m].1);
            } else {
                assert(within_one(done, before[k].0, before[k].1));
                let m = choose|m: int|
                    0 <= m < done.len() && (#[trigger] done[m]).0 <= before[k].0 && before[k].1
                        <= done[m].1;
                assert(all[m].0 <= raw[k].0 && raw[k].1 <= all[m].1);
            }
        }
    }
}

/// The regions of speech lie within the recording, in order, and more than the
/// bridged gap apart.
pub proof fn law_regions_are_apart(speech: Seq<bool>, min_frames: int, gap: int, padding: int)
    requires
        gap >= 0,
        padding >= 0,
    ensures
        apart(regions_of_speech(speech, min_frames, gap, padding), gap, speech.len() as int),
{
    lemma_widened(speech, min_frames, padding);
    lemma_bridged(widened_runs(speech, 0, min_frames, padding), gap, speech.len() as int);
}

proof fn lemma_run_found(speech: Seq<bool>, from: int, min_frames: int, a: int, b: int)
    requires
        0 <= from <= a < b <= speech.len(),
        b - a >= min_frames,
        forall|i: int| a <= i < b ==> speech[i],
    ensures
        within_one(speech_runs(speech, from, min_frames), a, b),
    decreases speech.len() - from,
{
    let runs = speech_runs(speech, from, min_frames);
    if !speech[from] {
        lemma_run_found(speech, from + 1, min_frames, a, b);
        assert(runs == speech_runs(speech, from + 1, min_frames));
    } else {
        lemma_run_end(speech, from);
        lemma_run_end(speech, from + 1);
        let end = run_end(speech, from);
        let rest = speech_runs(speech, end, min_frames);
        if end > a {
            assert(end >= b);
            assert(runs[0] == (from, end));
        } else {
            lemma_run_found(speech, end, min_frames, a, b);
            let m = choose|m: int|
                0 <= m < rest.len() && (#[trigger] rest[m]).0 <= a && b <= rest[m].1;
            if end - from >= min_frames {
                assert(runs[m + 1] == rest[m]);
            } else {
                assert(runs[m] == rest[m]);
            }
        }
    }
}

/// Speech that lasts long enough lies within one region, and so do the frames of
/// padding around it.
pub proof fn law_long_speech_is_kept(
    speech: Seq<bool>,
    min_frames: int,
    gap: int,
    padding: int,
    a: int,
    b: int,
)
    requires
        gap >= 0,
        padding >= 0,
        0 <= a < b <= speech.len(),
        b - a >= min_frames,
        forall|i: int| a <= i < b ==> speech[i],
    ensures
        within_one(
            regions_of_speech(speech, min_frames, gap, padding),
            widened((a, b), padding, speech.len() as int).0,
            widened((a, b), padding, speech.len() as int).1,
        ),
{
    lemma_run_found(speech, 0, min_frames, a, b);
    lemma_widened(speech, min_frames, padding);
    let runs = speech_runs(speech, 0, min_frames);
    let wide = widened_runs(speech, 0, min_frames, padding);
    let regions = bridged(wide, gap);
    lemma_bridged(wide, gap, speech.len() as int);
    let m = choose|m: int| 0 <= m < runs.len() && (#[trigger] runs[m]).0 <= a && b <= runs[m].1;
    assert(within_one(regions, wide[m].0, wide[m].1));
    let n = choose|n: int|
        0 <= n < regions.len() && (#[trigger] regions[n]).0 <= wide[m].0 && wide[m].1
            <= regions[n].1;
    assert(regions[n].0 <= wide[m].0);
}

/// Where no frame reaches the lowest threshold there is no speech.
pub proof fn law_silence_has_no_regions(
    levels: Seq<u32>,
    min_frames: int,
    gap: int,
    padding: int,
)
    requires
        forall|i: int| 0 <= i < levels.len() ==> levels[i] < 120,
    ensures
        regions_of_speech(speech_frames(levels), min_frames, gap, padding).len() == 0,
{
    lemma_no_runs(speech_frames(levels), 0, min_frames);
}

proof fn lemma_no_runs(speech: Seq<bool>, from: int, min_frames: int)
    requires
        0 <= from,
        forall|i: int| 0 <= i < speech.len() ==> !speech[i],
    ensures
        speech_runs(speech, from, min_frames).len() == 0,
    decreases speech.len() - from,
{
    if from < speech.len() {
        lemma_no_runs(speech, from + 1, min_frames);
    }
}

/// Whether the frames of `run` are one run of speech of at least `min_frames`
/// frames, with no speech right before or right behind it.
pub open spec fn is_run(speech: Seq<bool>, run: (int, int), min_frames: int) -> bool {
    &&& 0 <= run.0 < run.1 <= speech.len()
    &&& run.1 - run.0 >= min_frames
    &&& forall|i: int| run.0 <= i < run.1 ==> #[trigger] speech[i]
    &&& run.0 > 0 ==> !speech[run.0 - 1]
    &&& run.1 < speech.len() ==> !speech[run.1]
}

proof fn lemma_runs_are_maximal(speech: Seq<bool>, from: int, min_frames: int)
    requires
        0 <= from,
        0 < from < speech.len() && speech[from] ==> !speech[from - 1],
    ensures
        forall|k: int|
            0 <= k < speech_runs(speech, from, min_frames).len() ==> is_run(
                speech,
                #[trigger] speech_runs(speech, from, min_frames)[k],
                min_frames,
            ),
    decreases speech.len() - from,
{
    let runs = speech_runs(speech, from, min_frames);
    if from < speech.len() {
        if !speech[from] {
            lemma_runs_are_maximal(speech, from + 1, min_frames);
            assert(runs == speech_runs(speech, from + 1, min_frames));
        } else {
            lemma_run_end(speech, from);
            lemma_run_end(speech, from + 1);
            let end = run_end(speech, from);
            lemma_runs_are_maximal(speech, end, min_frames);
            let rest = speech_runs(speech, end, min_frames);
            if end - from >= min_frames {
                assert forall|k: int| 0 <= k < runs.len() implies is_run(
                    speech,
                    #[trigger] runs[k],
                    min_frames,
                ) by {
                    if k > 0 {
                        assert(runs[k] == rest[k - 1]);
                    }
                }
            } else {
                assert(runs == rest);
            }
        }
    } else {
        assert(runs.len() == 0);
    }
}

/// Whether `x` lies in one of the ranges, or between two that are no more than
/// `gap` apart.
spec fn bridges(raw: Seq<(int, int)>, gap: int, x: int) -> bool {
    ||| exists|k: int| 0 <= k < raw.len() && (#[trigger] raw[k]).0 <= x < raw[k].1
    ||| exists|j: int, k: int|
        0 <= j < raw.len() && 0 <= k < raw.len() && (#[trigger] raw[j]).1 <= x < (
        #[trigger] raw[k]).0 && raw[k].0 <= raw[j].1 + gap
}

/// Whether one of the ranges starts at `x`.
spec fn starts_one(raw: Seq<(int, int)>, x: int) -> bool {
    exists|k: int| 0 <= k < raw.len() && (#[trigger] raw[k]).0 == x
}

/// Whether one of the ranges ends at `x`.
spec fn ends_one(raw: Seq<(int, int)>, x: int) -> bool {
    exists|k: int| 0 <= k < raw.len() && (#[trigger] raw[k]).1 == x
}

/// Whether a region starts and ends as ranges do, and holds nothing but them and
/// bridged gaps between them.
spec fn stems(raw: Seq<(int, int)>, gap: int, region: (int, int)) -> bool {
    &&& starts_one(raw, region.0)
    &&& ends_one(raw, region.1)
    &&& forall|x: int| region.0 <= x < region.1 ==> #[trigger] bridges(raw, gap, x)
}

proof fn lemma_stems_grows(raw: Seq<(int, int)>, gap: int, region: (int, int))
    requires
        raw.len() > 0,
        stems(raw.drop_last(), gap, region),
    ensures
        stems(raw, gap, region),
{
    let before = raw.drop_last();
    let j = choose|j: int| 0 <= j < before.len() && (#[trigger] before[j]).0 == region.0;
    assert(raw[j].0 == region.0);
    let k = choose|k: int| 0 <= k < before.len() && (#[trigger] before[k]).1 == region.1;
    assert(raw[k].1 == region.1);
    assert forall|x: int| region.0 <= x < region.1 implies #[trigger] bridges(raw, gap, x) by {
        assert(bridges(before, gap, x));
        if exists|k: int| 0 <= k < before.len() && (#[trigger] before[k]).0 <= x < before[k].1 {
            let k = choose|k: int|
                0 <= k < before.len() && (#[trigger] before[k]).0 <= x < before[k].1;
            assert(raw[k].0 <= x < raw[k].1);
        } else {
            let (j, k) = choose|j: int, k: int|
                0 <= j < before.len() && 0 <= k < before.len() && (#[trigger] before[j]).1 <= x < (
                #[trigger] before[k]).0 && before[k].0 <= before[j].1 + gap;
            assert(raw[j].1 <= x < raw[k].0);
        }
    }
}

proof fn lemma_bridged_origin(raw: Seq<(int, int)>, gap: int, count: int, m: int)
    requires
        gap >= 0,
        advancing(raw, count),
        0 <= m < bridged(raw, gap).len(),
    ensures
        stems(raw, gap, bridged(raw, gap)[m]),
    decreases raw.len(),
{
    let before = raw.drop_last();
    assert(raw.len() > 0);
    assert forall|k: int| 0 <= k < before.len() implies before[k] == raw[k] by {}
    assert(advancing(before, count));
    lemma_bridged(before, gap, count);
    let done = bridged(before, gap);
    let next = raw.last();
    let all = bridged(raw, gap);
    let n = raw.len() - 1;
    assert(raw[n] == next);
    let joins = done.len() > 0 && next.0 <= done.last().1 + gap;
    if m < done.len() {
        lemma_bridged_origin(before, gap, count, m);
        lemma_stems_grows(raw, gap, done[m]);
    }
    if m == all.len() - 1 {
        assert(ends_one(raw, next.1));
        assert(starts_one(raw, next.0));
        if joins {
            assert(before.last() == raw[n - 1]);
            assert(raw[n - 1].0 <= raw[n].0 && raw[n - 1].1 <= raw[n].1);
            assert(done.last() == done[m]);
            assert(all[m] == (done[m].0, next.1));
            assert(starts_one(raw, done[m].0));
        }
        assert forall|x: int| all[m].0 <= x < all[m].1 implies #[trigger] bridges(raw, gap, x) by {
            if next.0 <= x {
                assert(raw[n].0 <= x < raw[n].1);
            } else if x < done[m].1 {
                assert(bridges(raw, gap, x));
            } else {
                assert(raw[n - 1].1 <= x < raw[n].0);
            }
        }
    }
}

/// Whether frame `x` belongs to speech: it lies no more than `padding` frames
/// before or behind a long enough run, or in a pause between two of them of which
/// no more than `gap` frames are left without the padding.
pub open spec fn belongs(
    speech: Seq<bool>,
    min_frames: int,
    gap: int,
    padding: int,
    x: int,
) -> bool {
    ||| exists|run: (int, int)| #[trigger]
        is_run(speech, run, min_frames) && run.0 - padding <= x < run.1 + padding
    ||| exists|b: (int, int), c: (int, int)| #[trigger]
        is_run(speech, b, min_frames) && #[trigger] is_run(speech, c, min_frames) && b.1 <= x < c.0
            && c.0 - b.1 <= gap + 2 * padding
}

/// The regions reach no further than the speech: each starts the padding before
/// a long enough run and ends the padding behind one, as far as the recording
/// goes, and all of its frames belong to speech.
pub proof fn law_regions_hold_nothing_else(
    speech: Seq<bool>,
    min_frames: int,
    gap: int,
    padding: int,
    m: int,
)
    requires
        gap >= 0,
        padding >= 0,
        0 <= m < regions_of_speech(speech, min_frames, gap, padding).len(),
    ensures
        ({
            let region = regions_of_speech(speech, min_frames, gap, padding)[m];
            &&& exists|run: (int, int)| #[trigger]
                is_run(speech, run, min_frames) && (region.0 == run.0 - padding || region.0 == 0
                    && run.0 <= padding)
            &&& exists|run: (int, int)| #[trigger]
                is_run(speech, run, min_frames) && (region.1 == run.1 + padding || region.1
                    == speech.len() && run.1 + padding >= speech.len())
            &&& forall|x: int|
                region.0 <= x < region.1 ==> #[trigger] belongs(
                    speech,
                    min_frames,
                    gap,
                    padding,
                    x,
                )
        }),
{
    let runs = speech_runs(speech, 0, min_frames);
    let wide = widened_runs(speech, 0, min_frames, padding);
    let region = regions_of_speech(speech, min_frames, gap, padding)[m];
    let count = speech.len() as int;
    lemma_runs(speech, 0, min_frames);
    lemma_runs_are_maximal(speech, 0, min_frames);
    lemma_widened(speech, min_frames, padding);
    lemma_bridged_origin(wide, gap, count, m);
    let j = choose|j: int| 0 <= j < wide.len() && (#[trigger] wide[j]).0 == region.0;
    assert(is_run(speech, runs[j], min_frames));
    let k = choose|k: int| 0 <= k < wide.len() && (#[trigger] wide[k]).1 == region.1;
    assert(is_run(speech, runs[k], min_frames));
    assert forall|x: int| region.0 <= x < region.1 implies #[trigger] belongs(
        speech,
        min_frames,
        gap,
        padding,
        x,
    ) by {
        assert(bridges(wide, gap, x));
        if exists|k: int| 0 <= k < wide.len() && (#[trigger] wide[k]).0 <= x < wide[k].1 {
            let k = choose|k: int| 0 <= k < wide.len() && (#[trigger] wide[k]).0 <= x < wide[k].1;
            assert(is_run(speech, runs[k], min_frames));
        } else {
            let (j, k) = choose|j: int, k: int|
                0 <= j < wide.len() && 0 <= k < wide.len() && (#[trigger] wide[j]).1 <= x < (
                #[trigger] wide[k]).0 && wide[k].0 <= wide[j].1 + gap;
            assert(x < wide[k].1 <= count) by {
                assert(0 <= wide[k].0 < wide[k].1 <= count);
            }
            assert(is_run(speech, runs[j], min_frames));
            assert(is_run(speech, runs[k], min_frames));
        }
    }
}

/// Speech that lasts long enough lies within one region with the padding before
/// and behind it.
pub proof fn law_runs_are_kept(
    speech: Seq<bool>,
    min_frames: int,
    gap: int,
    padding: int,
    run: (int, int),
    x: int,
)
    requires
        gap >= 0,
        padding >= 0,
        is_run(speech, run, min_frames),
        0 <= x < speech.len(),
        run.0 - padding <= x < run.1 + padding,
    ensures
        within_one(regions_of_speech(speech, min_frames, gap, padding), x, x + 1),
{
    law_long_speech_is_kept(speech, min_frames, gap, padding, run.0, run.1);
    let wide = widened(run, padding, speech.len() as int);
    let regions = regions_of_speech(speech, min_frames, gap, padding);
    let m = choose|m: int|
        0 <= m < regions.len() && (#[trigger] regions[m]).0 <= wide.0 && wide.1 <= regions[m].1;
    assert(regions[m].0 <= x && x + 1 <= regions[m].1);
}

// ---------------------------------------------------------------------------
// Laws of the levels
// ---------------------------------------------------------------------------

/// The values of the samples, of which two bytes each make one, the lower first.
pub open spec fn sample_values(bytes: Seq<u8>) -> Seq<int> {
    Seq::new(
        bytes.len() / 2,
        |k: int|
            if bytes[2 * k + 1] < 128 {
                bytes[2 * k] + 256 * bytes[2 * k + 1]
            } else {
                bytes[2 * k] + 256 * bytes[2 * k + 1] - 65536
            },
    )
}

proof fn lemma_energy_is_sum(bytes: Seq<u8>, count: nat)
    requires
        2 * count <= bytes.len(),
    ensures
        energy(bytes, count) == sample_values(bytes).take(count as int).fold_left(
            0int,
            |sum: int, v: int| sum + v * v,
        ),
    decreases count,
{
    let values = sample_values(bytes);
    if count > 0 {
        lemma_energy_is_sum(bytes, (count - 1) as nat);
        assert(values.take(count as int).drop_last() =~= values.take(count - 1));
        assert(values.take(count as int).last() == sample(bytes, count - 1));
        lemma_square_bound(sample(bytes, count - 1));
    }
}

/// The square of the level of a stretch is the mean of the squares of its
/// samples, as nearly as a whole number can be: as many squares of the level as
/// there are samples are no more than the sum of their squares, and with the next
/// level they are more.
pub proof fn law_level_is_root_of_mean_square(bytes: Seq<u8>)
    requires
        bytes.len() >= 2,
        sample_values(bytes).fold_left(0int, |sum: int, v: int| sum + v * v) <= u64::MAX,
    ensures
        ({
            let sum = sample_values(bytes).fold_left(0int, |sum: int, v: int| sum + v * v);
            let count = bytes.len() as int / 2;
            let level = rms_level(bytes) as int;
            count * (level * level) <= sum < count * ((level + 1) * (level + 1))
        }),
{
    let values = sample_values(bytes);
    let count = bytes.len() as int / 2;
    assert(values.take(count) =~= values);
    lemma_energy_is_sum(bytes, count as nat);
    let sum = energy(bytes, count as nat) as int;
    let mean = sum / count;
    let level = rms_level(bytes) as int;
    lemma_floor_sqrt(mean as nat);
    assert(count * (level * level) <= sum < count * ((level + 1) * (level + 1)))
        by (nonlinear_arith)
        requires
            count > 0,
            sum >= 0,
            mean == sum / count,
            level * level <= mean < (level + 1) * (level + 1),
    {
        assert(count * mean <= sum < count * mean + count);
        assert(count * (level * level) <= count * mean);
        assert(count * (mean + 1) <= count * ((level + 1) * (level + 1)));
    }
}

/// The recording is divided into frames of the same length one after the other,
/// the last of which may be shorter, and each level is that of its own frame.
pub proof fn law_each_frame_has_its_level(data: Seq<u8>, frame_bytes: nat, i: int)
    requires
        frame_bytes > 0,
    ensures
        0 <= i < frame_levels(data, frame_bytes).len() <==> 0 <= i && i * frame_bytes < data.len(),
        0 <= i < frame_levels(data, frame_bytes).len() ==> frame_levels(data, frame_bytes)[i]
            == rms_level(
            data.subrange(
                i * frame_bytes,
                if (i + 1) * frame_bytes <= data.len() {
                    (i + 1) * frame_bytes
                } else {
                    data.len() as int
                },
            ),
        ),
    decreases data.len(),
{
    let levels = frame_levels(data, frame_bytes);
    assert((i + 1) * frame_bytes == i * frame_bytes + frame_bytes) by (nonlinear_arith);
    assert(i > 0 ==> i * frame_bytes >= frame_bytes) by (nonlinear_arith)
        requires
            frame_bytes > 0,
    ;
    assert(0 * frame_bytes == 0 && 1 * frame_bytes == frame_bytes) by (nonlinear_arith);
    if data.len() == 0 {
    } else if data.len() <= frame_bytes {
        lemma_level_is_small(data);
        assert(data.subrange(0, data.len() as int) =~= data);
    } else {
        let first = data.take(frame_bytes as int);
        let rest = data.skip(frame_bytes as int);
        law_each_frame_has_its_level(rest, frame_bytes, i - 1);
        lemma_level_is_small(first);
        assert((i - 1) * frame_bytes == i * frame_bytes - frame_bytes) by (nonlinear_arith);
        if i == 0 {
            assert(data.subrange(0, frame_bytes as int) =~= first);
        } else if 0 < i < levels.len() {
            assert(levels[i] == frame_levels(rest, frame_bytes)[i - 1]);
            let end = if (i + 1) * frame_bytes <= data.len() {
                (i + 1) * frame_bytes
            } else {
                data.len() as int
            };
            assert(rest.subrange((i - 1) * frame_bytes, end - frame_bytes) =~= data.subrange(
                i * frame_bytes,
                end,
            ));
        }
    }
}

proof fn lemma_level_is_small(bytes: Seq<u8>)
    ensures
        rms_level(bytes) < 65536,
{
    let count = bytes.len() / 2;
    if count > 0 {
        lemma_energy_bound(bytes, count);
        let sum = energy(bytes, count);
        let kept = if sum <= u64::MAX {
            sum
        } else {
            u64::MAX as nat
        };
        let mean = kept / count;
        assert(mean <= 1073741824) by (nonlinear_arith)
            requires
                mean == kept / count,
                kept <= count * 1073741824,
                count > 0,
        ;
        lemma_floor_sqrt(mean);
        let level = floor_sqrt(mean);
        assert(level < 65536) by (nonlinear_arith)
            requires
                level * level <= 1073741824,
        ;
    }
}

// ---------------------------------------------------------------------------
// Laws of the threshold
// ---------------------------------------------------------------------------

/// Whether `level` is the one that `rank` of the frames stay below or at: no more
/// than `rank` are below it, and more than `rank` are not above it.
pub open spec fn has_rank(levels: Seq<u32>, level: u32, rank: int) -> bool {
    levels.filter(|l: u32| l < level).len() <= rank < levels.filter(|l: u32| l <= level).len()
}

proof fn lemma_filter_of_same(a: Seq<u32>, b: Seq<u32>, p: spec_fn(u32) -> bool)
    requires
        a.to_multiset() == b.to_multiset(),
    ensures
        a.filter(p).len() == b.filter(p).len(),
    decreases a.len(),
{
    broadcast use vstd::seq_lib::group_to_multiset_ensures;

    assert(a.len() == a.to_multiset().len());
    assert(b.len() == b.to_multiset().len());
    if a.len() > 0 {
        let x = a.last();
        assert(a.contains(x));
        assert(a.to_multiset().count(x) > 0);
        assert(b.contains(x));
        let i = b.index_of(x);
        let left = b.take(i);
        let right = b.skip(i + 1);
        let rest = b.remove(i);
        assert(b =~= left.push(x) + right);
        assert(rest =~= left + right);
        assert(a.drop_last() =~= a.remove(a.len() - 1));
        assert(a.drop_last().to_multiset() =~= a.to_multiset().remove(x));
        assert(rest.to_multiset() =~= b.to_multiset().remove(x));
        lemma_filter_of_same(a.drop_last(), rest, p);
        Seq::filter_distributes_over_add(left.push(x), right, p);
        Seq::filter_distributes_over_add(left, right, p);
        left.lemma_filter_len_push(p, x);
        a.drop_last().lemma_filter_len_push(p, x);
        assert(a.drop_last().push(x) =~= a);
    } else {
        assert(b =~= a);
    }
}

proof fn lemma_filter_of_parts(s: Seq<u32>, p: spec_fn(u32) -> bool, at: int)
    requires
        0 <= at <= s.len(),
    ensures
        (forall|i: int| at <= i < s.len() ==> !p(s[i])) ==> s.filter(p).len() <= at,
        (forall|i: int| 0 <= i < at ==> p(s[i])) ==> s.filter(p).len() >= at,
    decreases s.len(),
{
    reveal(Seq::filter);
    if s.len() > 0 {
        let first = s.drop_last();
        s.lemma_filter_len(p);
        if at < s.len() {
            lemma_filter_of_parts(first, p, at);
            if forall|i: int| at <= i < s.len() ==> !p(s[i]) {
                assert(!p(s[s.len() - 1]));
                assert(forall|i: int| at <= i < first.len() ==> !p(first[i]));
            }
            if forall|i: int| 0 <= i < at ==> p(s[i]) {
                assert(forall|i: int| 0 <= i < at ==> p(first[i]));
            }
        } else {
            lemma_filter_of_parts(first, p, at - 1);
            if forall|i: int| 0 <= i < at ==> p(s[i]) {
                assert(p(s[at - 1]));
                assert(forall|i: int| 0 <= i < at - 1 ==> p(first[i]));
            }
        }
    }
}

proof fn lemma_ranked(levels: Seq<u32>, rank: int)
    requires
        0 <= rank < levels.len(),
    ensures
        has_rank(levels, ranked(levels, rank) as u32, rank),
        forall|x: u32| has_rank(levels, x, rank) ==> x == ranked(levels, rank),
{
    let leq = |a: u32, b: u32| a <= b;
    levels.lemma_sort_by_ensures(leq);
    let sorted = levels.sort_by(leq);
    sorted.to_multiset_ensures();
    levels.to_multiset_ensures();
    assert(sorted.len() == levels.len());
    assert forall|i: int, j: int| 0 <= i <= j < sorted.len() implies sorted[i] <= sorted[j] by {
        if i < j {
            assert(leq(sorted[i], sorted[j]));
        }
    }
    let y = sorted[rank];
    lemma_filter_of_same(levels, sorted, |l: u32| l < y);
    lemma_filter_of_same(levels, sorted, |l: u32| l <= y);
    lemma_filter_of_parts(sorted, |l: u32| l < y, rank);
    lemma_filter_of_parts(sorted, |l: u32| l <= y, rank + 1);
    assert forall|x: u32| has_rank(levels, x, rank) implies x == y by {
        lemma_filter_of_same(levels, sorted, |l: u32| l < x);
        lemma_filter_of_same(levels, sorted, |l: u32| l <= x);
        lemma_filter_of_parts(sorted, |l: u32| l < x, rank + 1);
        lemma_filter_of_parts(sorted, |l: u32| l <= x, rank);
        if y < x {
            assert(forall|i: int| 0 <= i < rank + 1 ==> sorted[i] < x);
        } else if x < y {
            assert(forall|i: int| rank <= i < sorted.len() ==> !(sorted[i] <= x));
        }
    }
}

/// There is a level for every rank, and only one.
pub proof fn law_ranks_exist(levels: Seq<u32>, rank: int) -> (level: u32)
    requires
        0 <= rank < levels.len(),
    ensures
        has_rank(levels, level, rank),
        levels.contains(level),
        forall|x: u32| has_rank(levels, x, rank) ==> x == level,
{
    lemma_ranked(levels, rank);
    let level = ranked(levels, rank) as u32;
    if !levels.contains(level) {
        lemma_filter_agrees(levels, |l: u32| l < level, |l: u32| l <= level);
    }
    level
}

proof fn lemma_filter_agrees(s: Seq<u32>, p: spec_fn(u32) -> bool, q: spec_fn(u32) -> bool)
    requires
        forall|i: int| 0 <= i < s.len() ==> p(s[i]) == q(s[i]),
    ensures
        s.filter(p) == s.filter(q),
    decreases s.len(),
{
    reveal(Seq::filter);
    if s.len() > 0 {
        let first = s.drop_last();
        assert(forall|i: int| 0 <= i < first.len() ==> first[i] == s[i]);
        lemma_filter_agrees(first, p, q);
        assert(p(s[s.len() - 1]) == q(s[s.len() - 1]));
    }
}

/// A frame holds speech exactly where its level is at least 120 and besides at
/// least three times the noise, which a fifth of the frames stay below, or at
/// least half of what is loud, which nine tenths of the frames stay below.
pub proof fn law_speech_stands_out(levels: Seq<u32>, noise: u32, loud: u32, i: int)
    requires
        0 <= i < levels.len(),
        has_rank(levels, noise, levels.len() as int / 5),
        has_rank(levels, loud, levels.len() as int * 9 / 10),
    ensures
        speech_frames(levels).len() == levels.len(),
        speech_frames(levels)[i] <==> levels[i] >= 120 && (levels[i] >= 3 * noise || 2 * levels[i]
            + 1 >= loud),
{
    lemma_ranked(levels, levels.len() as int / 5);
    lemma_ranked(levels, levels.len() as int * 9 / 10);
}

/// Speech that goes on without a pause is speech throughout: where no frame is
/// below 120 nor below half of the loudest, every frame holds speech.
pub proof fn law_steady_speech_is_kept(levels: Seq<u32>, i: int)
    requires
        0 <= i < levels.len(),
        levels[i] >= 120,
        forall|k: int| 0 <= k < levels.len() ==> 2 * levels[i] >= #[trigger] levels[k],
    ensures
        speech_frames(levels)[i],
{
    let noise = law_ranks_exist(levels, levels.len() as int / 5);
    let loud = law_ranks_exist(levels, levels.len() as int * 9 / 10);
    law_speech_stands_out(levels, noise, loud, i);
    let k = levels.index_of(loud);
    assert(levels[k] == loud);
}

} // verus!
