//! Packing regions of speech into chunks of audio for transcription.
use vstd::prelude::*;
use vstd::slice::slice_subrange;
use crate::vad::{
    belongs, detect_speech, frame_levels, is_run, law_long_speech_is_kept, law_regions_are_apart,
    law_regions_hold_nothing_else, law_runs_are_kept, law_silence_has_no_regions,
    lemma_frame_count, measure_levels, pair_views, regions_of_speech, speech_frames,
    speech_regions, widened, within_one,
};
use crate::wav::{
    header_fits, law_read_of_written, pcm_to_wav, wav_content, wav_file, PcmWav, WavContent,
    WavError,
};

verus! {

// ---------------------------------------------------------------------------
// Packing
// ---------------------------------------------------------------------------

/// A range of samples: where it starts, where it ends, and whether its start
/// repeats the end of the range before it.
pub type SampleRange = (int, int, bool);

/// The stretch from `start` to `end` in pieces of at most `longest` samples.
/// Each piece but the first starts `overlap` samples before the end of the
/// piece before it.
pub open spec fn cut(
    start: int,
    end: int,
    overlapping: bool,
    longest: int,
    overlap: int,
) -> Seq<SampleRange>
    decreases end - start,
{
    if end - start > longest && longest > overlap >= 0 {
        seq![(start, start + longest, overlapping)] + cut(
            start + longest - overlap,
            end,
            true,
            longest,
            overlap,
        )
    } else {
        seq![(start, end, overlapping)]
    }
}

/// How the numbers of samples limit a chunk.
pub struct Limits {
    /// Samples in a frame.
    pub frame: int,
    /// The length up to which regions are packed together.
    pub target: int,
    /// The longest that a chunk may be.
    pub longest: int,
    /// By how much the pieces of a region that is too long overlap.
    pub overlap: int,
}

/// The limits that go with a sample rate.
pub open spec fn limits(
    frame_samples: int,
    sample_rate: int,
    target_seconds: int,
    max_seconds: int,
) -> Limits {
    Limits {
        frame: frame_samples,
        target: target_seconds * sample_rate,
        longest: max_seconds * sample_rate,
        overlap: sample_rate,
    }
}

/// Adds a region of frames to the chunks. It joins the last chunk when the two
/// together are no longer than the target, and it is cut where it is too long.
pub open spec fn add_region(
    chunks: Seq<SampleRange>,
    region: (int, int),
    limits: Limits,
) -> Seq<SampleRange> {
    let start = region.0 * limits.frame;
    let end = region.1 * limits.frame;
    if chunks.len() > 0 && end - chunks.last().0 <= limits.target {
        chunks.drop_last() + cut(
            chunks.last().0,
            end,
            chunks.last().2,
            limits.longest,
            limits.overlap,
        )
    } else {
        chunks + cut(start, end, false, limits.longest, limits.overlap)
    }
}

/// The chunks that the regions are packed into.
pub open spec fn packed(regions: Seq<(int, int)>, limits: Limits) -> Seq<SampleRange>
    decreases regions.len(),
{
    if regions.len() == 0 {
        Seq::empty()
    } else {
        add_region(packed(regions.drop_last(), limits), regions.last(), limits)
    }
}

/// Whether a region can be added: its numbers of samples fit, it does not end
/// before the last chunk starts, and it is not so long that it would have to be
/// cut into pieces that make no progress.
pub open spec fn addable(
    chunks: Seq<SampleRange>,
    region: (int, int),
    limits: Limits,
) -> bool {
    let start = region.0 * limits.frame;
    let end = region.1 * limits.frame;
    let first = if chunks.len() > 0 && end - chunks.last().0 <= limits.target {
        chunks.last().0
    } else {
        start
    };
    &&& start <= usize::MAX
    &&& end <= usize::MAX
    &&& chunks.len() > 0 ==> chunks.last().0 <= end
    &&& end - first > limits.longest ==> limits.longest > limits.overlap
}

/// Whether the regions can be added one after the other.
pub open spec fn packable(regions: Seq<(int, int)>, limits: Limits) -> bool {
    &&& limits.target <= usize::MAX
    &&& limits.longest <= usize::MAX
    &&& forall|k: int|
        0 <= k < regions.len() ==> addable(
            packed(#[trigger] regions.take(k), limits),
            regions[k],
            limits,
        )
}

/// Ranges of positions as ranges of numbers.
pub open spec fn range_views(ranges: Seq<(usize, usize, bool)>) -> Seq<SampleRange> {
    ranges.map_values(|r: (usize, usize, bool)| (r.0 as int, r.1 as int, r.2))
}

/// The limits, given as numbers of samples.
spec fn sample_limits(frame: usize, target: usize, longest: usize, overlap: usize) -> Limits {
    Limits {
        frame: frame as int,
        target: target as int,
        longest: longest as int,
        overlap: overlap as int,
    }
}

/// Adds a region to the chunks.
fn pack_region(
    chunks: &mut Vec<(usize, usize, bool)>,
    region: (usize, usize),
    frame: usize,
    target: usize,
    longest: usize,
    overlap: usize,
)
    requires
        addable(
            range_views(old(chunks)@),
            (region.0 as int, region.1 as int),
            sample_limits(frame, target, longest, overlap),
        ),
    ensures
        range_views(final(chunks)@) == add_region(
            range_views(old(chunks)@),
            (region.0 as int, region.1 as int),
            sample_limits(frame, target, longest, overlap),
        ),
{
    let ghost lim = sample_limits(frame, target, longest, overlap);
    let ghost before = range_views(chunks@);
    let ghost wanted = add_region(before, (region.0 as int, region.1 as int), lim);
    let mut start = region.0 * frame;
    let end = region.1 * frame;
    let mut overlapping = false;
    let count = chunks.len();
    if count > 0 {
        let last = chunks[count - 1];
        assert(before.last() == (last.0 as int, last.1 as int, last.2));
        if end - last.0 <= target {
            start = last.0;
            overlapping = last.2;
            chunks.truncate(count - 1);
            assert(range_views(chunks@) =~= before.drop_last());
        }
    }
    let ghost base = range_views(chunks@);
    let ghost pieces = cut(start as int, end as int, overlapping, longest as int, overlap as int);
    let ghost mut done = Seq::<SampleRange>::empty();
    proof {
        assert(done + pieces =~= pieces);
        assert(base + done =~= base);
        assert(wanted == base + pieces);
    }
    while end > start && end - start > longest
        invariant
            end > start && end - start > longest ==> longest > overlap,
            pieces == done + cut(
                start as int,
                end as int,
                overlapping,
                longest as int,
                overlap as int,
            ),
            range_views(chunks@) == base + done,
        decreases end - start,
    {
        let split = start + longest;
        let ghost piece = (start as int, split as int, overlapping);
        let ghost old_done = done;
        let ghost old_chunks = chunks@;
        chunks.push((start, split, overlapping));
        start = split - overlap;
        overlapping = true;
        proof {
            done = done.push(piece);
            assert(range_views(chunks@) =~= range_views(old_chunks).push(piece));
            assert(base + done =~= (base + old_done).push(piece));
            let rest = cut(start as int, end as int, true, longest as int, overlap as int);
            assert(old_done + (seq![piece] + rest) =~= done + rest);
        }
    }
    let ghost old_chunks = chunks@;
    chunks.push((start, end, overlapping));
    proof {
        let piece = (start as int, end as int, overlapping);
        assert(cut(start as int, end as int, overlapping, longest as int, overlap as int)
            == seq![piece]);
        assert(range_views(chunks@) =~= range_views(old_chunks).push(piece));
        assert(base + (done + seq![piece]) =~= (base + done).push(piece));
    }
}

/// Packs regions of frames into chunks of about `target_seconds`. A chunk never
/// exceeds `max_seconds`: a longer region is cut, with one second of overlap.
pub fn pack_regions(
    regions: &[(usize, usize)],
    frame_samples: usize,
    sample_rate: usize,
    target_seconds: usize,
    max_seconds: usize,
) -> (chunks: Vec<(usize, usize, bool)>)
    requires
        packable(
            pair_views(regions@),
            limits(
                frame_samples as int,
                sample_rate as int,
                target_seconds as int,
                max_seconds as int,
            ),
        ),
    ensures
        range_views(chunks@) == packed(
            pair_views(regions@),
            limits(
                frame_samples as int,
                sample_rate as int,
                target_seconds as int,
                max_seconds as int,
            ),
        ),
{
    let ghost all = pair_views(regions@);
    let ghost lim = limits(
        frame_samples as int,
        sample_rate as int,
        target_seconds as int,
        max_seconds as int,
    );
    let target = target_seconds * sample_rate;
    let longest = max_seconds * sample_rate;
    let mut chunks: Vec<(usize, usize, bool)> = Vec::new();
    proof {
        assert(range_views(chunks@) =~= packed(all.take(0), lim));
    }
    for i in 0..regions.len()
        invariant
            all == pair_views(regions@),
            packable(all, lim),
            lim == sample_limits(frame_samples, target, longest, sample_rate),
            range_views(chunks@) == packed(all.take(i as int), lim),
    {
        proof {
            assert(addable(packed(all.take(i as int), lim), all[i as int], lim));
            assert(all.take(i + 1).drop_last() =~= all.take(i as int));
            assert(all.take(i + 1).last() == all[i as int]);
        }
        pack_region(&mut chunks, regions[i], frame_samples, target, longest, sample_rate);
    }
    proof {
        assert(all.take(all.len() as int) =~= all);
    }
    chunks
}

/// Whether a region can be added to the chunks.
fn region_fits(
    chunks: &Vec<(usize, usize, bool)>,
    region: (usize, usize),
    frame: usize,
    target: usize,
    longest: usize,
    overlap: usize,
) -> (r: bool)
    ensures
        r == addable(
            range_views(chunks@),
            (region.0 as int, region.1 as int),
            sample_limits(frame, target, longest, overlap),
        ),
{
    let start = match region.0.checked_mul(frame) {
        Some(start) => start,
        None => return false,
    };
    let end = match region.1.checked_mul(frame) {
        Some(end) => end,
        None => return false,
    };
    let mut first = start;
    let count = chunks.len();
    if count > 0 {
        let last = chunks[count - 1];
        proof {
            assert(range_views(chunks@).last() == (last.0 as int, last.1 as int, last.2));
        }
        if last.0 > end {
            return false;
        }
        if end - last.0 <= target {
            first = last.0;
        }
    }
    end <= first || end - first <= longest || longest > overlap
}

/// Whether `pack_regions` can be asked to pack the regions.
pub fn packing_fits(
    regions: &[(usize, usize)],
    frame_samples: usize,
    sample_rate: usize,
    target_seconds: usize,
    max_seconds: usize,
) -> (r: bool)
    ensures
        r == packable(
            pair_views(regions@),
            limits(
                frame_samples as int,
                sample_rate as int,
                target_seconds as int,
                max_seconds as int,
            ),
        ),
{
    let ghost all = pair_views(regions@);
    let ghost lim = limits(
        frame_samples as int,
        sample_rate as int,
        target_seconds as int,
        max_seconds as int,
    );
    let target = match target_seconds.checked_mul(sample_rate) {
        Some(target) => target,
        None => return false,
    };
    let longest = match max_seconds.checked_mul(sample_rate) {
        Some(longest) => longest,
        None => return false,
    };
    let mut chunks: Vec<(usize, usize, bool)> = Vec::new();
    proof {
        assert(range_views(chunks@) =~= packed(all.take(0), lim));
    }
    for i in 0..regions.len()
        invariant
            all == pair_views(regions@),
            lim == limits(
                frame_samples as int,
                sample_rate as int,
                target_seconds as int,
                max_seconds as int,
            ),
            lim == sample_limits(frame_samples, target, longest, sample_rate),
            range_views(chunks@) == packed(all.take(i as int), lim),
            forall|k: int|
                0 <= k < i ==> addable(packed(#[trigger] all.take(k), lim), all[k], lim),
    {
        proof {
            assert(all[i as int] == (regions@[i as int].0 as int, regions@[i as int].1 as int));
            assert(all.take(i + 1).drop_last() =~= all.take(i as int));
            assert(all.take(i + 1).last() == all[i as int]);
        }
        if !region_fits(&chunks, regions[i], frame_samples, target, longest, sample_rate) {
            proof {
                assert(!addable(packed(all.take(i as int), lim), all[i as int], lim));
            }
            return false;
        }
        pack_region(&mut chunks, regions[i], frame_samples, target, longest, sample_rate);
    }
    true
}

// ---------------------------------------------------------------------------
// Laws of packing
// ---------------------------------------------------------------------------

/// Whether one of the ranges holds sample `x`.
pub open spec fn covers(ranges: Seq<SampleRange>, x: int) -> bool {
    exists|k: int| 0 <= k < ranges.len() && (#[trigger] ranges[k]).0 <= x < ranges[k].1
}

/// Whether chunk `c` follows chunk `b` as it should: after a forced cut, which
/// comes only when `b` is full, it repeats exactly the overlap and goes on beyond
/// it, otherwise it starts no earlier than the other ends and the two together are
/// too long for one chunk.
pub open spec fn follows(b: SampleRange, c: SampleRange, limits: Limits) -> bool {
    if c.2 {
        b.1 - b.0 == limits.longest && c.0 == b.1 - limits.overlap && b.1 < c.1
    } else {
        c.0 >= b.1 && (c.1 - b.0 > limits.target || c.1 - b.0 > limits.longest)
    }
}

/// Whether no chunk is empty or longer than it may be, and each follows the one
/// before it as it should.
pub open spec fn well_packed(chunks: Seq<SampleRange>, limits: Limits) -> bool {
    &&& forall|k: int|
        0 <= k < chunks.len() ==> 0 < (#[trigger] chunks[k]).1 - chunks[k].0 <= limits.longest
    &&& chunks.len() > 0 ==> !chunks[0].2
    &&& forall|j: int, k: int|
        0 <= j && k == j + 1 && k < chunks.len() ==> follows(
            #[trigger] chunks[j],
            #[trigger] chunks[k],
            limits,
        )
}

/// Whether the regions are not empty, lie within `count` frames and are in order,
/// none beginning before the one before it ends.
pub open spec fn in_turn(regions: Seq<(int, int)>, count: int) -> bool {
    &&& forall|k: int|
        0 <= k < regions.len() ==> 0 <= (#[trigger] regions[k]).0 < regions[k].1 <= count
    &&& forall|j: int, k: int|
        0 <= j < k < regions.len() ==> (#[trigger] regions[j]).1 <= (#[trigger] regions[k]).0
}

/// How long each chunk is at least.
spec fn margin(limits: Limits) -> int {
    if limits.frame <= limits.overlap {
        limits.frame
    } else {
        1
    }
}

/// Whether `b` is full and `c` starts by repeating its end.
spec fn repeats(b: SampleRange, c: SampleRange, longest: int, overlap: int) -> bool {
    c.2 && b.1 - b.0 == longest && c.0 == b.1 - overlap && b.1 < c.1
}

/// What holds of the pieces that a stretch is cut into.
spec fn well_cut(
    pieces: Seq<SampleRange>,
    start: int,
    end: int,
    longest: int,
    overlap: int,
) -> bool {
    &&& pieces.len() > 0
    &&& pieces[0].0 == start
    &&& pieces.last().1 == end
    &&& forall|k: int|
        0 <= k < pieces.len() ==> {
            &&& 0 < (#[trigger] pieces[k]).1 - pieces[k].0 <= longest
            &&& pieces[k].1 <= end
            &&& pieces[k].0 == start || start <= pieces[k].0 < end - overlap
            &&& pieces[k].1 == end || (pieces[k].1 - pieces[k].0 == longest && longest
                > overlap)
        }
    &&& forall|j: int, k: int|
        0 <= j && k == j + 1 && k < pieces.len() ==> repeats(
            #[trigger] pieces[j],
            #[trigger] pieces[k],
            longest,
            overlap,
        )
}

proof fn lemma_cut(start: int, end: int, overlapping: bool, longest: int, overlap: int)
    requires
        start < end,
        overlap >= 0,
        end - start > longest ==> longest > overlap,
    ensures
        well_cut(cut(start, end, overlapping, longest, overlap), start, end, longest, overlap),
        cut(start, end, overlapping, longest, overlap)[0].1 == if start + longest <= end {
            start + longest
        } else {
            end
        },
        cut(start, end, overlapping, longest, overlap)[0].2 == overlapping,
        forall|x: int|
            start <= x < end ==> covers(cut(start, end, overlapping, longest, overlap), x),
    decreases end - start,
{
    let pieces = cut(start, end, overlapping, longest, overlap);
    if end - start > longest {
        let next = start + longest - overlap;
        lemma_cut(next, end, true, longest, overlap);
        let rest = cut(next, end, true, longest, overlap);
        let first = (start, start + longest, overlapping);
        assert(pieces == seq![first] + rest);
        assert(pieces.last() == rest.last());
        assert(rest[0].2);
        assert forall|k: int| 0 <= k < pieces.len() implies {
            &&& 0 < (#[trigger] pieces[k]).1 - pieces[k].0 <= longest
            &&& pieces[k].1 <= end
            &&& pieces[k].0 == start || start <= pieces[k].0 < end - overlap
            &&& pieces[k].1 == end || (pieces[k].1 - pieces[k].0 == longest && longest
                > overlap)
        } by {
            if k > 0 {
                assert(pieces[k] == rest[k - 1]);
            }
        }
        assert forall|j: int, k: int| 0 <= j && k == j + 1 && k < pieces.len() implies repeats(
            #[trigger] pieces[j],
            #[trigger] pieces[k],
            longest,
            overlap,
        ) by {
            assert(pieces[k] == rest[j]);
            if j > 0 {
                assert(pieces[j] == rest[j - 1]);
            }
        }
        assert(well_cut(pieces, start, end, longest, overlap));
        assert forall|x: int| start <= x < end implies covers(pieces, x) by {
            if x < start + longest {
                assert(pieces[0].0 <= x < pieces[0].1);
            } else {
                assert(covers(rest, x));
                let k = choose|k: int|
                    0 <= k < rest.len() && (#[trigger] rest[k]).0 <= x < rest[k].1;
                assert(pieces[k + 1] == rest[k]);
            }
        }
    } else {
        assert(pieces == seq![(start, end, overlapping)]);
        assert(well_cut(pieces, start, end, longest, overlap));
        assert forall|x: int| start <= x < end implies covers(pieces, x) by {
            assert(pieces[0].0 <= x < pieces[0].1);
        }
    }
}

/// Whether the chunks reach neither below zero nor beyond `end`, and each has at
/// least `space` samples.
spec fn bounded(chunks: Seq<SampleRange>, space: int, end: int) -> bool {
    forall|k: int|
        0 <= k < chunks.len() ==> 0 <= (#[trigger] chunks[k]).0 <= chunks[k].1 - space
            && chunks[k].1 <= end
}

proof fn lemma_add_region(done: Seq<SampleRange>, region: (int, int), limits: Limits)
    requires
        0 < limits.frame,
        0 <= limits.overlap,
        addable(done, region, limits),
        well_packed(done, limits),
        0 <= region.0 * limits.frame <= region.1 * limits.frame - limits.frame,
        done.len() > 0 ==> done.last().1 <= region.0 * limits.frame,
        bounded(done, margin(limits), region.0 * limits.frame),
    ensures
        well_packed(add_region(done, region, limits), limits),
        add_region(done, region, limits).len() > 0,
        add_region(done, region, limits).last().1 == region.1 * limits.frame,
        bounded(add_region(done, region, limits), margin(limits), region.1 * limits.frame),
        forall|x: int|
            covers(done, x) || region.0 * limits.frame <= x < region.1 * limits.frame
                ==> #[trigger] covers(add_region(done, region, limits), x),
{
    let frame = limits.frame;
    let chunks = add_region(done, region, limits);
    let start = region.0 * frame;
    let end = region.1 * frame;
    let joins = done.len() > 0 && end - done.last().0 <= limits.target;
    let kept = if joins {
        done.drop_last()
    } else {
        done
    };
    let first = if joins {
        done.last().0
    } else {
        start
    };
    let flag = joins && done.last().2;
    let pieces = cut(first, end, flag, limits.longest, limits.overlap);
    assert(chunks == kept + pieces);
    if joins {
        assert(done[done.len() - 1].0 < done[done.len() - 1].1);
    }
    lemma_cut(first, end, flag, limits.longest, limits.overlap);
    assert(chunks.last() == pieces.last());
    assert forall|k: int| 0 <= k < chunks.len() implies {
        &&& 0 < (#[trigger] chunks[k]).1 - chunks[k].0 <= limits.longest
        &&& 0 <= chunks[k].0 <= chunks[k].1 - margin(limits)
        &&& chunks[k].1 <= end
    } by {
        if k < kept.len() {
            assert(chunks[k] == done[k]);
        } else {
            assert(chunks[k] == pieces[k - kept.len()]);
        }
    }
    assert forall|j: int, k: int| 0 <= j && k == j + 1 && k < chunks.len() implies follows(
        #[trigger] chunks[j],
        #[trigger] chunks[k],
        limits,
    ) by {
        if k < kept.len() {
            assert(follows(done[j], done[k], limits));
        } else if j >= kept.len() {
            assert(chunks[j] == pieces[j - kept.len()]);
            assert(chunks[k] == pieces[k - kept.len()]);
        } else {
            assert(chunks[k] == pieces[0]);
            assert(chunks[j] == done[j]);
            if joins {
                assert(follows(done[j], done[k], limits));
                assert(done[k].1 <= pieces[0].1);
            }
        }
    }
    assert(!chunks[0].2) by {
        if kept.len() > 0 {
            assert(chunks[0] == done[0]);
        } else {
            assert(chunks[0] == pieces[0]);
        }
    }
    assert forall|x: int| covers(done, x) || start <= x < end implies #[trigger] covers(
        chunks,
        x,
    ) by {
        if first <= x < end {
            assert(covers(pieces, x));
            let m = choose|m: int|
                0 <= m < pieces.len() && (#[trigger] pieces[m]).0 <= x < pieces[m].1;
            assert(chunks[kept.len() + m] == pieces[m]);
        } else {
            let m = choose|m: int| 0 <= m < done.len() && (#[trigger] done[m]).0 <= x < done[m].1;
            assert(done[m].1 <= start);
            assert(chunks[m] == done[m]);
        }
    }
}

proof fn lemma_packed(regions: Seq<(int, int)>, limits: Limits, count: int)
    requires
        0 < limits.frame,
        0 <= limits.overlap,
        packable(regions, limits),
        in_turn(regions, count),
    ensures
        well_packed(packed(regions, limits), limits),
        regions.len() == 0 ==> packed(regions, limits).len() == 0,
        regions.len() > 0 ==> {
            &&& packed(regions, limits).len() > 0
            &&& packed(regions, limits).last().1 == regions.last().1 * limits.frame
            &&& bounded(packed(regions, limits), margin(limits), regions.last().1 * limits.frame)
        },
        forall|k: int, x: int|
            0 <= k < regions.len() && (#[trigger] regions[k]).0 * limits.frame <= x < regions[k].1
                * limits.frame ==> #[trigger] covers(packed(regions, limits), x),
    decreases regions.len(),
{
    if regions.len() > 0 {
        let before = regions.drop_last();
        let region = regions.last();
        let frame = limits.frame;
        assert forall|k: int| 0 <= k < before.len() implies addable(
            packed(#[trigger] before.take(k), limits),
            before[k],
            limits,
        ) by {
            assert(before.take(k) == regions.take(k));
        }
        lemma_packed(before, limits, count);
        let done = packed(before, limits);
        assert(region == regions[regions.len() - 1]);
        assert(0 <= region.0 * frame <= region.1 * frame - frame) by (nonlinear_arith)
            requires
                0 <= region.0 < region.1,
                frame > 0,
        ;
        if before.len() > 0 {
            let previous = before.last();
            assert(previous == regions[regions.len() - 2]);
            assert(previous.1 * frame <= region.0 * frame) by (nonlinear_arith)
                requires
                    previous.1 <= region.0,
                    frame > 0,
            ;
            assert(bounded(done, margin(limits), region.0 * frame));
        }
        assert(regions.take(regions.len() - 1) == before);
        lemma_add_region(done, region, limits);
        assert forall|k: int, x: int|
            0 <= k < regions.len() && (#[trigger] regions[k]).0 * limits.frame <= x < regions[k].1
                * limits.frame implies #[trigger] covers(packed(regions, limits), x) by {
            if k < before.len() {
                assert(before[k].0 * limits.frame <= x);
                assert(covers(done, x));
            }
        }
    }
}

/// Packed regions make chunks that are neither empty nor too long, that overlap
/// only after a forced cut of a full chunk and then by exactly the overlap, and
/// that hold every sample of every region.
pub proof fn law_packing(regions: Seq<(int, int)>, limits: Limits, count: int)
    requires
        0 < limits.frame,
        0 <= limits.overlap,
        packable(regions, limits),
        in_turn(regions, count),
    ensures
        well_packed(packed(regions, limits), limits),
        forall|k: int, x: int|
            0 <= k < regions.len() && (#[trigger] regions[k]).0 * limits.frame <= x < regions[k].1
                * limits.frame ==> #[trigger] covers(packed(regions, limits), x),
{
    lemma_packed(regions, limits, count);
}

/// Whether a region starts at sample `x`.
pub open spec fn starts_at(regions: Seq<(int, int)>, frame: int, x: int) -> bool {
    exists|j: int| 0 <= j < regions.len() && (#[trigger] regions[j]).0 * frame == x
}

/// Whether a region ends at sample `x`.
pub open spec fn ends_at(regions: Seq<(int, int)>, frame: int, x: int) -> bool {
    exists|j: int| 0 <= j < regions.len() && (#[trigger] regions[j]).1 * frame == x
}

/// Whether a region holds sample `x`.
pub open spec fn holds(regions: Seq<(int, int)>, frame: int, x: int) -> bool {
    exists|j: int|
        0 <= j < regions.len() && (#[trigger] regions[j]).0 * frame <= x < regions[j].1 * frame
}

/// Whether the chunks are made of the regions and nothing else: a chunk starts
/// with a region unless it repeats the end of the one before it, it ends with a
/// region unless its end is repeated, and it reaches beyond the end of a region
/// only where it is no longer than the target.
pub open spec fn made_of(
    chunks: Seq<SampleRange>,
    regions: Seq<(int, int)>,
    limits: Limits,
) -> bool {
    &&& forall|k: int|
        0 <= k < chunks.len() ==> {
            &&& !(#[trigger] chunks[k]).2 ==> starts_at(regions, limits.frame, chunks[k].0)
            &&& limits.target <= limits.longest ==> holds(regions, limits.frame, chunks[k].0)
            &&& ends_at(regions, limits.frame, chunks[k].1) || (k + 1 < chunks.len() && chunks[k
                + 1].2)
        }
    &&& forall|k: int, j: int|
        0 <= k < chunks.len() && 0 <= j < regions.len() && (#[trigger] chunks[k]).0 < (
        #[trigger] regions[j]).1 * limits.frame < chunks[k].1 ==> chunks[k].1 - chunks[k].0
            <= limits.target
}

proof fn lemma_more_regions(regions: Seq<(int, int)>, frame: int, x: int)
    requires
        regions.len() > 0,
    ensures
        starts_at(regions.drop_last(), frame, x) ==> starts_at(regions, frame, x),
        ends_at(regions.drop_last(), frame, x) ==> ends_at(regions, frame, x),
        holds(regions.drop_last(), frame, x) ==> holds(regions, frame, x),
{
    let before = regions.drop_last();
    if starts_at(before, frame, x) {
        let j = choose|j: int| 0 <= j < before.len() && (#[trigger] before[j]).0 * frame == x;
        assert(regions[j].0 * frame == x);
    }
    if ends_at(before, frame, x) {
        let j = choose|j: int| 0 <= j < before.len() && (#[trigger] before[j]).1 * frame == x;
        assert(regions[j].1 * frame == x);
    }
    if holds(before, frame, x) {
        let j = choose|j: int|
            0 <= j < before.len() && (#[trigger] before[j]).0 * frame <= x < before[j].1 * frame;
        assert(regions[j].0 * frame <= x < regions[j].1 * frame);
    }
}

/// The chunks are made of the regions and nothing else.
#[verifier::spinoff_prover]
#[verifier::rlimit(60)]
pub proof fn law_chunks_are_made_of_regions(regions: Seq<(int, int)>, limits: Limits, count: int)
    requires
        0 < limits.frame,
        0 <= limits.overlap,
        packable(regions, limits),
        in_turn(regions, count),
    ensures
        made_of(packed(regions, limits), regions, limits),
    decreases regions.len(),
{
    if regions.len() > 0 {
        let before = regions.drop_last();
        let region = regions.last();
        let last = regions.len() - 1;
        let frame = limits.frame;
        assert forall|k: int| 0 <= k < before.len() implies addable(
            packed(#[trigger] before.take(k), limits),
            before[k],
            limits,
        ) by {
            assert(before.take(k) == regions.take(k));
        }
        assert(regions.take(last) == before);
        assert(region == regions[last]);
        law_chunks_are_made_of_regions(before, limits, count);
        lemma_packed(before, limits, count);
        let done = packed(before, limits);
        let chunks = packed(regions, limits);
        let start = region.0 * frame;
        let end = region.1 * frame;
        assert(0 <= start < end) by (nonlinear_arith)
            requires
                0 <= region.0 < region.1,
                frame > 0,
                start == region.0 * frame,
                end == region.1 * frame,
        ;
        assert forall|j: int| 0 <= j < before.len() implies (#[trigger] regions[j]).1 * frame
            <= start by {
            let previous = regions[j];
            assert(previous.1 <= region.0);
            assert(previous.1 * frame <= region.0 * frame) by (nonlinear_arith)
                requires
                    previous.1 <= region.0,
                    frame > 0,
            ;
        }
        if before.len() > 0 {
            assert(before.last() == regions[last - 1]);
        }
        assert forall|k: int| 0 <= k < done.len() implies (#[trigger] done[k]).1 <= start by {}
        let joins = done.len() > 0 && end - done.last().0 <= limits.target;
        let kept = if joins {
            done.drop_last()
        } else {
            done
        };
        let first = if joins {
            done.last().0
        } else {
            start
        };
        let flag = joins && done.last().2;
        let pieces = cut(first, end, flag, limits.longest, limits.overlap);
        assert(chunks == kept + pieces);
        if joins {
            assert(done[done.len() - 1].0 < done[done.len() - 1].1);
        }
        assert(first < end);
        lemma_cut(first, end, flag, limits.longest, limits.overlap);
        assert(starts_at(regions, frame, start)) by {
            assert(regions[last].0 * frame == start);
        }
        assert(ends_at(regions, frame, end)) by {
            assert(regions[last].1 * frame == end);
        }
        assert forall|k: int| 0 <= k < chunks.len() implies {
            &&& !(#[trigger] chunks[k]).2 ==> starts_at(regions, frame, chunks[k].0)
            &&& limits.target <= limits.longest ==> holds(regions, frame, chunks[k].0)
            &&& ends_at(regions, frame, chunks[k].1) || (k + 1 < chunks.len() && chunks[k + 1].2)
        } by {
            lemma_more_regions(regions, frame, chunks[k].0);
            lemma_more_regions(regions, frame, chunks[k].1);
            if k < kept.len() {
                assert(chunks[k] == done[k]);
                if k + 1 < kept.len() {
                    assert(chunks[k + 1] == done[k + 1]);
                } else {
                    assert(chunks[k + 1] == pieces[0]);
                    if joins {
                        assert(done[k + 1] == done.last());
                    }
                }
            } else {
                let m = k - kept.len();
                assert(chunks[k] == pieces[m]);
                if m > 0 {
                    assert(repeats(pieces[m - 1], pieces[m], limits.longest, limits.overlap));
                }
                if m + 1 < pieces.len() {
                    assert(chunks[k + 1] == pieces[m + 1]);
                    assert(repeats(pieces[m], pieces[m + 1], limits.longest, limits.overlap));
                } else {
                    assert(pieces[m] == pieces.last());
                }
                if joins {
                    assert(done.last() == done[done.len() - 1]);
                    lemma_more_regions(regions, frame, first);
                    if limits.target <= limits.longest {
                        assert(pieces == seq![(first, end, flag)]);
                    }
                } else {
                    assert(start <= pieces[m].0 < end);
                    assert(regions[last].0 * frame <= pieces[m].0 < regions[last].1 * frame);
                }
            }
        }
        assert forall|k: int, j: int|
            0 <= k < chunks.len() && 0 <= j < regions.len() && (#[trigger] chunks[k]).0 < (
            #[trigger] regions[j]).1 * frame < chunks[k].1 implies chunks[k].1 - chunks[k].0
            <= limits.target by {
            if k < kept.len() {
                assert(chunks[k] == done[k]);
                assert(j < before.len());
                assert(before[j] == regions[j]);
            } else {
                let m = k - kept.len();
                assert(chunks[k] == pieces[m]);
                assert(first <= pieces[m].0 && pieces[m].1 <= end);
            }
        }
    }
}

/// Regions that are in order can be packed whenever chunks may be longer than the
/// overlap.
pub proof fn law_regions_are_packable(regions: Seq<(int, int)>, limits: Limits, count: int)
    requires
        0 < limits.frame,
        0 <= limits.overlap < limits.longest,
        limits.target <= usize::MAX,
        limits.longest <= usize::MAX,
        count * limits.frame <= usize::MAX,
        in_turn(regions, count),
    ensures
        packable(regions, limits),
    decreases regions.len(),
{
    if regions.len() > 0 {
        let before = regions.drop_last();
        let region = regions.last();
        let frame = limits.frame;
        law_regions_are_packable(before, limits, count);
        lemma_packed(before, limits, count);
        assert(region == regions[regions.len() - 1]);
        assert(0 <= region.0 * frame < region.1 * frame <= count * frame) by (nonlinear_arith)
            requires
                0 <= region.0 < region.1 <= count,
                frame > 0,
        ;
        let done = packed(before, limits);
        if done.len() > 0 {
            let previous = before.last();
            assert(previous == regions[regions.len() - 2]);
            assert(previous.1 * frame <= region.0 * frame) by (nonlinear_arith)
                requires
                    previous.1 <= region.0,
                    frame > 0,
            ;
            assert(done[done.len() - 1].0 <= previous.1 * frame);
        }
        assert(addable(done, region, limits));
        assert forall|k: int| 0 <= k < regions.len() implies addable(
            packed(#[trigger] regions.take(k), limits),
            regions[k],
            limits,
        ) by {
            if k < before.len() {
                assert(before.take(k) == regions.take(k));
            } else {
                assert(regions.take(k) == before);
            }
        }
    }
}

// ---------------------------------------------------------------------------
// Chunks of audio
// ---------------------------------------------------------------------------

/// How recordings are divided for transcription.
#[derive(Debug, Clone, Copy, PartialEq, Eq, Structural)]
pub struct SmartChunkConfig {
    pub enabled: bool,
    pub concurrency: usize,
    pub target_seconds: u64,
    pub max_seconds: u64,
}

/// A part of a recording, as a WAVE file of its own.
#[derive(Debug)]
pub struct AudioChunk {
    pub index: usize,
    pub start_ms: u64,
    pub end_ms: u64,
    pub overlap_before: bool,
    pub wav: Vec<u8>,
}

/// What an `AudioChunk` says.
#[verifier::ext_equal]
pub struct ChunkContent {
    pub index: int,
    pub start_ms: int,
    pub end_ms: int,
    pub overlap_before: bool,
    pub wav: Seq<u8>,
}

impl View for AudioChunk {
    type V = ChunkContent;

    open spec fn view(&self) -> ChunkContent {
        ChunkContent {
            index: self.index as int,
            start_ms: self.start_ms as int,
            end_ms: self.end_ms as int,
            overlap_before: self.overlap_before,
            wav: self.wav@,
        }
    }
}

/// What the chunks say.
pub open spec fn chunk_views(chunks: Seq<AudioChunk>) -> Seq<ChunkContent> {
    chunks.map_values(|c: AudioChunk| c@)
}

/// The samples of one channel in a frame of a fiftieth of a second.
pub open spec fn frame_samples(content: WavContent) -> int {
    if content.sample_rate / 50 >= 1 {
        content.sample_rate / 50
    } else {
        1
    }
}

/// The bytes that the samples of all channels at one moment take.
pub open spec fn sample_bytes(content: WavContent) -> int {
    content.channels * 2
}

/// The bytes in a frame.
pub open spec fn frame_bytes(content: WavContent) -> int {
    frame_samples(content) * sample_bytes(content)
}

/// The levels of the frames of the recording.
pub open spec fn levels_in(content: WavContent) -> Seq<u32> {
    frame_levels(content.data, frame_bytes(content) as nat)
}

/// Which frames of the recording hold speech.
pub open spec fn speech_in(content: WavContent) -> Seq<bool> {
    speech_frames(levels_in(content))
}

/// The regions of speech: at least 10 frames of it, 13 frames of padding around
/// it, joined across gaps of up to 35 frames.
pub open spec fn spoken_regions(content: WavContent) -> Seq<(int, int)> {
    regions_of_speech(speech_in(content), 10, 35, 13)
}

/// The limits on the chunks of a recording.
pub open spec fn chunk_limits(content: WavContent, config: SmartChunkConfig) -> Limits {
    limits(
        frame_samples(content),
        content.sample_rate,
        config.target_seconds as int,
        config.max_seconds as int,
    )
}

/// The ranges of samples that the chunks hold.
pub open spec fn chunk_ranges(content: WavContent, config: SmartChunkConfig) -> Seq<SampleRange> {
    if content.data.len() < sample_bytes(content) {
        Seq::empty()
    } else {
        packed(spoken_regions(content), chunk_limits(content, config))
    }
}

/// The bytes of a range of samples, as far as the recording goes.
pub open spec fn range_pcm(content: WavContent, range: SampleRange) -> Seq<u8> {
    let start = range.0 * sample_bytes(content);
    let end = range.1 * sample_bytes(content);
    content.data.subrange(
        start,
        if end <= content.data.len() {
            end
        } else {
            content.data.len() as int
        },
    )
}

/// The chunk made of a range of samples.
pub open spec fn chunk_of(content: WavContent, index: int, range: SampleRange) -> ChunkContent {
    ChunkContent {
        index,
        start_ms: range.0 * 1000 / content.sample_rate,
        end_ms: range.1 * 1000 / content.sample_rate,
        overlap_before: range.2,
        wav: wav_file(range_pcm(content, range), content.sample_rate, content.channels),
    }
}

/// The chunks of a recording.
pub open spec fn audio_chunks(content: WavContent, config: SmartChunkConfig) -> Seq<ChunkContent> {
    let ranges = chunk_ranges(content, config);
    Seq::new(ranges.len(), |k: int| chunk_of(content, k, ranges[k]))
}

/// Whether a range of the recording is too long for a file of its own.
pub open spec fn has_oversized(content: WavContent, config: SmartChunkConfig) -> bool {
    let ranges = chunk_ranges(content, config);
    exists|k: int|
        0 <= k < ranges.len() && range_pcm(content, #[trigger] ranges[k]).len() > u32::MAX
}

/// Whether a recording has a rate and a channel.
pub open spec fn playable(content: WavContent) -> bool {
    0 < content.sample_rate <= u32::MAX && 0 < content.channels <= u16::MAX
}

/// Whether the numbers that come up in dividing a recording fit.
pub open spec fn divisible(content: WavContent, config: SmartChunkConfig) -> bool {
    content.data.len() >= sample_bytes(content) ==> {
        let ranges = chunk_ranges(content, config);
        &&& content.data.len() + frame_bytes(content) + 35 <= usize::MAX
        &&& (content.data.len() + frame_bytes(content)) * 1000 <= u64::MAX
        &&& packable(spoken_regions(content), chunk_limits(content, config))
        &&& forall|k: int|
            0 <= k < ranges.len() && range_pcm(content, #[trigger] ranges[k]).len() <= u32::MAX
                ==> header_fits(
                range_pcm(content, ranges[k]).len() as int,
                content.sample_rate,
                content.channels,
            )
    }
}

/// Where the ranges lie in the recording.
proof fn lemma_ranges(content: WavContent, config: SmartChunkConfig)
    requires
        playable(content),
        content.data.len() >= sample_bytes(content),
        packable(spoken_regions(content), chunk_limits(content, config)),
    ensures
        ({
            let ranges = chunk_ranges(content, config);
            &&& well_packed(ranges, chunk_limits(content, config))
            &&& forall|k: int|
                0 <= k < ranges.len() ==> {
                    &&& 0 <= (#[trigger] ranges[k]).0
                    &&& ranges[k].0 * sample_bytes(content) < content.data.len()
                    &&& ranges[k].0 * sample_bytes(content) < ranges[k].1 * sample_bytes(content)
                    &&& ranges[k].1 * sample_bytes(content) < content.data.len() + frame_bytes(
                        content,
                    )
                    &&& ranges[k].1 <= ranges[k].1 * sample_bytes(content)
                    &&& ranges[k].0 + frame_samples(content) <= ranges[k].1
                }
        }),
{
    let lim = chunk_limits(content, config);
    let regions = spoken_regions(content);
    let ranges = chunk_ranges(content, config);
    let count = speech_in(content).len() as int;
    let frame = frame_samples(content);
    let width = sample_bytes(content);
    let bytes = frame_bytes(content);
    let length = content.data.len() as int;
    assert(bytes > 0) by (nonlinear_arith)
        requires
            bytes == frame * width,
            frame > 0,
            width > 0,
    ;
    law_regions_are_apart(speech_in(content), 10, 35, 13);
    lemma_frame_count(content.data, bytes as nat);
    assert(count == frame_levels(content.data, bytes as nat).len());
    lemma_packed(regions, lim, count);
    assert forall|k: int| 0 <= k < ranges.len() implies {
        &&& 0 <= (#[trigger] ranges[k]).0
        &&& ranges[k].0 * width < length
        &&& ranges[k].0 * width < ranges[k].1 * width
        &&& ranges[k].1 * width < length + bytes
        &&& ranges[k].1 <= ranges[k].1 * width
        &&& ranges[k].0 + frame <= ranges[k].1
    } by {
        let range = ranges[k];
        let stop = regions.last().1;
        assert(0 < stop <= count) by {
            assert(regions.last() == regions[regions.len() - 1]);
        }
        assert(0 <= range.0 <= stop * frame - frame);
        assert(0 < range.1 - range.0 && range.1 <= stop * frame);
        assert(range.0 * width <= (count - 1) * bytes) by (nonlinear_arith)
            requires
                0 <= range.0 <= stop * frame - frame,
                stop <= count,
                frame > 0,
                width > 0,
                bytes == frame * width,
        {
            assert(range.0 <= (count - 1) * frame);
            assert(range.0 * width <= ((count - 1) * frame) * width);
            assert(((count - 1) * frame) * width == (count - 1) * (frame * width));
        }
        assert(range.1 * width <= (count - 1) * bytes + bytes) by (nonlinear_arith)
            requires
                0 <= range.1 <= stop * frame,
                stop <= count,
                frame > 0,
                width > 0,
                bytes == frame * width,
        {
            assert(range.1 <= count * frame);
            assert(range.1 * width <= (count * frame) * width);
            assert((count * frame) * width == count * (frame * width));
            assert(count * bytes == (count - 1) * bytes + bytes);
        }
        assert(range.0 * width < range.1 * width && range.1 <= range.1 * width)
            by (nonlinear_arith)
            requires
                0 <= range.0 < range.1,
                width > 0,
        ;
    }
}

/// The samples of one channel in a frame of a fiftieth of a second.
fn samples_per_frame(sample_rate: u32) -> (frame: usize)
    ensures
        frame == (if sample_rate / 50 >= 1 {
            sample_rate / 50
        } else {
            1
        }),
{
    if sample_rate / 50 >= 1 {
        (sample_rate / 50) as usize
    } else {
        1
    }
}

/// Finds the regions of speech of a recording.
fn find_speech(wav: &PcmWav<'_>) -> (regions: Vec<(usize, usize)>)
    requires
        playable(wav@),
        wav@.data.len() >= sample_bytes(wav@),
        wav@.data.len() + frame_bytes(wav@) + 35 <= usize::MAX,
    ensures
        pair_views(regions@) == spoken_regions(wav@),
{
    let ghost content = wav@;
    let width = wav.channels as usize * 2;
    let frame = samples_per_frame(wav.sample_rate);
    proof {
        assert(frame * width == frame_bytes(content));
        assert(frame * width > 0) by (nonlinear_arith)
            requires
                frame > 0,
                width > 0,
        ;
        lemma_frame_count(content.data, frame_bytes(content) as nat);
    }
    let levels = measure_levels(wav.data, frame * width);
    proof {
        let n = levels@.len() as int;
        assert(n <= content.data.len()) by (nonlinear_arith)
            requires
                (n - 1) * (frame * width) < content.data.len(),
                frame * width > 0,
                n > 0,
        ;
    }
    let speech = detect_speech(&levels);
    speech_regions(speech.as_slice(), 10, 35, 13)
}

/// Divides a recording into chunks of speech for transcription.
pub fn vad_chunks(wav: &PcmWav<'_>, config: &SmartChunkConfig) -> (r: Result<
    Vec<AudioChunk>,
    WavError,
>)
    requires
        playable(wav@),
        divisible(wav@, *config),
    ensures
        match r {
            Ok(chunks) => {
                &&& !has_oversized(wav@, *config)
                &&& chunk_views(chunks@) == audio_chunks(wav@, *config)
            },
            Err(e) => has_oversized(wav@, *config) && e == WavError::TooLarge,
        },
{
    let ghost content = wav@;
    let width = wav.channels as usize * 2;
    if wav.data.len() < width {
        let none: Vec<AudioChunk> = Vec::new();
        proof {
            assert(chunk_views(none@) =~= audio_chunks(content, *config));
        }
        return Ok(none);
    }
    let per_second = wav.sample_rate as usize;
    proof {
        assert(config.target_seconds <= config.target_seconds * per_second) by (nonlinear_arith)
            requires
                per_second >= 1,
        ;
        assert(config.max_seconds <= config.max_seconds * per_second) by (nonlinear_arith)
            requires
                per_second >= 1,
        ;
        lemma_ranges(content, *config);
    }
    let regions = find_speech(wav);
    let ranges = pack_regions(
        regions.as_slice(),
        samples_per_frame(wav.sample_rate),
        per_second,
        config.target_seconds as usize,
        config.max_seconds as usize,
    );
    let ghost wanted = chunk_ranges(content, *config);
    assert(range_views(ranges@) == wanted);
    let mut chunks: Vec<AudioChunk> = Vec::new();
    proof {
        assert(chunk_views(chunks@) =~= audio_chunks(content, *config).take(0));
    }
    for index in 0..ranges.len()
        invariant
            content == wav@,
            playable(content),
            divisible(content, *config),
            content.data.len() >= sample_bytes(content),
            width == sample_bytes(content),
            wanted == chunk_ranges(content, *config),
            range_views(ranges@) == wanted,
            chunk_views(chunks@) == audio_chunks(content, *config).take(index as int),
            forall|k: int|
                0 <= k < index ==> range_pcm(content, #[trigger] wanted[k]).len() <= u32::MAX,
    {
        let (start, end, overlap_before) = ranges[index];
        proof {
            lemma_ranges(content, *config);
            assert(wanted[index as int] == (start as int, end as int, overlap_before));
        }
        let start_byte = start * width;
        let end_byte = if end * width <= wav.data.len() {
            end * width
        } else {
            wav.data.len()
        };
        let pcm = slice_subrange(wav.data, start_byte, end_byte);
        proof {
            assert(pcm@ == range_pcm(content, wanted[index as int]));
        }
        match pcm_to_wav(pcm, wav.sample_rate, wav.channels) {
            Ok(file) => {
                let ghost before = chunks@;
                let chunk = AudioChunk {
                    index,
                    start_ms: start as u64 * 1000 / wav.sample_rate as u64,
                    end_ms: end as u64 * 1000 / wav.sample_rate as u64,
                    overlap_before,
                    wav: file,
                };
                proof {
                    assert(chunk@ == chunk_of(content, index as int, wanted[index as int]));
                }
                chunks.push(chunk);
                proof {
                    assert(chunk_views(chunks@) =~= chunk_views(before).push(chunk@));
                    assert(audio_chunks(content, *config).take(index + 1) =~= audio_chunks(
                        content,
                        *config,
                    ).take(index as int).push(chunk@));
                }
            },
            Err(e) => {
                return Err(e);
            },
        }
    }
    proof {
        assert(audio_chunks(content, *config).take(wanted.len() as int) =~= audio_chunks(
            content,
            *config,
        ));
    }
    Ok(chunks)
}

/// The most bytes that a chunk can take: as many as the longest chunk has, or
/// those of the whole recording.
pub open spec fn most_bytes(content: WavContent, config: SmartChunkConfig) -> int {
    let longest = config.max_seconds * content.sample_rate * sample_bytes(content);
    if longest <= content.data.len() {
        longest
    } else {
        content.data.len() as int
    }
}

/// Whether a recording is small enough, and its chunks are long enough, for the
/// recording to be divided whatever it holds.
pub open spec fn surely_divisible(content: WavContent, config: SmartChunkConfig) -> bool {
    &&& playable(content)
    &&& content.data.len() + frame_bytes(content) + 35 <= usize::MAX
    &&& (content.data.len() + frame_bytes(content)) * 1000 <= u64::MAX
    &&& config.target_seconds * content.sample_rate <= usize::MAX
    &&& config.max_seconds * content.sample_rate <= usize::MAX
    &&& config.max_seconds >= 2
    &&& header_fits(most_bytes(content, config), content.sample_rate, content.channels)
}

/// Whether a recording can be divided whatever it holds.
fn chunking_surely_fits(wav: &PcmWav<'_>, config: &SmartChunkConfig) -> (r: bool)
    ensures
        r == surely_divisible(wav@, *config),
        r ==> divisible(wav@, *config),
{
    let ghost content = wav@;
    if wav.sample_rate == 0 || wav.channels == 0 {
        return false;
    }
    let length = wav.data.len() as u128;
    let rate = wav.sample_rate as u128;
    let channels = wav.channels as u128;
    let width: u128 = channels * 2;
    let frame: u128 = if rate / 50 >= 1 {
        rate / 50
    } else {
        1
    };
    let target = config.target_seconds as u128;
    let longest = config.max_seconds as u128;
    proof {
        assert(frame * width <= 0x1_0000_0000 * 0x2_0000) by (nonlinear_arith)
            requires
                frame <= 0x1_0000_0000,
                width <= 0x2_0000,
        ;
        assert(target * rate <= 0x1_0000_0000_0000_0000 * 0x1_0000_0000) by (nonlinear_arith)
            requires
                target <= 0x1_0000_0000_0000_0000,
                rate <= 0x1_0000_0000,
        ;
        assert(longest * rate <= 0x1_0000_0000_0000_0000 * 0x1_0000_0000) by (nonlinear_arith)
            requires
                longest <= 0x1_0000_0000_0000_0000,
                rate <= 0x1_0000_0000,
        ;
        assert((longest * rate) * width <= (0x1_0000_0000_0000_0000 * 0x1_0000_0000) * 0x2_0000)
            by (nonlinear_arith)
            requires
                longest * rate <= 0x1_0000_0000_0000_0000 * 0x1_0000_0000,
                width <= 0x2_0000,
        ;
        assert(rate * channels <= 0x1_0000_0000 * 0x1_0000) by (nonlinear_arith)
            requires
                rate <= 0x1_0000_0000,
                channels <= 0x1_0000,
        ;
        assert(frame * width == frame_bytes(content));
    }
    let bytes = frame * width;
    let largest = usize::MAX as u128;
    let chunk = if longest * rate * width <= length {
        longest * rate * width
    } else {
        length
    };
    let fits = length + bytes + 35 <= largest && (length + bytes) * 1000 <= u64::MAX as u128
        && target * rate <= largest && longest * rate <= largest && longest >= 2 && chunk + 36
        <= u32::MAX as u128 && rate * channels * 2 <= u32::MAX as u128 && width <= u16::MAX as u128;
    proof {
        assert(fits == surely_divisible(content, *config));
        if fits && content.data.len() >= sample_bytes(content) {
            lemma_surely_divisible(content, *config);
        }
    }
    fits
}

/// Whether `vad_chunks` can be asked to divide the recording.
pub fn chunking_fits(wav: &PcmWav<'_>, config: &SmartChunkConfig) -> (r: bool)
    ensures
        r == (playable(wav@) && divisible(wav@, *config)),
{
    if chunking_surely_fits(wav, config) {
        return true;
    }
    if wav.sample_rate == 0 || wav.channels == 0 {
        return false;
    }
    let width = wav.channels as usize * 2;
    if wav.data.len() < width {
        return true;
    }
    let ghost content = wav@;
    let length = wav.data.len() as u128;
    let frame = samples_per_frame(wav.sample_rate);
    let rate = wav.sample_rate as u128;
    let target = config.target_seconds as u128;
    let longest = config.max_seconds as u128;
    proof {
        assert(frame * width <= 0x1_0000_0000 * 0x2_0000) by (nonlinear_arith)
            requires
                frame <= 0x1_0000_0000,
                width <= 0x2_0000,
        ;
        assert(target * rate <= 0x1_0000_0000_0000_0000 * 0x1_0000_0000) by (nonlinear_arith)
            requires
                target <= 0x1_0000_0000_0000_0000,
                rate <= 0x1_0000_0000,
        ;
        assert(longest * rate <= 0x1_0000_0000_0000_0000 * 0x1_0000_0000) by (nonlinear_arith)
            requires
                longest <= 0x1_0000_0000_0000_0000,
                rate <= 0x1_0000_0000,
        ;
        assert(frame * width == frame_bytes(content));
    }
    let bytes: u128 = frame as u128 * width as u128;
    let largest = usize::MAX as u128;
    if length + bytes + 35 > largest || (length + bytes) * 1000 > u64::MAX as u128 || target * rate
        > largest || longest * rate > largest {
        return false;
    }
    proof {
        assert(target <= target * rate && longest <= longest * rate) by (nonlinear_arith)
            requires
                rate >= 1,
        ;
    }
    let per_second = wav.sample_rate as usize;
    let regions = find_speech(wav);
    let target_seconds = config.target_seconds as usize;
    let max_seconds = config.max_seconds as usize;
    if !packing_fits(regions.as_slice(), frame, per_second, target_seconds, max_seconds) {
        return false;
    }
    let ranges = pack_regions(regions.as_slice(), frame, per_second, target_seconds, max_seconds);
    ranges_fit(wav, config, &ranges)
}

/// Whether the header of a file for each range can be written.
fn ranges_fit(
    wav: &PcmWav<'_>,
    config: &SmartChunkConfig,
    ranges: &Vec<(usize, usize, bool)>,
) -> (r: bool)
    requires
        playable(wav@),
        wav@.data.len() >= sample_bytes(wav@),
        wav@.data.len() + frame_bytes(wav@) + 35 <= usize::MAX,
        (wav@.data.len() + frame_bytes(wav@)) * 1000 <= u64::MAX,
        packable(spoken_regions(wav@), chunk_limits(wav@, *config)),
        range_views(ranges@) == chunk_ranges(wav@, *config),
    ensures
        r == divisible(wav@, *config),
{
    let ghost content = wav@;
    let ghost wanted = chunk_ranges(content, *config);
    let width = wav.channels as usize * 2;
    let rate = wav.sample_rate as u64;
    let channels = wav.channels as u64;
    proof {
        assert(rate * channels <= 0x1_0000_0000 * 0x1_0000) by (nonlinear_arith)
            requires
                rate <= 0x1_0000_0000,
                channels <= 0x1_0000,
        ;
    }
    let fields_fit = rate * channels * 2 <= u32::MAX as u64 && channels * 2 <= u16::MAX as u64;
    for index in 0..ranges.len()
        invariant
            content == wav@,
            playable(content),
            content.data.len() >= sample_bytes(content),
            content.data.len() + frame_bytes(content) + 35 <= usize::MAX,
            packable(spoken_regions(content), chunk_limits(content, *config)),
            width == sample_bytes(content),
            rate == content.sample_rate,
            channels == content.channels,
            rate * channels <= 0x1_0000_0000 * 0x1_0000,
            fields_fit == (rate * channels * 2 <= u32::MAX && channels * 2 <= u16::MAX),
            wanted == chunk_ranges(content, *config),
            range_views(ranges@) == wanted,
            forall|k: int|
                0 <= k < index && range_pcm(content, #[trigger] wanted[k]).len() <= u32::MAX
                    ==> header_fits(
                    range_pcm(content, wanted[k]).len() as int,
                    content.sample_rate,
                    content.channels,
                ),
    {
        let (start, end, _) = ranges[index];
        proof {
            lemma_ranges(content, *config);
            assert(wanted[index as int] == (start as int, end as int, ranges@[index as int].2));
        }
        let start_byte = start * width;
        let end_byte = if end * width <= wav.data.len() {
            end * width
        } else {
            wav.data.len()
        };
        let size = (end_byte - start_byte) as u64;
        proof {
            assert(size == range_pcm(content, wanted[index as int]).len());
        }
        if size <= u32::MAX as u64 && (36 + size > u32::MAX as u64 || !fields_fit) {
            return false;
        }
    }
    true
}

proof fn lemma_surely_divisible(content: WavContent, config: SmartChunkConfig)
    requires
        surely_divisible(content, config),
        content.data.len() >= sample_bytes(content),
    ensures
        divisible(content, config),
{
    let lim = chunk_limits(content, config);
    let regions = spoken_regions(content);
    let count = speech_in(content).len() as int;
    let ranges = chunk_ranges(content, config);
    let frame = frame_samples(content);
    let width = sample_bytes(content);
    let bytes = frame_bytes(content);
    let rate = content.sample_rate;
    assert(bytes >= frame && bytes > 0) by (nonlinear_arith)
        requires
            bytes == frame * width,
            frame > 0,
            width > 0,
    ;
    law_regions_are_apart(speech_in(content), 10, 35, 13);
    lemma_frame_count(content.data, bytes as nat);
    assert(count * frame <= content.data.len() + frame_bytes(content)) by (nonlinear_arith)
        requires
            (count - 1) * bytes < content.data.len(),
            bytes == frame_bytes(content),
            frame <= bytes,
            count > 0,
            frame > 0,
    {
        assert(count * frame <= count * bytes);
        assert(count * bytes == (count - 1) * bytes + bytes);
    }
    assert(rate < config.max_seconds * rate) by (nonlinear_arith)
        requires
            rate > 0,
            config.max_seconds >= 2,
    ;
    law_regions_are_packable(regions, lim, count);
    lemma_ranges(content, config);
    assert forall|k: int| 0 <= k < ranges.len() implies header_fits(
        range_pcm(content, #[trigger] ranges[k]).len() as int,
        content.sample_rate,
        content.channels,
    ) by {
        let range = ranges[k];
        let longest = config.max_seconds * rate;
        assert(range.1 - range.0 <= longest);
        assert(range.1 * width - range.0 * width <= longest * width) by (nonlinear_arith)
            requires
                range.1 - range.0 <= longest,
                width > 0,
        ;
    }
}

// ---------------------------------------------------------------------------
// Laws of the chunks
// ---------------------------------------------------------------------------

/// The ranges of a recording are neither empty nor longer than the longest
/// chunk, and they overlap only after a forced cut of a full one, then by one
/// second.
pub proof fn law_chunks_are_well_packed(content: WavContent, config: SmartChunkConfig)
    requires
        playable(content),
        divisible(content, config),
    ensures
        well_packed(chunk_ranges(content, config), chunk_limits(content, config)),
{
    if content.data.len() >= sample_bytes(content) {
        lemma_ranges(content, config);
    }
}

/// A chunk lasts some time, and no longer than the longest that is allowed.
pub proof fn law_chunks_are_short(content: WavContent, config: SmartChunkConfig, k: int)
    requires
        playable(content),
        divisible(content, config),
        0 <= k < audio_chunks(content, config).len(),
    ensures
        ({
            let chunk = audio_chunks(content, config)[k];
            &&& chunk.start_ms < chunk.end_ms
            &&& chunk.end_ms - chunk.start_ms <= config.max_seconds * 1000
        }),
{
    lemma_ranges(content, config);
    let range = chunk_ranges(content, config)[k];
    let rate = content.sample_rate;
    let longest = config.max_seconds as int;
    assert(frame_samples(content) * 1000 >= rate);
    assert(range.1 - range.0 <= longest * rate);
    let a = range.0 * 1000;
    let b = range.1 * 1000;
    assert(b <= a + (longest * 1000) * rate) by (nonlinear_arith)
        requires
            range.1 - range.0 <= longest * rate,
            a == range.0 * 1000,
            b == range.1 * 1000,
    ;
    assert(a / rate < b / rate <= a / rate + longest * 1000) by (nonlinear_arith)
        requires
            rate > 0,
            a + rate <= b <= a + (longest * 1000) * rate,
    ;
}

/// Speech of ten frames or more is in the chunks, every sample of it.
pub proof fn law_speech_is_submitted(
    content: WavContent,
    config: SmartChunkConfig,
    a: int,
    b: int,
    x: int,
)
    requires
        playable(content),
        divisible(content, config),
        content.data.len() >= sample_bytes(content),
        0 <= a < b <= speech_in(content).len(),
        b - a >= 10,
        forall|i: int| a <= i < b ==> speech_in(content)[i],
        a * frame_samples(content) <= x < b * frame_samples(content),
    ensures
        covers(chunk_ranges(content, config), x),
{
    let speech = speech_in(content);
    let regions = spoken_regions(content);
    let frame = frame_samples(content);
    law_regions_are_apart(speech, 10, 35, 13);
    law_long_speech_is_kept(speech, 10, 35, 13, a, b);
    lemma_packed(regions, chunk_limits(content, config), speech.len() as int);
    let m = choose|m: int|
        0 <= m < regions.len() && (#[trigger] regions[m]).0 <= widened(
            (a, b),
            13,
            speech.len() as int,
        ).0 && widened((a, b), 13, speech.len() as int).1 <= regions[m].1;
    let region = regions[m];
    assert(region.0 <= a && b <= region.1);
    assert(region.0 * frame <= a * frame && b * frame <= region.1 * frame) by (nonlinear_arith)
        requires
            region.0 <= a,
            b <= region.1,
            frame > 0,
    ;
    assert(regions[m].0 * chunk_limits(content, config).frame <= x);
}

/// A recording without a frame at the lowest threshold has no chunks.
pub proof fn law_silence_is_not_submitted(content: WavContent, config: SmartChunkConfig)
    requires
        forall|i: int| 0 <= i < levels_in(content).len() ==> #[trigger] levels_in(content)[i] < 120,
    ensures
        audio_chunks(content, config).len() == 0,
{
    law_silence_has_no_regions(levels_in(content), 10, 35, 13);
}

/// Each chunk is a file that reads back as 16-bit audio with the rate and the
/// channels of the recording, holding the samples of its range.
pub proof fn law_chunks_read_back(content: WavContent, config: SmartChunkConfig, k: int)
    requires
        playable(content),
        divisible(content, config),
        !has_oversized(content, config),
        content.data.len() + 44 <= usize::MAX,
        0 <= k < audio_chunks(content, config).len(),
    ensures
        wav_content(audio_chunks(content, config)[k].wav) == Ok::<WavContent, WavError>(
            WavContent {
                sample_rate: content.sample_rate,
                channels: content.channels,
                bits_per_sample: 16,
                data: range_pcm(content, chunk_ranges(content, config)[k]),
            },
        ),
{
    lemma_ranges(content, config);
    let range = chunk_ranges(content, config)[k];
    let pcm = range_pcm(content, range);
    assert(pcm.len() <= u32::MAX);
    assert(pcm.len() <= content.data.len());
    law_read_of_written(pcm, content.sample_rate, content.channels);
}

/// The samples of one channel in a fiftieth of a second, at least one.
pub open spec fn fiftieth(rate: int) -> int {
    if rate < 50 {
        1
    } else {
        rate / 50
    }
}

/// Which frames of a fiftieth of a second of a recording hold speech.
pub open spec fn speech_of(content: WavContent) -> Seq<bool> {
    speech_frames(
        frame_levels(
            content.data,
            (fiftieth(content.sample_rate) * (2 * content.channels)) as nat,
        ),
    )
}

/// What is found to be speech is the speech of the frames.
pub proof fn lemma_speech_of(content: WavContent)
    requires
        playable(content),
    ensures
        speech_of(content) == speech_in(content),
        fiftieth(content.sample_rate) == frame_samples(content),
        fiftieth(content.sample_rate) > 0,
{
}

/// Every frame that belongs to speech is in a region.
proof fn lemma_belonging_is_kept(
    speech: Seq<bool>,
    min_frames: int,
    gap: int,
    padding: int,
    f: int,
)
    requires
        gap >= 0,
        padding >= 0,
        0 <= f < speech.len(),
        belongs(speech, min_frames, gap, padding, f),
    ensures
        within_one(regions_of_speech(speech, min_frames, gap, padding), f, f + 1),
{
    let regions = regions_of_speech(speech, min_frames, gap, padding);
    let count = speech.len() as int;
    if exists|run: (int, int)| #[trigger]
        is_run(speech, run, min_frames) && run.0 - padding <= f < run.1 + padding {
        let run = choose|run: (int, int)| #[trigger]
            is_run(speech, run, min_frames) && run.0 - padding <= f < run.1 + padding;
        law_runs_are_kept(speech, min_frames, gap, padding, run, f);
    } else {
        let (b, c) = choose|b: (int, int), c: (int, int)| #[trigger]
            is_run(speech, b, min_frames) && #[trigger] is_run(speech, c, min_frames) && b.1 <= f
                < c.0 && c.0 - b.1 <= gap + 2 * padding;
        law_regions_are_apart(speech, min_frames, gap, padding);
        law_long_speech_is_kept(speech, min_frames, gap, padding, b.0, b.1);
        law_long_speech_is_kept(speech, min_frames, gap, padding, c.0, c.1);
        let left = widened(b, padding, count);
        let right = widened(c, padding, count);
        let m = choose|m: int|
            0 <= m < regions.len() && (#[trigger] regions[m]).0 <= left.0 && left.1
                <= regions[m].1;
        let n = choose|n: int|
            0 <= n < regions.len() && (#[trigger] regions[n]).0 <= right.0 && right.1
                <= regions[n].1;
        assert(m == n) by {
            if m < n {
                assert(regions[m].1 + gap < regions[n].0);
            } else if n < m {
                assert(regions[n].1 + gap < regions[m].0);
            }
        }
        assert(regions[m].0 <= f && f + 1 <= regions[m].1);
    }
}

proof fn lemma_frame_of(x: int, frame: int, f: int)
    requires
        frame > 0,
        f == x / frame,
    ensures
        f * frame <= x < (f + 1) * frame,
{
    assert(f * frame <= x < (f + 1) * frame) by (nonlinear_arith)
        requires
            frame > 0,
            f == x / frame,
    ;
}

/// Everything that belongs to speech is in the chunks: at least ten frames of
/// speech on end, thirteen frames before and behind them, and the pauses between
/// them of which no more than thirty-five frames are left then.
pub proof fn law_speech_is_in_chunks(content: WavContent, config: SmartChunkConfig, x: int)
    requires
        playable(content),
        divisible(content, config),
        content.data.len() >= 2 * content.channels,
        0 <= x / fiftieth(content.sample_rate) < speech_of(content).len(),
        belongs(speech_of(content), 10, 35, 13, x / fiftieth(content.sample_rate)),
    ensures
        covers(chunk_ranges(content, config), x),
{
    lemma_speech_of(content);
    let speech = speech_in(content);
    let regions = spoken_regions(content);
    let frame = frame_samples(content);
    let f = x / frame;
    law_regions_are_apart(speech, 10, 35, 13);
    lemma_belonging_is_kept(speech, 10, 35, 13, f);
    lemma_packed(regions, chunk_limits(content, config), speech.len() as int);
    let m = choose|m: int|
        0 <= m < regions.len() && (#[trigger] regions[m]).0 <= f && f + 1 <= regions[m].1;
    let region = regions[m];
    lemma_frame_of(x, frame, f);
    assert(region.0 * frame <= f * frame && (f + 1) * frame <= region.1 * frame)
        by (nonlinear_arith)
        requires
            region.0 <= f,
            f + 1 <= region.1,
            frame > 0,
    ;
    assert(regions[m].0 * chunk_limits(content, config).frame <= x);
}

/// A chunk is as long as there is speech for it: it starts thirteen frames before
/// speech of at least ten frames, or with the recording, unless it repeats the
/// last second of the chunk before it; it ends thirteen frames behind such
/// speech, or with the recording, unless its last second is repeated. What does
/// not belong to speech is in it only where it is no longer than the target.
pub proof fn law_chunks_hold_nothing_else(content: WavContent, config: SmartChunkConfig, k: int)
    requires
        playable(content),
        divisible(content, config),
        0 <= k < chunk_ranges(content, config).len(),
    ensures
        ({
            let ranges = chunk_ranges(content, config);
            let rate = content.sample_rate;
            let frame = fiftieth(rate);
            let speech = speech_of(content);
            let (start, end, overlapping) = ranges[k];
            &&& 0 <= start < end
            &&& end - start <= config.max_seconds * rate
            &&& if overlapping {
                &&& k > 0
                &&& ranges[k - 1].1 - ranges[k - 1].0 == config.max_seconds * rate
                &&& start == ranges[k - 1].1 - rate
                &&& ranges[k - 1].1 < end
            } else {
                &&& exists|run: (int, int)| #[trigger]
                    is_run(speech, run, 10) && (start == (run.0 - 13) * frame || start == 0
                        && run.0 <= 13)
                &&& k > 0 ==> start >= ranges[k - 1].1 && (end - ranges[k - 1].0
                    > config.target_seconds * rate || end - ranges[k - 1].0 > config.max_seconds
                    * rate)
            }
            &&& (k + 1 < ranges.len() && ranges[k + 1].2) || exists|run: (int, int)| #[trigger]
                is_run(speech, run, 10) && (end == (run.1 + 13) * frame || end == speech.len()
                    * frame && run.1 + 13 >= speech.len())
            &&& forall|x: int|
                start <= x < end && !#[trigger] belongs(speech, 10, 35, 13, x / frame) ==> end
                    - start <= config.target_seconds * rate
        }),
{
    lemma_speech_of(content);
    lemma_ranges(content, config);
    let speech = speech_in(content);
    let regions = spoken_regions(content);
    let frame = frame_samples(content);
    let lim = chunk_limits(content, config);
    let ranges = chunk_ranges(content, config);
    let rate = content.sample_rate;
    let (start, end, overlapping) = ranges[k];
    let count = speech.len() as int;
    law_regions_are_apart(speech, 10, 35, 13);
    law_chunks_are_made_of_regions(regions, lim, count);
    assert(ranges == packed(regions, lim));
    assert(0 < ranges[k].1 - ranges[k].0 <= lim.longest);
    if k > 0 {
        assert(follows(ranges[k - 1], ranges[k], lim));
    }
    if !overlapping {
        let j = choose|j: int| 0 <= j < regions.len() && (#[trigger] regions[j]).0 * frame == start;
        law_regions_hold_nothing_else(speech, 10, 35, 13, j);
        let run = choose|run: (int, int)| #[trigger]
            is_run(speech, run, 10) && (regions[j].0 == run.0 - 13 || regions[j].0 == 0 && run.0
                <= 13);
        assert(0 * frame == 0) by (nonlinear_arith);
        assert(is_run(speech, run, 10));
    }
    if !(k + 1 < ranges.len() && ranges[k + 1].2) {
        let j = choose|j: int| 0 <= j < regions.len() && (#[trigger] regions[j]).1 * frame == end;
        law_regions_hold_nothing_else(speech, 10, 35, 13, j);
        let run = choose|run: (int, int)| #[trigger]
            is_run(speech, run, 10) && (regions[j].1 == run.1 + 13 || regions[j].1 == speech.len()
                && run.1 + 13 >= speech.len());
        assert(is_run(speech, run, 10));
    }
    assert forall|x: int|
        start <= x < end && !#[trigger] belongs(speech, 10, 35, 13, x / frame) implies end - start
        <= config.target_seconds * rate by {
        if lim.target <= lim.longest {
            assert(holds(regions, frame, ranges[k].0));
            let j = choose|j: int|
                0 <= j < regions.len() && (#[trigger] regions[j]).0 * frame <= start < regions[j].1
                    * frame;
            let region = regions[j];
            let f = x / frame;
            lemma_frame_of(x, frame, f);
            if x < region.1 * frame {
                assert(region.0 <= f < region.1) by (nonlinear_arith)
                    requires
                        region.0 * frame <= x < region.1 * frame,
                        f * frame <= x < (f + 1) * frame,
                        frame > 0,
                ;
                law_regions_hold_nothing_else(speech, 10, 35, 13, j);
                assert(belongs(speech, 10, 35, 13, f));
            }
            assert(ranges[k].0 < regions[j].1 * lim.frame < ranges[k].1);
        }
    }
}

/// Each chunk is its range of the recording: it has the times of the range in
/// milliseconds, and as a file it reads back as 16-bit audio at the same rate with
/// the same channels and exactly those samples, all channels of each, as far as
/// the recording goes.
pub proof fn law_chunk_is_its_range(content: WavContent, config: SmartChunkConfig, k: int)
    requires
        playable(content),
        divisible(content, config),
        !has_oversized(content, config),
        content.data.len() + 44 <= usize::MAX,
        0 <= k < chunk_ranges(content, config).len(),
    ensures
        ({
            let (start, end, overlapping) = chunk_ranges(content, config)[k];
            let chunks = audio_chunks(content, config);
            let width = 2 * content.channels;
            &&& chunks.len() == chunk_ranges(content, config).len()
            &&& chunks[k].index == k
            &&& chunks[k].start_ms == start * 1000 / content.sample_rate
            &&& chunks[k].end_ms == end * 1000 / content.sample_rate
            &&& chunks[k].overlap_before == overlapping
            &&& wav_content(chunks[k].wav) == Ok::<WavContent, WavError>(
                WavContent {
                    sample_rate: content.sample_rate,
                    channels: content.channels,
                    bits_per_sample: 16,
                    data: content.data.subrange(
                        start * width,
                        if end * width <= content.data.len() {
                            end * width
                        } else {
                            content.data.len() as int
                        },
                    ),
                },
            )
        }),
{
    law_chunks_read_back(content, config, k);
}

/// What is said of a chunk is what it holds: its place among the chunks, its times,
/// whether it repeats the end of the one before it, and its file.
pub proof fn law_content_of_a_chunk(chunk: AudioChunk)
    ensures
        chunk@.index == chunk.index,
        chunk@.start_ms == chunk.start_ms,
        chunk@.end_ms == chunk.end_ms,
        chunk@.overlap_before == chunk.overlap_before,
        chunk@.wav == chunk.wav@,
{
}

/// Every recording of ordinary size can be divided, and none of its chunks is too
/// large for a file: it, and one second of audio more, has room in a WAVE file, and
/// a chunk may be two seconds long.
pub proof fn law_ordinary_recordings_can_be_divided(content: WavContent, config: SmartChunkConfig)
    requires
        0 < content.sample_rate,
        0 < content.channels,
        2 * content.channels <= u16::MAX,
        content.data.len() + content.sample_rate * (2 * content.channels) + 36 <= u32::MAX,
        config.target_seconds * content.sample_rate <= u32::MAX,
        config.max_seconds * content.sample_rate <= u32::MAX,
        config.max_seconds >= 2,
    ensures
        divisible(content, config),
        !has_oversized(content, config),
{
    let rate = content.sample_rate;
    let width = sample_bytes(content);
    let frame = frame_samples(content);
    assert(frame * width <= rate * width && rate <= rate * width) by (nonlinear_arith)
        requires
            0 < frame <= rate,
            0 < width,
    ;
    assert(rate * content.channels * 2 == rate * width) by (nonlinear_arith)
        requires
            width == content.channels * 2,
    ;
    assert(config.max_seconds * rate * width >= 0) by (nonlinear_arith)
        requires
            rate > 0,
            width > 0,
    ;
    assert(2 * content.channels == width);
    if content.data.len() >= width {
        lemma_surely_divisible(content, config);
        lemma_ranges(content, config);
    }
    assert forall|k: int| 0 <= k < chunk_ranges(content, config).len() implies range_pcm(
        content,
        #[trigger] chunk_ranges(content, config)[k],
    ).len() <= u32::MAX by {
        let range = chunk_ranges(content, config)[k];
        assert(0 <= range.0 * width < content.data.len());
    }
}

} // verus!
