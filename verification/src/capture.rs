//! Capturing audio with GStreamer: the programs that are started, the files that
//! they write, and what their end means.
use vstd::prelude::*;
use vstd::string::*;
use vstd::arithmetic::power2::pow2;
use crate::paths::{last_index, lemma_last_index};
use crate::text::{
    chars_of, contains, contains_text, copy_range, decimal, ends_with, has_prefix, has_suffix,
    law_finding, law_trimming, only_white, opt_str_view, padded, replace, replaced, starts_with,
    string_of, take_chars, to_decimal, to_padded, trim_chars, trimmed, views, whitespace,
};

verus! {

// ---------------------------------------------------------------------------
// Programs
// ---------------------------------------------------------------------------

/// The part of the pipeline that mixes all streams into one file: 16 kHz mono
/// 16-bit PCM in a WAVE file.
pub open spec fn mixer_args(location: Seq<char>) -> Seq<Seq<char>> {
    seq![
        "-e"@,
        "-q"@,
        "audiomixer"@,
        "name=mixer"@,
        "!"@,
        "audioconvert"@,
        "!"@,
        "audioresample"@,
        "!"@,
        "audio/x-raw,format=S16LE,rate=16000,channels=1"@,
        "!"@,
        "wavenc"@,
        "!"@,
        "filesink"@,
        "location="@ + location,
    ]
}

/// The part of the pipeline that brings one stream to the mixer.
pub open spec fn stream_args(source: Seq<char>) -> Seq<Seq<char>> {
    seq![
        "pipewiresrc"@,
        "target-object="@ + source,
        "!"@,
        "audioconvert"@,
        "!"@,
        "audioresample"@,
        "!"@,
        "mixer."@,
    ]
}

/// The parts for all streams.
pub open spec fn streams_args(sources: Seq<Seq<char>>) -> Seq<Seq<char>>
    decreases sources.len(),
{
    if sources.len() == 0 {
        Seq::empty()
    } else {
        streams_args(sources.drop_last()) + stream_args(sources.last())
    }
}

/// The arguments of the program that records the streams into a file.
pub open spec fn pipeline_args(sources: Seq<Seq<char>>, location: Seq<char>) -> Seq<Seq<char>> {
    mixer_args(location) + streams_args(sources)
}

/// The arguments of the program that records the streams into a file for some
/// seconds.
pub open spec fn timed_args(
    sources: Seq<Seq<char>>,
    location: Seq<char>,
    chunk_seconds: nat,
) -> Seq<Seq<char>> {
    seq!["-s"@, "INT"@, decimal(chunk_seconds), "gst-launch-1.0"@] + pipeline_args(
        sources,
        location,
    )
}

fn push_text(args: &mut Vec<String>, text: &str)
    ensures
        views(final(args)@) == views(old(args)@).push(text@),
{
    let ghost before = args@;
    args.push(text.to_owned());
    proof {
        assert(views(args@) =~= views(before).push(text@));
    }
}

fn push_setting(args: &mut Vec<String>, name: &str, value: &str)
    ensures
        views(final(args)@) == views(old(args)@).push(name@ + value@),
{
    let mut text = name.to_owned();
    text.append(value);
    push_text(args, text.as_str());
}

fn push_pipeline(args: &mut Vec<String>, sources: &[String], location: &str)
    ensures
        views(final(args)@) == views(old(args)@) + pipeline_args(views(sources@), location@),
{
    let ghost start = views(args@);
    push_text(args, "-e");
    push_text(args, "-q");
    push_text(args, "audiomixer");
    push_text(args, "name=mixer");
    push_text(args, "!");
    push_text(args, "audioconvert");
    push_text(args, "!");
    push_text(args, "audioresample");
    push_text(args, "!");
    push_text(args, "audio/x-raw,format=S16LE,rate=16000,channels=1");
    push_text(args, "!");
    push_text(args, "wavenc");
    push_text(args, "!");
    push_text(args, "filesink");
    push_setting(args, "location=", location);
    let ghost all = views(sources@);
    let ghost mixed = start + mixer_args(location@);
    proof {
        assert(views(args@) =~= mixed);
        assert(mixed + streams_args(all.take(0)) =~= mixed);
    }
    for i in 0..sources.len()
        invariant
            all == views(sources@),
            views(args@) == mixed + streams_args(all.take(i as int)),
    {
        let ghost before = views(args@);
        proof {
            assert(all.take(i + 1).drop_last() =~= all.take(i as int));
            assert(all.take(i + 1).last() == sources@[i as int]@);
        }
        push_text(args, "pipewiresrc");
        push_setting(args, "target-object=", sources[i].as_str());
        push_text(args, "!");
        push_text(args, "audioconvert");
        push_text(args, "!");
        push_text(args, "audioresample");
        push_text(args, "!");
        push_text(args, "mixer.");
        proof {
            assert(views(args@) =~= before + stream_args(sources@[i as int]@));
            assert(views(args@) =~= mixed + streams_args(all.take(i + 1)));
        }
    }
    proof {
        assert(all.take(all.len() as int) =~= all);
        assert(mixed + streams_args(all) =~= start + pipeline_args(all, location@));
    }
}

/// Writes the arguments of the program that records the streams into a file.
pub fn gstreamer_pipeline_args(sources: &[String], location: &str) -> (args: Vec<String>)
    ensures
        views(args@) == pipeline_args(views(sources@), location@),
{
    let mut args: Vec<String> = Vec::new();
    let ghost none = views(args@);
    push_pipeline(&mut args, sources, location);
    proof {
        assert(none + pipeline_args(views(sources@), location@) =~= pipeline_args(
            views(sources@),
            location@,
        ));
    }
    args
}

/// Writes the arguments of the program that records the streams into a file for
/// some seconds.
pub fn gstreamer_args(sources: &[String], location: &str, chunk_seconds: u64) -> (args: Vec<String>)
    ensures
        views(args@) == timed_args(views(sources@), location@, chunk_seconds as nat),
{
    let mut args: Vec<String> = Vec::new();
    push_text(&mut args, "-s");
    push_text(&mut args, "INT");
    push_text(&mut args, to_decimal(chunk_seconds).as_str());
    push_text(&mut args, "gst-launch-1.0");
    proof {
        assert(views(args@) =~= seq![
            "-s"@,
            "INT"@,
            decimal(chunk_seconds as nat),
            "gst-launch-1.0"@,
        ]);
    }
    push_pipeline(&mut args, sources, location);
    args
}

// ---------------------------------------------------------------------------
// Files
// ---------------------------------------------------------------------------

/// The file of a chunk: the pattern with the number of the chunk, of at least
/// five digits, in the place of `%05d`.
pub fn chunk_path(pattern: &str, index: u64) -> (path: String)
    ensures
        path@ == replaced(pattern@, "%05d"@, padded(index as nat, 5)),
{
    proof {
        reveal_strlit("%05d");
    }
    replace(pattern, "%05d", to_padded(index, 5).as_str())
}

/// Whether a file is that of a chunk.
pub fn is_chunk_file(name: &str) -> (r: bool)
    ensures
        r == (has_prefix(name@, "chunk-"@) && (has_suffix(name@, ".ogg"@) || has_suffix(
            name@,
            ".wav"@,
        ))),
{
    starts_with(name, "chunk-") && (ends_with(name, ".ogg") || ends_with(name, ".wav"))
}

/// The file of a segment of a meeting.
pub fn segment_file(index: u64) -> (name: String)
    ensures
        name@ == "meeting-"@ + padded(index as nat, 5) + ".wav"@,
{
    let mut name = "meeting-".to_owned();
    name.append(to_padded(index, 5).as_str());
    name.append(".wav");
    name
}

// ---------------------------------------------------------------------------
// The end of a program
// ---------------------------------------------------------------------------

/// The last line that is not blank, without the white space around it.
pub open spec fn last_line(s: Seq<char>) -> Option<Seq<char>>
    decreases s.len(),
    via last_line_decreases
{
    let at = last_index(s, '\n');
    let line = trimmed(s.skip(at + 1));
    if line.len() > 0 {
        Some(line)
    } else if at < 0 {
        None
    } else {
        last_line(s.take(at))
    }
}

#[via_fn]
proof fn last_line_decreases(s: Seq<char>) {
    lemma_last_index(s, '\n');
}

/// The last line that is not blank, at most 160 characters of it.
pub open spec fn stderr_summary(s: Seq<char>) -> Option<Seq<char>> {
    match last_line(s) {
        Some(line) => Some(
            if line.len() <= 160 {
                line
            } else {
                line.take(160)
            },
        ),
        None => None,
    }
}

/// Sums up what a program wrote to its standard error.
pub fn compact_stderr(text: &str) -> (summary: Option<String>)
    ensures
        match summary {
            Some(summary) => stderr_summary(text@) == Some(summary@),
            None => stderr_summary(text@) is None,
        },
{
    let chars = chars_of(text);
    let mut end: usize = chars.len();
    let mut start: usize = chars.len();
    proof {
        assert(text@.take(end as int) =~= text@);
        assert(text@.subrange(start as int, end as int) =~= Seq::<char>::empty());
    }
    while start > 0
        invariant
            start <= end <= chars@.len(),
            chars@ == text@,
            last_line(text@) == last_line(text@.take(end as int)),
            forall|i: int| start <= i < end ==> text@[i] != '\n',
        decreases start,
    {
        let c = chars[start - 1];
        if c == '\n' {
            let line = trim_chars(&copy_range(&chars, start, end));
            proof {
                let part = text@.take(end as int);
                lemma_last_break(part, start - 1);
                assert(part.skip(start as int) =~= text@.subrange(start as int, end as int));
                assert(part.take(start - 1) =~= text@.take(start - 1));
            }
            if line.len() > 0 {
                let whole = string_of(&line);
                return Some(take_chars(whole.as_str(), 160));
            }
            end = start - 1;
        }
        start = start - 1;
    }
    let line = trim_chars(&copy_range(&chars, 0, end));
    proof {
        let part = text@.take(end as int);
        lemma_last_break(part, -1);
        assert(part.skip(0) =~= text@.subrange(0, end as int));
    }
    if line.len() > 0 {
        let whole = string_of(&line);
        Some(take_chars(whole.as_str(), 160))
    } else {
        None
    }
}

proof fn lemma_last_break(s: Seq<char>, at: int)
    requires
        -1 <= at < s.len(),
        at >= 0 ==> s[at] == '\n',
        forall|i: int| at < i < s.len() ==> s[i] != '\n',
    ensures
        last_index(s, '\n') == at,
{
    lemma_last_index(s, '\n');
    let found = last_index(s, '\n');
    if found < at {
        assert(s[at] != '\n');
    }
}

/// Why a program ended: its status and what it wrote to its standard error.
pub open spec fn exit_reason_of(status: Seq<char>, stderr: Option<Seq<char>>) -> Seq<char> {
    let start = "status "@ + status;
    match stderr {
        Some(text) => match stderr_summary(text) {
            Some(summary) => start + ": "@ + summary,
            None => start,
        },
        None => start,
    }
}

/// Says why a program ended.
pub fn exit_reason(status: &str, stderr: Option<&str>) -> (reason: String)
    ensures
        reason@ == exit_reason_of(status@, opt_str_view(stderr)),
{
    let mut reason = "status ".to_owned();
    reason.append(status);
    if let Some(text) = stderr {
        if let Some(summary) = compact_stderr(text) {
            reason.append(": ");
            reason.append(summary.as_str());
        }
    }
    reason
}

/// Whether a program ended because its chunk was complete: by itself or by the
/// time limit.
pub open spec fn is_completed(reason: Seq<char>) -> bool {
    contains_text(reason, "exit status: 0"@) || contains_text(reason, "exit status: 124"@)
}

/// Tells whether a program ended because its chunk was complete.
pub fn capture_completed(reason: &str) -> (r: bool)
    ensures
        r == is_completed(reason@),
{
    contains(reason, "exit status: 0") || contains(reason, "exit status: 124")
}

/// The seconds before capture is started again after it failed `attempts` times
/// in a row: 1, 2, 4, 8, and then always 16.
pub open spec fn delay_after(attempts: nat) -> nat {
    pow2(
        if attempts <= 4 {
            attempts
        } else {
            4
        },
    )
}

/// The seconds before capture is started again.
pub fn restart_delay(attempts: u32) -> (seconds: u64)
    ensures
        seconds == delay_after(attempts as nat),
{
    proof {
        vstd::arithmetic::power2::lemma2_to64();
    }
    if attempts == 0 {
        1
    } else if attempts == 1 {
        2
    } else if attempts == 2 {
        4
    } else if attempts == 3 {
        8
    } else {
        16
    }
}

/// The delay is never less than a second nor more than sixteen, and it does not
/// shrink from one failure to the next.
pub proof fn law_delay_grows_to_its_limit(attempts: nat)
    ensures
        1 <= delay_after(attempts) <= 16,
        delay_after(attempts) <= delay_after(attempts + 1),
{
    vstd::arithmetic::power2::lemma2_to64();
}

/// Writes how many streams something is done with.
pub open spec fn streams_text(start: Seq<char>, count: nat) -> Seq<char> {
    start + decimal(count) + " stream(s)"@
}

/// Says with how many streams something is done.
pub fn say_streams(start: &str, count: usize) -> (text: String)
    ensures
        text@ == streams_text(start@, count as nat),
{
    let mut text = start.to_owned();
    text.append(to_decimal(count as u64).as_str());
    text.append(" stream(s)");
    text
}

// ---------------------------------------------------------------------------
// Laws
// ---------------------------------------------------------------------------

/// The delay starts with a second and doubles with each failure up to sixteen.
pub proof fn law_delay_doubles(attempts: nat)
    ensures
        delay_after(0) == 1,
        attempts < 4 ==> delay_after(attempts + 1) == 2 * delay_after(attempts),
        attempts >= 4 ==> delay_after(attempts) == 16,
{
    vstd::arithmetic::power2::lemma2_to64();
}

/// Every stream is brought to the mixer, in order, and the mixer writes into the
/// file.
pub proof fn law_every_stream_is_mixed(
    sources: Seq<Seq<char>>,
    location: Seq<char>,
    i: int,
)
    requires
        0 <= i < sources.len(),
    ensures
        ({
            let args = pipeline_args(sources, location);
            let at = 15 + 8 * i;
            &&& args.len() == 15 + 8 * sources.len()
            &&& args[14] == "location="@ + location
            &&& args[at] == "pipewiresrc"@
            &&& args[at + 1] == "target-object="@ + sources[i]
            &&& args[at + 7] == "mixer."@
        }),
{
    lemma_streams_args(sources, i);
    let args = pipeline_args(sources, location);
    let streams = streams_args(sources);
    assert(mixer_args(location).len() == 15);
    assert(args[15 + 8 * i] == streams[8 * i]);
    assert(args[15 + 8 * i + 1] == streams[8 * i + 1]);
    assert(args[15 + 8 * i + 7] == streams[8 * i + 7]);
}

proof fn lemma_streams_args(sources: Seq<Seq<char>>, i: int)
    requires
        0 <= i < sources.len(),
    ensures
        streams_args(sources).len() == 8 * sources.len(),
        streams_args(sources)[8 * i] == "pipewiresrc"@,
        streams_args(sources)[8 * i + 1] == "target-object="@ + sources[i],
        streams_args(sources)[8 * i + 7] == "mixer."@,
    decreases sources.len(),
{
    let first = sources.drop_last();
    let before = streams_args(first);
    let last = stream_args(sources.last());
    assert(last.len() == 8);
    if first.len() > 0 {
        lemma_streams_args(
            first,
            if i < first.len() {
                i
            } else {
                0
            },
        );
    } else {
        assert(before.len() == 0);
    }
    assert(before.len() == 8 * first.len());
    assert(streams_args(sources) == before + last);
    if i < first.len() {
        assert((before + last)[8 * i] == before[8 * i]);
        assert((before + last)[8 * i + 1] == before[8 * i + 1]);
        assert((before + last)[8 * i + 7] == before[8 * i + 7]);
        assert(first[i] == sources[i]);
    } else {
        assert((before + last)[8 * i] == last[0]);
        assert((before + last)[8 * i + 1] == last[1]);
        assert((before + last)[8 * i + 7] == last[7]);
    }
}

/// A capture for some seconds is the same capture, interrupted after them.
pub proof fn law_timed_capture(
    sources: Seq<Seq<char>>,
    location: Seq<char>,
    seconds: nat,
)
    ensures
        timed_args(sources, location, seconds).len() == pipeline_args(sources, location).len() + 4,
        timed_args(sources, location, seconds)[1] == "INT"@,
        timed_args(sources, location, seconds)[2] == decimal(seconds),
        timed_args(sources, location, seconds).skip(4) == pipeline_args(sources, location),
{
    assert(timed_args(sources, location, seconds).skip(4) =~= pipeline_args(sources, location));
}

/// What is told of the standard error of a program is its last line that is not
/// blank, without the white space around it; there is nothing to tell exactly
/// where all of it is white space.
pub proof fn law_last_line(s: Seq<char>) -> (r: (int, int))
    ensures
        last_line(s) is None <==> only_white(s),
        last_line(s) matches Some(line) ==> {
            let (a, b) = r;
            &&& 0 <= a <= b <= s.len()
            &&& line == trimmed(s.subrange(a, b))
            &&& line.len() > 0
            &&& a > 0 ==> s[a - 1] == '\n'
            &&& b < s.len() ==> s[b] == '\n'
            &&& forall|i: int| a <= i < b ==> #[trigger] s[i] != '\n'
            &&& forall|i: int| b <= i < s.len() ==> whitespace(#[trigger] s[i])
        },
    decreases s.len(),
{
    let at = last_index(s, '\n');
    lemma_last_index(s, '\n');
    let tail = s.skip(at + 1);
    let _ = law_trimming(tail);
    assert(s.subrange(at + 1, s.len() as int) =~= tail);
    if trimmed(tail).len() > 0 {
        assert(!only_white(s)) by {
            let i = choose|i: int| 0 <= i < tail.len() && !whitespace(#[trigger] tail[i]);
            assert(s[at + 1 + i] == tail[i]);
        }
        (at + 1, s.len() as int)
    } else if at < 0 {
        assert(tail =~= s);
        (0, 0)
    } else {
        let before = s.take(at);
        let r = law_last_line(before);
        assert forall|i: int| at <= i < s.len() implies whitespace(#[trigger] s[i]) by {
            if i > at {
                assert(tail[i - at - 1] == s[i]);
            }
        }
        if only_white(before) {
            assert forall|i: int| 0 <= i < s.len() implies whitespace(#[trigger] s[i]) by {
                if i < at {
                    assert(before[i] == s[i]);
                }
            }
        } else {
            let i = choose|i: int| 0 <= i < before.len() && !whitespace(#[trigger] before[i]);
            assert(s[i] == before[i]);
            let (a, b) = r;
            assert(before.subrange(a, b) =~= s.subrange(a, b));
            assert forall|i: int| a <= i < b implies #[trigger] s[i] != '\n' by {
                assert(before[i] == s[i]);
            }
            assert forall|i: int| b <= i < s.len() implies whitespace(#[trigger] s[i]) by {
                if i < at {
                    assert(before[i] == s[i]);
                }
            }
            if a > 0 {
                assert(before[a - 1] == s[a - 1]);
            }
            if b < at {
                assert(before[b] == s[b]);
            }
        }
        r
    }
}

/// The end of a program is told by its status and, where it wrote something, by no
/// more than 160 characters of the last line of it.
pub proof fn law_exit_reason(status: Seq<char>, stderr: Option<Seq<char>>)
    ensures
        ({
            let reason = exit_reason_of(status, stderr);
            match stderr {
                Some(text) => match last_line(text) {
                    Some(line) => reason == "status "@ + status + ": "@ + line.take(
                        if line.len() <= 160 {
                            line.len() as int
                        } else {
                            160
                        },
                    ),
                    None => reason == "status "@ + status,
                },
                None => reason == "status "@ + status,
            }
        }),
{
    if let Some(text) = stderr {
        if let Some(line) = last_line(text) {
            assert(line.take(line.len() as int) =~= line);
        }
    }
}

/// A chunk is complete where the program ended by itself or by the time limit,
/// whatever else it wrote.
pub proof fn law_completion(status: Seq<char>, stderr: Option<Seq<char>>)
    requires
        status == "exit status: 0"@ || status == "exit status: 124"@,
    ensures
        is_completed(exit_reason_of(status, stderr)),
{
    let reason = exit_reason_of(status, stderr);
    let start = "status "@ + status;
    let rest = reason.skip(start.len() as int);
    assert(reason =~= "status "@ + status + rest);
    law_finding("status "@, status, rest);
}

/// A program failed where its reason names neither of the two statuses.
pub proof fn law_failure(reason: Seq<char>)
    ensures
        is_completed(reason) <==> contains_text(reason, "exit status: 0"@) || contains_text(
            reason,
            "exit status: 124"@,
        ),
{
}

} // verus!
