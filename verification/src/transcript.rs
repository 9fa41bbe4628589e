//! Transcripts: what the transcription of a chunk says, and how the transcripts
//! of the chunks of one recording are put together.
use vstd::prelude::*;
use vstd::string::*;
use crate::text::{
    ascii_lower, chars_of, is_word, join_words, joined, law_joining, law_split_of_joined,
    law_trimming, lemma_words_are_words, only_white, opt_view, split_words, string_of, trim,
    trimmed, word_views, words,
};

verus! {

// ---------------------------------------------------------------------------
// Words that are the same
// ---------------------------------------------------------------------------

/// Whether a character is a letter or a number, as `char::is_alphanumeric` has
/// it.
pub uninterp spec fn alphanumeric(c: char) -> bool;

/// The lower case of a character, as `char::to_lowercase` has it.
pub uninterp spec fn lowercase(c: char) -> Seq<char>;

/// `char::is_alphanumeric` of the standard library goes by the Unicode
/// properties Alphabetic and Numeric. Its answer is a function of the character;
/// of the ASCII characters, the letters and the digits have one of them.
pub assume_specification[ char::is_alphanumeric ](c: char) -> (b: bool)
    ensures
        b == alphanumeric(c),
        is_ascii(c) ==> b == ('0' <= c <= '9' || 'A' <= c <= 'Z' || 'a' <= c <= 'z'),
;

/// `char::to_lowercase` of the standard library gives the lower case by the
/// Unicode tables, which may be several characters. It is a function of the
/// character; for an ASCII character it is one character, the ASCII lower case.
#[verifier::external_body]
fn lower(c: char) -> (out: Vec<char>)
    ensures
        out@ == lowercase(c),
        is_ascii(c) ==> out@ == seq![ascii_lower(c)],
{
    c.to_lowercase().collect()
}

/// Whether a character is one of the first 128.
pub open spec fn is_ascii(c: char) -> bool {
    c <= '\x7f'
}

/// Whether a character is a letter or a number.
pub open spec fn is_kept(c: char) -> bool {
    if is_ascii(c) {
        '0' <= c <= '9' || 'A' <= c <= 'Z' || 'a' <= c <= 'z'
    } else {
        alphanumeric(c)
    }
}

/// The lower case of a character.
pub open spec fn lowered(c: char) -> Seq<char> {
    if is_ascii(c) {
        seq![ascii_lower(c)]
    } else {
        lowercase(c)
    }
}

/// A word without its punctuation and in lower case.
pub open spec fn normalized(word: Seq<char>) -> Seq<char>
    decreases word.len(),
{
    if word.len() == 0 {
        Seq::empty()
    } else {
        let before = normalized(word.drop_last());
        if is_kept(word.last()) {
            before + lowered(word.last())
        } else {
            before
        }
    }
}

fn normalize_chars(word: &[char]) -> (out: Vec<char>)
    ensures
        out@ == normalized(word@),
{
    let mut out: Vec<char> = Vec::new();
    for i in 0..word.len()
        invariant
            out@ == normalized(word@.take(i as int)),
    {
        proof {
            assert(word@.take(i + 1).drop_last() =~= word@.take(i as int));
            assert(word@.take(i + 1).last() == word@[i as int]);
        }
        if word[i].is_alphanumeric() {
            let mut low = lower(word[i]);
            out.append(&mut low);
        }
    }
    proof {
        assert(word@.take(word@.len() as int) =~= word@);
    }
    out
}

/// Reduces a word to its letters and digits in lower case.
pub fn normalize_word(word: &str) -> (out: String)
    ensures
        out@ == normalized(word@),
{
    let chars = chars_of(word);
    let kept = normalize_chars(&chars);
    string_of(&kept)
}

// ---------------------------------------------------------------------------
// Repeated words
// ---------------------------------------------------------------------------

/// Whether the last `count` words of `previous` are the first `count` words of
/// `current`, but for case and punctuation.
pub open spec fn repeats(
    previous: Seq<Seq<char>>,
    current: Seq<Seq<char>>,
    count: int,
) -> bool {
    &&& 0 <= count <= previous.len()
    &&& count <= current.len()
    &&& forall|i: int|
        0 <= i < count ==> normalized(previous[previous.len() - count + i]) == normalized(
            #[trigger] current[i],
        )
}

/// The largest number of words, at least two and at most `limit`, that
/// `current` repeats; 0 where there is none.
pub open spec fn repeated_words(
    previous: Seq<Seq<char>>,
    current: Seq<Seq<char>>,
    limit: nat,
) -> nat
    decreases limit,
{
    if limit < 2 {
        0
    } else if repeats(previous, current, limit as int) {
        limit
    } else {
        repeated_words(previous, current, (limit - 1) as nat)
    }
}

/// `current` without the words, up to sixteen, that it repeats from the end of
/// `previous`.
pub open spec fn without_repetition(previous: Seq<char>, current: Seq<char>) -> Seq<char> {
    let count = repeated_words(words(previous), words(current), 16);
    if count == 0 {
        current
    } else {
        joined(words(current).skip(count as int), seq![' '])
    }
}

proof fn lemma_repeated_words(
    previous: Seq<Seq<char>>,
    current: Seq<Seq<char>>,
    limit: nat,
    more: nat,
)
    requires
        limit <= more,
        forall|k: int| limit < k <= more ==> !repeats(previous, current, k),
    ensures
        repeated_words(previous, current, more) == repeated_words(previous, current, limit),
    decreases more,
{
    if limit < more {
        lemma_repeated_words(previous, current, limit, (more - 1) as nat);
    }
}

fn same_ends(previous: &Vec<Vec<char>>, current: &Vec<Vec<char>>, count: usize) -> (r: bool)
    requires
        count <= previous@.len(),
        count <= current@.len(),
    ensures
        r == repeats(word_views(previous@), word_views(current@), count as int),
{
    let ghost left = word_views(previous@);
    let ghost right = word_views(current@);
    let total = previous.len();
    let start = total - count;
    for i in 0..count
        invariant
            total == previous@.len(),
            count <= total,
            count <= current@.len(),
            start == previous@.len() - count,
            left == word_views(previous@),
            right == word_views(current@),
            forall|k: int|
                0 <= k < i ==> normalized(left[left.len() - count + k]) == normalized(
                    #[trigger] right[k],
                ),
    {
        let a = string_of(&normalize_chars(&previous[start + i]));
        let b = string_of(&normalize_chars(&current[i]));
        proof {
            assert(left[start + i] == previous@[start + i]@);
            assert(right[i as int] == current@[i as int]@);
        }
        if a != b {
            return false;
        }
    }
    true
}

/// Takes away what `current` repeats from the end of `previous`: the longest
/// run of two to sixteen words that are the same but for case and punctuation.
pub fn remove_repeated_prefix(previous: &str, current: &str) -> (out: String)
    ensures
        out@ == without_repetition(previous@, current@),
{
    let previous_words = split_words(&chars_of(previous));
    let current_words = split_words(&chars_of(current));
    let ghost left = words(previous@);
    let ghost right = words(current@);
    let mut count: usize = 16;
    if previous_words.len() < count {
        count = previous_words.len();
    }
    if current_words.len() < count {
        count = current_words.len();
    }
    while count >= 2
        invariant
            word_views(previous_words@) == left,
            word_views(current_words@) == right,
            left == words(previous@),
            right == words(current@),
            count <= 16,
            count <= previous_words@.len(),
            count <= current_words@.len(),
            forall|k: int| count < k <= 16 ==> !repeats(left, right, k),
        decreases count,
    {
        proof {
            lemma_repeated_words(left, right, count as nat, 16);
        }
        if same_ends(&previous_words, &current_words, count) {
            return join_words(&current_words, count);
        }
        count = count - 1;
    }
    proof {
        lemma_repeated_words(left, right, count as nat, 16);
    }
    current.to_owned()
}

/// Only a repetition is taken away: either the text stays as it is, or it loses
/// two to sixteen words that the other text ends with, and the words that are
/// left are the others, in order.
pub proof fn law_only_repetition_is_removed(previous: Seq<char>, current: Seq<char>)
    ensures
        ({
            let count = repeated_words(words(previous), words(current), 16);
            let left = without_repetition(previous, current);
            if count == 0 {
                left == current
            } else {
                &&& 2 <= count <= 16
                &&& repeats(words(previous), words(current), count as int)
                &&& words(left) == words(current).skip(count as int)
            }
        }),
{
    lemma_repetition_found(words(previous), words(current), 16);
    let count = repeated_words(words(previous), words(current), 16);
    if count > 0 {
        let rest = words(current).skip(count as int);
        lemma_words_are_words(current);
        assert forall|i: int| 0 <= i < rest.len() implies is_word(#[trigger] rest[i]) by {
            assert(rest[i] == words(current)[i + count]);
        }
        law_split_of_joined(rest);
    }
}

/// No longer repetition than the one that is taken away is left over.
pub proof fn law_longest_repetition_is_removed(
    previous: Seq<char>,
    current: Seq<char>,
    count: int,
)
    requires
        2 <= count <= 16,
        repeats(words(previous), words(current), count),
    ensures
        repeated_words(words(previous), words(current), 16) >= count,
{
    lemma_repetition_is_longest(words(previous), words(current), 16, count);
}

proof fn lemma_repetition_found(
    previous: Seq<Seq<char>>,
    current: Seq<Seq<char>>,
    limit: nat,
)
    ensures
        ({
            let count = repeated_words(previous, current, limit);
            count != 0 ==> 2 <= count <= limit && repeats(previous, current, count as int)
        }),
    decreases limit,
{
    if limit >= 2 && !repeats(previous, current, limit as int) {
        lemma_repetition_found(previous, current, (limit - 1) as nat);
    }
}

proof fn lemma_repetition_is_longest(
    previous: Seq<Seq<char>>,
    current: Seq<Seq<char>>,
    limit: nat,
    count: int,
)
    requires
        2 <= count <= limit,
        repeats(previous, current, count),
    ensures
        repeated_words(previous, current, limit) >= count,
    decreases limit,
{
    if !repeats(previous, current, limit as int) {
        lemma_repetition_is_longest(previous, current, (limit - 1) as nat, count);
    }
}

// ---------------------------------------------------------------------------
// Transcripts
// ---------------------------------------------------------------------------

/// A piece of a transcript, with its place in the audio and its speaker where
/// they are known.
#[derive(Debug)]
pub struct NormalizedTranscript {
    pub start_ms: Option<u64>,
    pub end_ms: Option<u64>,
    pub speaker: Option<String>,
    pub text: String,
}

/// What a `NormalizedTranscript` says.
#[verifier::ext_equal]
pub struct TranscriptContent {
    pub start_ms: Option<u64>,
    pub end_ms: Option<u64>,
    pub speaker: Option<Seq<char>>,
    pub text: Seq<char>,
}

impl View for NormalizedTranscript {
    type V = TranscriptContent;

    open spec fn view(&self) -> TranscriptContent {
        TranscriptContent {
            start_ms: self.start_ms,
            end_ms: self.end_ms,
            speaker: opt_view(self.speaker),
            text: self.text@,
        }
    }
}

/// What a list of pieces says.
pub open spec fn event_views(events: Seq<NormalizedTranscript>) -> Seq<TranscriptContent> {
    events.map_values(|e: NormalizedTranscript| e@)
}

/// Whether there is nothing but white space in a text.
pub open spec fn blank(text: Seq<char>) -> bool {
    trimmed(text).len() == 0
}

fn is_blank(text: &str) -> (r: bool)
    ensures
        r == blank(text@),
{
    trim(text).as_str().unicode_len() == 0
}

// ---------------------------------------------------------------------------
// The response of the backend
// ---------------------------------------------------------------------------

/// What the transcription backend answers.
#[derive(Debug)]
pub struct TranscriptionResponse {
    pub text: Option<String>,
    pub segments: Option<Vec<TranscriptionSegment>>,
}

/// A segment of the answer, its times in milliseconds.
#[derive(Debug)]
pub struct TranscriptionSegment {
    pub text: String,
    pub start_ms: Option<u64>,
    pub end_ms: Option<u64>,
    pub speaker: Option<String>,
}

/// The transcript that a segment stands for.
pub open spec fn segment_content(segment: TranscriptionSegment) -> TranscriptContent {
    TranscriptContent {
        start_ms: segment.start_ms,
        end_ms: segment.end_ms,
        speaker: opt_view(segment.speaker),
        text: trimmed(segment.text@),
    }
}

/// The transcripts of the segments that are not blank.
pub open spec fn segment_contents(segments: Seq<TranscriptionSegment>) -> Seq<TranscriptContent>
    decreases segments.len(),
{
    if segments.len() == 0 {
        Seq::empty()
    } else {
        let before = segment_contents(segments.drop_last());
        if blank(segments.last().text@) {
            before
        } else {
            before.push(segment_content(segments.last()))
        }
    }
}

/// The transcript that an answer stands for: its segments where it has them,
/// otherwise its text.
pub open spec fn response_content(response: TranscriptionResponse) -> Seq<TranscriptContent> {
    match (response.segments, response.text) {
        (Some(segments), _) => segment_contents(segments@),
        (None, Some(text)) => if blank(text@) {
            Seq::empty()
        } else {
            seq![
                TranscriptContent {
                    start_ms: None,
                    end_ms: None,
                    speaker: None,
                    text: trimmed(text@),
                },
            ]
        },
        (None, None) => Seq::empty(),
    }
}

/// Brings the answer of the backend into the form of a transcript.
pub fn normalize_transcription_response(response: TranscriptionResponse) -> (events: Vec<
    NormalizedTranscript,
>)
    ensures
        event_views(events@) == response_content(response),
{
    let mut events: Vec<NormalizedTranscript> = Vec::new();
    match response.segments {
        Some(segments) => {
            let ghost all = segments@;
            proof {
                assert(event_views(events@) =~= segment_contents(all.take(0)));
            }
            for segment in it: segments
                invariant
                    it.seq() == all,
                    event_views(events@) == segment_contents(all.take(it.index())),
            {
                let ghost i = it.index();
                let ghost before = events@;
                proof {
                    assert(all.take(i + 1).drop_last() =~= all.take(i));
                    assert(all.take(i + 1).last() == all[i]);
                }
                if !is_blank(segment.text.as_str()) {
                    let event = NormalizedTranscript {
                        start_ms: segment.start_ms,
                        end_ms: segment.end_ms,
                        speaker: segment.speaker,
                        text: trim(segment.text.as_str()),
                    };
                    events.push(event);
                    proof {
                        assert(event_views(events@) =~= event_views(before).push(event@));
                    }
                }
            }
            proof {
                assert(all.take(all.len() as int) =~= all);
            }
        },
        None => {
            if let Some(text) = response.text {
                let kept = trim(text.as_str());
                if kept.as_str().unicode_len() > 0 {
                    events.push(
                        NormalizedTranscript {
                            start_ms: None,
                            end_ms: None,
                            speaker: None,
                            text: kept,
                        },
                    );
                }
            }
            proof {
                assert(event_views(events@) =~= response_content(response));
            }
        },
    }
    events
}

// ---------------------------------------------------------------------------
// The timeline
// ---------------------------------------------------------------------------

/// A piece of the transcript of a chunk, with its times on the timeline of the
/// recording; where it has none, it takes those of the chunk.
pub open spec fn placed(
    event: TranscriptContent,
    chunk_start_ms: u64,
    chunk_end_ms: u64,
) -> TranscriptContent {
    TranscriptContent {
        start_ms: match event.start_ms {
            Some(ms) => Some((ms + chunk_start_ms) as u64),
            None => Some(chunk_start_ms),
        },
        end_ms: match event.end_ms {
            Some(ms) => Some((ms + chunk_start_ms) as u64),
            None => Some(chunk_end_ms),
        },
        ..event
    }
}

/// Whether the times on the timeline of the recording fit.
pub open spec fn placeable(events: Seq<NormalizedTranscript>, chunk_start_ms: u64) -> bool {
    forall|i: int|
        0 <= i < events.len() ==> {
            &&& (#[trigger] events[i]).start_ms matches Some(ms) ==> ms + chunk_start_ms <= u64::MAX
            &&& events[i].end_ms matches Some(ms) ==> ms + chunk_start_ms <= u64::MAX
        }
}

/// Whether the transcript of a chunk can be put on the timeline of the recording.
pub fn timeline_fits(events: &Vec<NormalizedTranscript>, chunk_start_ms: u64) -> (r: bool)
    ensures
        r == placeable(events@, chunk_start_ms),
{
    let room = u64::MAX - chunk_start_ms;
    for i in 0..events.len()
        invariant
            room == u64::MAX - chunk_start_ms,
            placeable(events@.take(i as int), chunk_start_ms),
    {
        let event = &events[i];
        let start = match event.start_ms {
            Some(ms) => ms,
            None => 0,
        };
        let end = match event.end_ms {
            Some(ms) => ms,
            None => 0,
        };
        if start > room || end > room {
            return false;
        }
        proof {
            let next = events@.take(i + 1);
            assert forall|k: int| 0 <= k < next.len() implies {
                &&& (#[trigger] next[k]).start_ms matches Some(ms) ==> ms + chunk_start_ms
                    <= u64::MAX
                &&& next[k].end_ms matches Some(ms) ==> ms + chunk_start_ms <= u64::MAX
            } by {
                if k < i {
                    assert(next[k] == events@.take(i as int)[k]);
                }
            }
        }
    }
    proof {
        assert(events@.take(events@.len() as int) =~= events@);
    }
    true
}

/// The transcript of one chunk, its times on the timeline of the recording.
#[derive(Debug)]
pub struct TranscribedChunk {
    pub index: usize,
    pub overlap_before: bool,
    pub events: Vec<NormalizedTranscript>,
}

/// What a `TranscribedChunk` says.
#[verifier::ext_equal]
pub struct TranscribedContent {
    pub index: int,
    pub overlap_before: bool,
    pub events: Seq<TranscriptContent>,
}

impl View for TranscribedChunk {
    type V = TranscribedContent;

    open spec fn view(&self) -> TranscribedContent {
        TranscribedContent {
            index: self.index as int,
            overlap_before: self.overlap_before,
            events: event_views(self.events@),
        }
    }
}

/// Puts the transcript of a chunk on the timeline of the recording.
pub fn place_chunk(
    index: usize,
    start_ms: u64,
    end_ms: u64,
    overlap_before: bool,
    events: Vec<NormalizedTranscript>,
) -> (chunk: TranscribedChunk)
    requires
        placeable(events@, start_ms),
    ensures
        chunk@ == (TranscribedContent {
            index: index as int,
            overlap_before,
            events: event_views(events@).map_values(
                |e: TranscriptContent| placed(e, start_ms, end_ms),
            ),
        }),
{
    let ghost all = events@;
    let ghost wanted = event_views(all).map_values(
        |e: TranscriptContent| placed(e, start_ms, end_ms),
    );
    let mut out: Vec<NormalizedTranscript> = Vec::new();
    proof {
        assert(event_views(out@) =~= wanted.take(0));
    }
    for event in it: events
        invariant
            it.seq() == all,
            placeable(all, start_ms),
            wanted == event_views(all).map_values(
                |e: TranscriptContent| placed(e, start_ms, end_ms),
            ),
            event_views(out@) == wanted.take(it.index()),
    {
        let ghost i = it.index();
        let ghost before = out@;
        assert(event == all[i]);
        let placed_event = NormalizedTranscript {
            start_ms: match event.start_ms {
                Some(ms) => Some(ms + start_ms),
                None => Some(start_ms),
            },
            end_ms: match event.end_ms {
                Some(ms) => Some(ms + start_ms),
                None => Some(end_ms),
            },
            speaker: event.speaker,
            text: event.text,
        };
        proof {
            assert(placed_event@ == placed(all[i]@, start_ms, end_ms));
        }
        out.push(placed_event);
        proof {
            assert(event_views(out@) =~= event_views(before).push(wanted[i]));
            assert(wanted.take(i + 1) =~= wanted.take(i).push(wanted[i]));
        }
    }
    proof {
        assert(wanted.take(wanted.len() as int) =~= wanted);
    }
    TranscribedChunk { index, overlap_before, events: out }
}

// ---------------------------------------------------------------------------
// The order of the chunks
// ---------------------------------------------------------------------------

/// What a list of chunks says.
pub open spec fn transcribed_views(chunks: Seq<TranscribedChunk>) -> Seq<TranscribedContent> {
    chunks.map_values(|c: TranscribedChunk| c@)
}

/// `chunks` with `chunk` put in behind those whose index is not larger.
pub open spec fn put_in_order(
    chunks: Seq<TranscribedContent>,
    chunk: TranscribedContent,
) -> Seq<TranscribedContent>
    decreases chunks.len(),
{
    if chunks.len() > 0 && chunk.index < chunks.last().index {
        put_in_order(chunks.drop_last(), chunk).push(chunks.last())
    } else {
        chunks.push(chunk)
    }
}

/// The chunks by their index; those with the same index stay as they were.
pub open spec fn in_order(chunks: Seq<TranscribedContent>) -> Seq<TranscribedContent>
    decreases chunks.len(),
{
    if chunks.len() == 0 {
        Seq::empty()
    } else {
        put_in_order(in_order(chunks.drop_last()), chunks.last())
    }
}

proof fn lemma_put_in_order(
    chunks: Seq<TranscribedContent>,
    chunk: TranscribedContent,
    at: int,
)
    requires
        0 <= at <= chunks.len(),
        at > 0 ==> chunks[at - 1].index <= chunk.index,
        forall|k: int| at <= k < chunks.len() ==> chunk.index < (#[trigger] chunks[k]).index,
    ensures
        put_in_order(chunks, chunk) == chunks.insert(at, chunk),
    decreases chunks.len(),
{
    if chunks.len() > at {
        let first = chunks.drop_last();
        assert forall|k: int| at <= k < first.len() implies chunk.index < (
        #[trigger] first[k]).index by {
            assert(first[k] == chunks[k]);
        }
        lemma_put_in_order(first, chunk, at);
        assert(chunks[chunks.len() - 1] == chunks.last());
        assert(first.insert(at, chunk).push(chunks.last()) =~= chunks.insert(at, chunk));
    } else {
        assert(chunks.push(chunk) =~= chunks.insert(at, chunk));
    }
}

/// Sorts the chunks by their index.
pub fn sort_chunks(chunks: Vec<TranscribedChunk>) -> (sorted: Vec<TranscribedChunk>)
    ensures
        transcribed_views(sorted@) == in_order(transcribed_views(chunks@)),
{
    let ghost all = transcribed_views(chunks@);
    let ghost source = chunks@;
    let mut sorted: Vec<TranscribedChunk> = Vec::new();
    proof {
        assert(transcribed_views(sorted@) =~= in_order(all.take(0)));
    }
    for chunk in it: chunks
        invariant
            it.seq() == source,
            all == transcribed_views(source),
            transcribed_views(sorted@) == in_order(all.take(it.index())),
    {
        let ghost i = it.index();
        let ghost before = transcribed_views(sorted@);
        proof {
            assert(all.take(i + 1).drop_last() =~= all.take(i));
            assert(all.take(i + 1).last() == chunk@);
        }
        let mut at: usize = sorted.len();
        while at > 0 && chunk.index < sorted[at - 1].index
            invariant
                at <= sorted@.len(),
                before == transcribed_views(sorted@),
                forall|k: int|
                    at <= k < before.len() ==> chunk@.index < (#[trigger] before[k]).index,
            decreases at,
        {
            proof {
                assert(before[at - 1] == sorted@[at - 1]@);
            }
            at = at - 1;
        }
        proof {
            if at > 0 {
                assert(before[at - 1] == sorted@[at - 1]@);
            }
            lemma_put_in_order(before, chunk@, at as int);
        }
        sorted.insert(at, chunk);
        proof {
            assert(transcribed_views(sorted@) =~= before.insert(at as int, chunk@));
        }
    }
    proof {
        assert(all.take(all.len() as int) =~= all);
    }
    sorted
}

// ---------------------------------------------------------------------------
// Putting the chunks together
// ---------------------------------------------------------------------------

/// The pieces of a chunk, the first without what it repeats from `done`.
pub open spec fn unrepeated(
    done: Seq<TranscriptContent>,
    chunk: TranscribedContent,
) -> Seq<TranscriptContent> {
    if chunk.overlap_before && done.len() > 0 && chunk.events.len() > 0 {
        let first = chunk.events[0];
        chunk.events.update(
            0,
            TranscriptContent { text: without_repetition(done.last().text, first.text), ..first },
        )
    } else {
        chunk.events
    }
}

/// The pieces that are not blank.
pub open spec fn spoken(events: Seq<TranscriptContent>) -> Seq<TranscriptContent>
    decreases events.len(),
{
    if events.len() == 0 {
        Seq::empty()
    } else if blank(events.last().text) {
        spoken(events.drop_last())
    } else {
        spoken(events.drop_last()).push(events.last())
    }
}

/// The transcript of a recording out of those of its chunks: one after the
/// other, without what a chunk repeats where it overlaps the one before it, and
/// without what is blank.
pub open spec fn reconciled(chunks: Seq<TranscribedContent>) -> Seq<TranscriptContent>
    decreases chunks.len(),
{
    if chunks.len() == 0 {
        Seq::empty()
    } else {
        let done = reconciled(chunks.drop_last());
        done + spoken(unrepeated(done, chunks.last()))
    }
}

/// Puts the transcripts of the chunks together.
pub fn reconcile_chunks(chunks: Vec<TranscribedChunk>) -> (output: Vec<NormalizedTranscript>)
    ensures
        event_views(output@) == reconciled(transcribed_views(chunks@)),
{
    let ghost source = chunks@;
    let ghost all = transcribed_views(chunks@);
    let mut output: Vec<NormalizedTranscript> = Vec::new();
    proof {
        assert(event_views(output@) =~= reconciled(all.take(0)));
    }
    for chunk in it: chunks
        invariant
            it.seq() == source,
            all == transcribed_views(source),
            event_views(output@) == reconciled(all.take(it.index())),
    {
        let ghost i = it.index();
        let ghost done = event_views(output@);
        proof {
            assert(all.take(i + 1).drop_last() =~= all.take(i));
            assert(all.take(i + 1).last() == chunk@);
        }
        let ghost wanted = unrepeated(done, chunk@);
        let overlapping = chunk.overlap_before;
        let count = output.len();
        let mut first = true;
        let ghost events = chunk.events@;
        proof {
            assert(done + spoken(wanted.take(0)) =~= done);
        }
        for event in inner: chunk.events
            invariant
                inner.seq() == events,
                event_views(events) == chunk@.events,
                overlapping == chunk@.overlap_before,
                count == done.len(),
                first == (inner.index() == 0),
                wanted == unrepeated(done, chunk@),
                event_views(output@) == done + spoken(wanted.take(inner.index())),
                first ==> output@.len() == count,
        {
            let ghost k = inner.index();
            let ghost before = output@;
            let mut piece = event;
            proof {
                assert(events[k] == piece);
                assert(chunk@.events[k] == piece@);
                assert(first ==> spoken(wanted.take(0)) =~= Seq::<
                    TranscriptContent,
                >::empty());
                assert(first ==> event_views(output@) =~= done);
            }
            if overlapping && first && count > 0 {
                proof {
                    assert(done.last() == output@[count - 1]@);
                }
                let text = remove_repeated_prefix(
                    output[count - 1].text.as_str(),
                    piece.text.as_str(),
                );
                piece.text = text;
            }
            proof {
                assert(wanted[k] == piece@);
                assert(wanted.take(k + 1).drop_last() =~= wanted.take(k));
                assert(wanted.take(k + 1).last() == wanted[k]);
            }
            if !is_blank(piece.text.as_str()) {
                output.push(piece);
                proof {
                    assert(event_views(output@) =~= event_views(before).push(piece@));
                    assert(done + spoken(wanted.take(k)).push(piece@) =~= (done + spoken(
                        wanted.take(k),
                    )).push(piece@));
                }
            }
            first = false;
        }
        proof {
            assert(wanted.take(wanted.len() as int) =~= wanted);
        }
    }
    proof {
        assert(all.take(all.len() as int) =~= all);
    }
    output
}

/// Makes the transcript of a recording out of those of its chunks, in whatever
/// order they were finished.
pub fn assemble_transcript(chunks: Vec<TranscribedChunk>) -> (output: Vec<NormalizedTranscript>)
    ensures
        event_views(output@) == reconciled(in_order(transcribed_views(chunks@))),
{
    reconcile_chunks(sort_chunks(chunks))
}

// ---------------------------------------------------------------------------
// Laws
// ---------------------------------------------------------------------------

/// Whether no chunk comes before one with a smaller index.
pub open spec fn ordered(chunks: Seq<TranscribedContent>) -> bool {
    forall|i: int, j: int|
        0 <= i <= j < chunks.len() ==> (#[trigger] chunks[i]).index <= (#[trigger] chunks[j]).index
}

/// Whether no two chunks have the same index.
pub open spec fn distinct(chunks: Seq<TranscribedContent>) -> bool {
    forall|i: int, j: int|
        0 <= i < chunks.len() && 0 <= j < chunks.len() && i != j ==> (#[trigger] chunks[i]).index
            != (#[trigger] chunks[j]).index
}

proof fn lemma_put_keeps_order(chunks: Seq<TranscribedContent>, chunk: TranscribedContent)
    requires
        ordered(chunks),
    ensures
        ordered(put_in_order(chunks, chunk)),
        put_in_order(chunks, chunk).to_multiset() == chunks.to_multiset().insert(chunk),
        put_in_order(chunks, chunk).len() == chunks.len() + 1,
    decreases chunks.len(),
{
    broadcast use vstd::seq_lib::group_to_multiset_ensures;

    if chunks.len() > 0 && chunk.index < chunks.last().index {
        let first = chunks.drop_last();
        let last = chunks.last();
        assert(forall|i: int| 0 <= i < first.len() ==> first[i] == chunks[i]);
        lemma_put_keeps_order(first, chunk);
        let before = put_in_order(first, chunk);
        let all = put_in_order(chunks, chunk);
        assert(all == before.push(last));
        assert(first.push(last) =~= chunks);
        assert(chunks.to_multiset() =~= first.to_multiset().insert(last));
        assert(all.to_multiset() =~= chunks.to_multiset().insert(chunk));
        assert forall|i: int, j: int| 0 <= i <= j < all.len() implies (#[trigger] all[i]).index <= (
        #[trigger] all[j]).index by {
            if j == all.len() - 1 && i < j {
                lemma_put_is_bounded(first, chunk, last.index);
                assert(all[i] == before[i]);
            } else if i < j {
                assert(all[i] == before[i] && all[j] == before[j]);
            }
        }
    } else {
        let all = chunks.push(chunk);
        assert(all.to_multiset() =~= chunks.to_multiset().insert(chunk));
        assert forall|i: int, j: int| 0 <= i <= j < all.len() implies (#[trigger] all[i]).index <= (
        #[trigger] all[j]).index by {
            if i < chunks.len() {
                assert(chunks[i].index <= chunks[chunks.len() - 1].index);
            }
        }
    }
}

proof fn lemma_put_is_bounded(
    chunks: Seq<TranscribedContent>,
    chunk: TranscribedContent,
    bound: int,
)
    requires
        chunk.index <= bound,
        forall|i: int| 0 <= i < chunks.len() ==> (#[trigger] chunks[i]).index <= bound,
    ensures
        forall|i: int|
            0 <= i < put_in_order(chunks, chunk).len() ==> (#[trigger] put_in_order(
                chunks,
                chunk,
            )[i]).index <= bound,
    decreases chunks.len(),
{
    if chunks.len() > 0 && chunk.index < chunks.last().index {
        let first = chunks.drop_last();
        assert(forall|i: int| 0 <= i < first.len() ==> first[i] == chunks[i]);
        lemma_put_is_bounded(first, chunk, bound);
        assert(chunks[chunks.len() - 1] == chunks.last());
        assert(put_in_order(chunks, chunk) == put_in_order(first, chunk).push(chunks.last()));
    } else {
        assert(put_in_order(chunks, chunk) == chunks.push(chunk));
    }
}

/// Sorting puts the chunks in order and keeps every one of them.
pub proof fn law_sorting(chunks: Seq<TranscribedContent>)
    ensures
        ordered(in_order(chunks)),
        in_order(chunks).to_multiset() == chunks.to_multiset(),
        in_order(chunks).len() == chunks.len(),
    decreases chunks.len(),
{
    broadcast use vstd::seq_lib::group_to_multiset_ensures;

    if chunks.len() > 0 {
        let first = chunks.drop_last();
        law_sorting(first);
        lemma_put_keeps_order(in_order(first), chunks.last());
        assert(first.push(chunks.last()) =~= chunks);
    } else {
        assert(in_order(chunks) =~= chunks);
    }
}

/// The transcript does not depend on the order in which the chunks were
/// finished.
pub proof fn law_completion_order_is_irrelevant(
    a: Seq<TranscribedContent>,
    b: Seq<TranscribedContent>,
)
    requires
        a.to_multiset() == b.to_multiset(),
        distinct(a),
    ensures
        reconciled(in_order(a)) == reconciled(in_order(b)),
{
    law_sorting(a);
    law_sorting(b);
    lemma_distinct_moves(a, in_order(a));
    lemma_same_order(in_order(a), in_order(b));
}

proof fn lemma_distinct_moves(a: Seq<TranscribedContent>, b: Seq<TranscribedContent>)
    requires
        a.to_multiset() == b.to_multiset(),
        distinct(a),
    ensures
        distinct(b),
{
    broadcast use vstd::seq_lib::group_to_multiset_ensures;

    assert forall|i: int, j: int| 0 <= i < b.len() && 0 <= j < b.len() && i != j implies (
    #[trigger] b[i]).index != (#[trigger] b[j]).index by {
        if b[i].index == b[j].index {
            lemma_found(b, a, i);
            lemma_found(b, a, j);
            let p = choose|p: int| 0 <= p < a.len() && a[p] == b[i];
            let q = choose|q: int| 0 <= q < a.len() && a[q] == b[j];
            if p == q {
                // The same value twice in `b` is there twice in `a`.
                lemma_twice(b, i, j);
                lemma_once(a, p);
            }
        }
    }
}

proof fn lemma_found(a: Seq<TranscribedContent>, b: Seq<TranscribedContent>, i: int)
    requires
        a.to_multiset() == b.to_multiset(),
        0 <= i < a.len(),
    ensures
        exists|p: int| 0 <= p < b.len() && b[p] == a[i],
{
    broadcast use vstd::seq_lib::group_to_multiset_ensures;

    assert(a.contains(a[i]));
    assert(a.to_multiset().count(a[i]) > 0);
    assert(b.contains(a[i]));
}

proof fn lemma_twice(b: Seq<TranscribedContent>, i: int, j: int)
    requires
        0 <= i < b.len(),
        0 <= j < b.len(),
        i != j,
        b[i] == b[j],
    ensures
        b.to_multiset().count(b[i]) >= 2,
{
    broadcast use vstd::seq_lib::group_to_multiset_ensures;

    let rest = b.remove(i);
    assert(b.to_multiset().remove(b[i]) =~= rest.to_multiset());
    let k = if j < i {
        j
    } else {
        j - 1
    };
    assert(rest[k] == b[j]);
    assert(rest.contains(b[i]));
    assert(rest.to_multiset().count(b[i]) > 0);
}

proof fn lemma_once(a: Seq<TranscribedContent>, p: int)
    requires
        0 <= p < a.len(),
        distinct(a),
    ensures
        a.to_multiset().count(a[p]) <= 1,
{
    broadcast use vstd::seq_lib::group_to_multiset_ensures;

    let rest = a.remove(p);
    assert(a.to_multiset().remove(a[p]) =~= rest.to_multiset());
    if rest.contains(a[p]) {
        let k = choose|k: int| 0 <= k < rest.len() && rest[k] == a[p];
        let m = if k < p {
            k
        } else {
            k + 1
        };
        assert(rest[k] == a[m]);
        assert(a[m].index == a[p].index);
    }
    assert(rest.to_multiset().count(a[p]) == 0);
}

proof fn lemma_same_order(a: Seq<TranscribedContent>, b: Seq<TranscribedContent>)
    requires
        ordered(a),
        ordered(b),
        distinct(a),
        a.to_multiset() == b.to_multiset(),
    ensures
        a == b,
    decreases a.len(),
{
    broadcast use vstd::seq_lib::group_to_multiset_ensures;

    assert(a.len() == a.to_multiset().len());
    assert(b.len() == b.to_multiset().len());
    if a.len() > 0 {
        let x = a.last();
        let y = b.last();
        lemma_found(a, b, a.len() - 1);
        lemma_found(b, a, b.len() - 1);
        let p = choose|p: int| 0 <= p < b.len() && b[p] == x;
        let q = choose|q: int| 0 <= q < a.len() && a[q] == y;
        assert(b[p].index <= b[b.len() - 1].index);
        assert(a[q].index <= a[a.len() - 1].index);
        assert(q == a.len() - 1);
        assert(x == y);
        let c = a.drop_last();
        let d = b.drop_last();
        assert(c.push(x) =~= a);
        assert(d.push(y) =~= b);
        assert(c.to_multiset() =~= a.to_multiset().remove(x));
        assert(d.to_multiset() =~= b.to_multiset().remove(x));
        assert(forall|i: int| 0 <= i < c.len() ==> c[i] == a[i]);
        assert(forall|i: int| 0 <= i < d.len() ==> d[i] == b[i]);
        lemma_same_order(c, d);
    } else {
        assert(a =~= b);
    }
}

/// Nothing in the transcript of a recording is blank.
pub proof fn law_transcript_has_no_blanks(chunks: Seq<TranscribedContent>)
    ensures
        forall|i: int|
            0 <= i < reconciled(chunks).len() ==> !blank((#[trigger] reconciled(chunks)[i]).text),
    decreases chunks.len(),
{
    if chunks.len() > 0 {
        let done = reconciled(chunks.drop_last());
        let events = unrepeated(done, chunks.last());
        law_transcript_has_no_blanks(chunks.drop_last());
        lemma_spoken(events);
        assert forall|i: int| 0 <= i < reconciled(chunks).len() implies !blank(
            (#[trigger] reconciled(chunks)[i]).text,
        ) by {
            if i < done.len() {
                assert(reconciled(chunks)[i] == done[i]);
            } else {
                assert(reconciled(chunks)[i] == spoken(events)[i - done.len()]);
            }
        }
    }
}

proof fn lemma_spoken(events: Seq<TranscriptContent>)
    ensures
        forall|i: int| 0 <= i < spoken(events).len() ==> !blank((#[trigger] spoken(events)[i]).text),
    decreases events.len(),
{
    if events.len() > 0 {
        lemma_spoken(events.drop_last());
    }
}

// ---------------------------------------------------------------------------
// Laws of words
// ---------------------------------------------------------------------------

proof fn lemma_normalized_parts(a: Seq<char>, b: Seq<char>)
    ensures
        normalized(a + b) == normalized(a) + normalized(b),
    decreases b.len(),
{
    if b.len() > 0 {
        lemma_normalized_parts(a, b.drop_last());
        assert((a + b).drop_last() =~= a + b.drop_last());
        assert((a + b).last() == b.last());
        assert(normalized(a + b) =~= normalized(a) + normalized(b));
    } else {
        assert(a + b =~= a);
        assert(normalized(a) + normalized(b) =~= normalized(a));
    }
}

/// A word is reduced character by character: of the ASCII characters, small
/// letters and digits stay, capitals become small, and the others are lost.
pub proof fn law_words_are_reduced(a: Seq<char>, c: char, b: Seq<char>)
    ensures
        normalized(a + seq![c] + b) == normalized(a) + normalized(seq![c]) + normalized(b),
        normalized(Seq::empty()) == Seq::<char>::empty(),
        'a' <= c <= 'z' || '0' <= c <= '9' ==> normalized(seq![c]) == seq![c],
        'A' <= c <= 'Z' ==> normalized(seq![c]).len() == 1 && normalized(seq![c])[0] as int == c as int
            + ('a' as int - 'A' as int),
        c <= '\x7f' && !('a' <= c <= 'z' || '0' <= c <= '9' || 'A' <= c <= 'Z') ==> normalized(
            seq![c],
        ).len() == 0,
        c > '\x7f' ==> normalized(seq![c]) == (if alphanumeric(c) {
            lowercase(c)
        } else {
            Seq::empty()
        }),
{
    lemma_normalized_parts(a + seq![c], b);
    lemma_normalized_parts(a, seq![c]);
    let one = seq![c];
    assert(one.drop_last() =~= Seq::<char>::empty());
    assert(one.last() == c);
    assert(normalized(Seq::<char>::empty()) =~= Seq::<char>::empty());
    assert(normalized(one) =~= if is_kept(c) {
        lowered(c)
    } else {
        Seq::<char>::empty()
    });
}

/// What a text repeats is taken away from it: the largest number of words, from
/// two to sixteen, that the text before it ends with and that it starts with, but
/// for case and punctuation. The other words stay, in order, with one space
/// between each two. Where nothing is repeated, the text stays as it is.
pub proof fn law_repetition_is_taken_away(previous: Seq<char>, current: Seq<char>) -> (count: int)
    ensures
        ({
            let left = words(previous);
            let right = words(current);
            let rest = without_repetition(previous, current);
            &&& count == 0 || 2 <= count <= 16
            &&& count <= left.len()
            &&& count <= right.len()
            &&& forall|i: int|
                0 <= i < count ==> normalized(left[left.len() - count + i]) == normalized(
                    #[trigger] right[i],
                )
            &&& forall|k: int|
                count < k <= 16 && 2 <= k <= left.len() && k <= right.len() ==> #[trigger] differs(
                    left.skip(left.len() - k),
                    right.take(k),
                )
            &&& count == 0 ==> rest == current
            &&& 0 < count == right.len() ==> rest.len() == 0
            &&& 0 < count < right.len() ==> rest == right.skip(count + 1).fold_left(
                right[count],
                |text: Seq<char>, word: Seq<char>| text + seq![' '] + word,
            )
        }),
{
    let left = words(previous);
    let right = words(current);
    let count = repeated_words(left, right, 16) as int;
    lemma_repetition_found(left, right, 16);
    assert forall|k: int|
        count < k <= 16 && 2 <= k <= left.len() && k <= right.len() implies #[trigger] differs(
        left.skip(left.len() - k),
        right.take(k),
    ) by {
        if repeats(left, right, k) {
            lemma_repetition_is_longest(left, right, 16, k);
        }
        let i = choose|i: int|
            0 <= i < k && normalized(left[left.len() - k + i]) != normalized(#[trigger] right[i]);
        assert(left.skip(left.len() - k)[i] == left[left.len() - k + i]);
        assert(right.take(k)[i] == right[i]);
    }
    if 0 < count < right.len() {
        let rest = right.skip(count);
        law_joining(rest, seq![' ']);
        assert(rest.skip(1) =~= right.skip(count + 1));
        assert(rest[0] == right[count]);
    }
    count
}

/// Whether two lists of words differ in a word by more than case and punctuation.
pub open spec fn differs(left: Seq<Seq<char>>, right: Seq<Seq<char>>) -> bool {
    exists|i: int|
        0 <= i < left.len() && 0 <= i < right.len() && normalized(#[trigger] left[i]) != normalized(
            #[trigger] right[i],
        )
}

// ---------------------------------------------------------------------------
// Laws of transcripts
// ---------------------------------------------------------------------------

/// Whether the numbers go up.
pub open spec fn rising(list: Seq<int>) -> bool {
    forall|i: int, j: int| 0 <= i < j < list.len() ==> #[trigger] list[i] < #[trigger] list[j]
}

/// The answer of the backend in segments becomes one piece for each segment that
/// is not white space alone, in order: each piece has the times and the speaker of
/// its own segment, and its text without the white space around it. `origin` says
/// which segment each piece comes from.
pub proof fn law_pieces_are_the_segments(
    response: TranscriptionResponse,
    segments: Vec<TranscriptionSegment>,
) -> (origin: Seq<int>)
    requires
        response.segments == Some(segments),
    ensures
        origin.len() == response_content(response).len(),
        rising(origin),
        forall|k: int|
            0 <= k < segments@.len() ==> (origin.contains(k) <==> !only_white(
                (#[trigger] segments@[k]).text@,
            )),
        forall|i: int|
            0 <= i < origin.len() ==> 0 <= #[trigger] origin[i] < segments@.len() && ({
                let piece = response_content(response)[i];
                let segment = segments@[origin[i]];
                &&& piece.start_ms == segment.start_ms
                &&& piece.end_ms == segment.end_ms
                &&& piece.speaker == opt_view(segment.speaker)
                &&& piece.text == trimmed(segment.text@)
            }),
{
    lemma_segment_origin(segments@)
}

proof fn lemma_segment_origin(segments: Seq<TranscriptionSegment>) -> (origin: Seq<int>)
    ensures
        origin.len() == segment_contents(segments).len(),
        rising(origin),
        forall|k: int|
            0 <= k < segments.len() ==> (origin.contains(k) <==> !only_white(
                (#[trigger] segments[k]).text@,
            )),
        forall|i: int|
            0 <= i < origin.len() ==> 0 <= #[trigger] origin[i] < segments.len()
                && segment_contents(segments)[i] == segment_content(segments[origin[i]]),
    decreases segments.len(),
{
    if segments.len() == 0 {
        Seq::empty()
    } else {
        let before = segments.drop_last();
        let last = segments.len() - 1;
        let found = lemma_segment_origin(before);
        let _ = law_trimming(segments.last().text@);
        assert forall|i: int| 0 <= i < found.len() implies 0 <= #[trigger] found[i] < last by {}
        let origin = if blank(segments.last().text@) {
            found
        } else {
            found.push(last)
        };
        assert forall|k: int| 0 <= k < segments.len() implies (origin.contains(k) <==> !only_white(
            (#[trigger] segments[k]).text@,
        )) by {
            if k < last {
                assert(segments[k] == before[k]);
                if origin.contains(k) {
                    let i = origin.index_of(k);
                    assert(found[i] == k);
                }
                if found.contains(k) {
                    let i = found.index_of(k);
                    assert(origin[i] == k);
                }
            } else if blank(segments.last().text@) {
                if found.contains(k) {
                    assert(found[found.index_of(k)] < last);
                }
            } else {
                assert(origin[found.len() as int] == k);
            }
        }
        assert forall|i: int| 0 <= i < origin.len() implies 0 <= #[trigger] origin[i]
            < segments.len() && segment_contents(segments)[i] == segment_content(
            segments[origin[i]],
        ) by {
            if i < found.len() {
                assert(origin[i] == found[i]);
                assert(before[found[i]] == segments[found[i]]);
            }
        }
        assert(rising(origin));
        origin
    }
}

/// The answer of the backend without segments becomes one piece with its text,
/// without times and speaker, unless it is white space alone.
pub proof fn law_plain_answer_is_one_piece(response: TranscriptionResponse)
    requires
        response.segments is None,
    ensures
        match response.text {
            Some(text) => if only_white(text@) {
                response_content(response).len() == 0
            } else {
                &&& response_content(response).len() == 1
                &&& response_content(response)[0].text == trimmed(text@)
                &&& response_content(response)[0].start_ms is None
                &&& response_content(response)[0].end_ms is None
                &&& response_content(response)[0].speaker is None
            },
            None => response_content(response).len() == 0,
        },
{
    if let Some(text) = response.text {
        let _ = law_trimming(text@);
    }
}

/// A piece of a chunk is later in the recording by the start of the chunk; where
/// it has no time, it starts or ends with the chunk. Its speaker and its text stay.
pub proof fn law_pieces_are_shifted(event: TranscriptContent, start_ms: u64, end_ms: u64)
    requires
        event.start_ms matches Some(ms) ==> ms + start_ms <= u64::MAX,
        event.end_ms matches Some(ms) ==> ms + start_ms <= u64::MAX,
    ensures
        ({
            let there = placed(event, start_ms, end_ms);
            &&& there.start_ms is Some
            &&& there.end_ms is Some
            &&& there.start_ms->0 - start_ms == (match event.start_ms {
                Some(ms) => ms as int,
                None => 0,
            })
            &&& match event.end_ms {
                Some(ms) => there.end_ms->0 - ms == start_ms,
                None => there.end_ms->0 == end_ms,
            }
            &&& there.speaker == event.speaker
            &&& there.text == event.text
        }),
{
}

/// Whether one place in the chunks, a chunk and a piece of it, comes before
/// another.
pub open spec fn sooner(a: (int, int), b: (int, int)) -> bool {
    a.0 < b.0 || a.0 == b.0 && a.1 < b.1
}

/// Whether `place` is a piece of one of the chunks.
pub open spec fn is_place(chunks: Seq<TranscribedContent>, place: (int, int)) -> bool {
    0 <= place.0 < chunks.len() && 0 <= place.1 < chunks[place.0].events.len()
}

/// Whether the piece at a place starts a chunk that overlaps the one before it.
pub open spec fn may_repeat(chunks: Seq<TranscribedContent>, place: (int, int)) -> bool {
    place.1 == 0 && chunks[place.0].overlap_before
}

/// Whether `piece` is the one at `place`: it has its times and its speaker, and
/// its text, which only the first piece of an overlapping chunk has without what
/// it repeats from the piece before it.
pub open spec fn comes_from(
    output: Seq<TranscriptContent>,
    i: int,
    chunks: Seq<TranscribedContent>,
    place: (int, int),
) -> bool {
    let piece = output[i];
    let event = chunks[place.0].events[place.1];
    &&& piece.start_ms == event.start_ms
    &&& piece.end_ms == event.end_ms
    &&& piece.speaker == event.speaker
    &&& piece.text == if may_repeat(chunks, place) && i > 0 {
        without_repetition(output[i - 1].text, event.text)
    } else {
        event.text
    }
}

/// Whether the piece at a place says nothing: it is white space alone, or it is
/// when it loses what it repeats from piece `last` of the output, behind which it
/// would stand.
pub open spec fn says_nothing(
    output: Seq<TranscriptContent>,
    origin: Seq<(int, int)>,
    chunks: Seq<TranscribedContent>,
    place: (int, int),
) -> bool {
    let text = chunks[place.0].events[place.1].text;
    ||| only_white(text)
    ||| may_repeat(chunks, place) && exists|last: int|
        0 <= last < output.len() && sooner(#[trigger] origin[last], place) && (last + 1
            == output.len() || sooner(place, origin[last + 1])) && only_white(
            without_repetition(output[last].text, text),
        )
}

proof fn lemma_spoken_origin(events: Seq<TranscriptContent>) -> (origin: Seq<int>)
    ensures
        origin.len() == spoken(events).len(),
        rising(origin),
        forall|k: int|
            0 <= k < events.len() ==> (origin.contains(k) <==> !only_white(
                (#[trigger] events[k]).text,
            )),
        forall|i: int|
            0 <= i < origin.len() ==> 0 <= #[trigger] origin[i] < events.len() && spoken(events)[i]
                == events[origin[i]],
    decreases events.len(),
{
    if events.len() == 0 {
        Seq::empty()
    } else {
        let before = events.drop_last();
        let last = events.len() - 1;
        let found = lemma_spoken_origin(before);
        let _ = law_trimming(events.last().text);
        assert forall|i: int| 0 <= i < found.len() implies 0 <= #[trigger] found[i] < last by {}
        let origin = if blank(events.last().text) {
            found
        } else {
            found.push(last)
        };
        assert forall|k: int| 0 <= k < events.len() implies (origin.contains(k) <==> !only_white(
            (#[trigger] events[k]).text,
        )) by {
            if k < last {
                assert(events[k] == before[k]);
                if origin.contains(k) {
                    let i = origin.index_of(k);
                    assert(found[i] == k);
                }
                if found.contains(k) {
                    let i = found.index_of(k);
                    assert(origin[i] == k);
                }
            } else if blank(events.last().text) {
                if found.contains(k) {
                    assert(found[found.index_of(k)] < last);
                }
            } else {
                assert(origin[found.len() as int] == k);
            }
        }
        assert forall|i: int| 0 <= i < origin.len() implies 0 <= #[trigger] origin[i]
            < events.len() && spoken(events)[i] == events[origin[i]] by {
            if i < found.len() {
                assert(origin[i] == found[i]);
                assert(before[found[i]] == events[found[i]]);
            }
        }
        assert(rising(origin));
        origin
    }
}

/// The transcript of a recording is made of the pieces of its chunks, in order:
/// each has the times and the speaker of the piece that it comes from, and its
/// text, of which only the first piece of an overlapping chunk loses what it
/// repeats. Only what says nothing is left out. `origin` says where each piece
/// comes from.
pub proof fn law_transcript_is_made_of_pieces(chunks: Seq<TranscribedContent>) -> (origin: Seq<
    (int, int),
>)
    ensures
        origin.len() == reconciled(chunks).len(),
        forall|i: int, j: int|
            0 <= i < j < origin.len() ==> sooner(#[trigger] origin[i], #[trigger] origin[j]),
        forall|i: int|
            0 <= i < origin.len() ==> is_place(chunks, #[trigger] origin[i]) && comes_from(
                reconciled(chunks),
                i,
                chunks,
                origin[i],
            ) && !only_white(reconciled(chunks)[i].text),
        forall|place: (int, int)|
            #![trigger is_place(chunks, place)]
            is_place(chunks, place) && !origin.contains(place) ==> says_nothing(
                reconciled(chunks),
                origin,
                chunks,
                place,
            ),
    decreases chunks.len(),
{
    if chunks.len() == 0 {
        Seq::empty()
    } else {
        let before = chunks.drop_last();
        let chunk = chunks.last();
        let last = chunks.len() - 1;
        let done = reconciled(before);
        let output = reconciled(chunks);
        let wanted = unrepeated(done, chunk);
        let earlier = law_transcript_is_made_of_pieces(before);
        let kept = lemma_spoken_origin(wanted);
        let later = kept.map_values(|e: int| (last, e));
        let origin = earlier + later;
        assert(output == done + spoken(wanted));
        assert forall|i: int| 0 <= i < origin.len() implies is_place(chunks, #[trigger] origin[i])
            && comes_from(output, i, chunks, origin[i]) && !only_white(output[i].text) by {
            if i < earlier.len() {
                assert(origin[i] == earlier[i]);
                assert(is_place(before, earlier[i]));
                assert(comes_from(done, i, before, earlier[i]));
                assert(before[earlier[i].0] == chunks[earlier[i].0]);
                assert(output[i] == done[i]);
                if i > 0 {
                    assert(output[i - 1] == done[i - 1]);
                }
            } else {
                let m = i - done.len();
                let e = kept[m];
                assert(origin[i] == (last, e));
                assert(output[i] == wanted[e]);
                assert(kept.contains(e));
                assert(!only_white(wanted[e].text));
                if e == 0 && m > 0 {
                    assert(kept[0] < kept[m]);
                }
                if e == 0 && i > 0 {
                    assert(output[i - 1] == done.last());
                }
            }
        }
        assert forall|i: int, j: int| 0 <= i < j < origin.len() implies sooner(
            #[trigger] origin[i],
            #[trigger] origin[j],
        ) by {
            if j < earlier.len() {
                assert(origin[i] == earlier[i] && origin[j] == earlier[j]);
            } else if i < earlier.len() {
                assert(origin[i] == earlier[i]);
                assert(is_place(before, earlier[i]));
                assert(origin[j] == (last, kept[j - earlier.len()]));
            } else {
                assert(origin[i] == (last, kept[i - earlier.len()]));
                assert(origin[j] == (last, kept[j - earlier.len()]));
            }
        }
        assert forall|place: (int, int)|
            #![trigger is_place(chunks, place)]
            is_place(chunks, place) && !origin.contains(place) implies says_nothing(
            output,
            origin,
            chunks,
            place,
        ) by {
            let text = chunks[place.0].events[place.1].text;
            if place.0 < last {
                assert(before[place.0] == chunks[place.0]);
                assert(is_place(before, place));
                if earlier.contains(place) {
                    let i = earlier.index_of(place);
                    assert(origin[i] == place);
                }
                assert(says_nothing(done, earlier, before, place));
                if !only_white(text) {
                    let n = choose|n: int|
                        0 <= n < done.len() && sooner(#[trigger] earlier[n], place) && (n + 1
                            == done.len() || sooner(place, earlier[n + 1])) && only_white(
                            without_repetition(done[n].text, text),
                        );
                    assert(origin[n] == earlier[n]);
                    assert(output[n] == done[n]);
                    if n + 1 < done.len() {
                        assert(origin[n + 1] == earlier[n + 1]);
                    } else if n + 1 < output.len() {
                        assert(origin[n + 1] == (last, kept[0]));
                    }
                }
            } else {
                let e = place.1;
                if kept.contains(e) {
                    let m = kept.index_of(e);
                    assert(origin[earlier.len() + m] == place);
                }
                assert(wanted.len() == chunk.events.len());
                assert(only_white(wanted[e].text));
                if !only_white(text) {
                    assert(e == 0 && chunk.overlap_before && done.len() > 0);
                    let n = done.len() - 1;
                    assert(origin[n] == earlier[n]);
                    assert(is_place(before, earlier[n]));
                    assert(output[n] == done.last());
                    if n + 1 < output.len() {
                        assert(origin[n + 1] == (last, kept[0]));
                        assert(0 <= kept[0]);
                        assert(kept.contains(kept[0]));
                    }
                }
            }
        }
        origin
    }
}

/// Chunks with the same index keep their order when they are sorted.
pub proof fn law_sorting_is_stable(chunks: Seq<TranscribedContent>, index: int)
    ensures
        in_order(chunks).filter(|c: TranscribedContent| c.index == index) == chunks.filter(
            |c: TranscribedContent| c.index == index,
        ),
    decreases chunks.len(),
{
    let same = |c: TranscribedContent| c.index == index;
    reveal(Seq::filter);
    if chunks.len() > 0 {
        let first = chunks.drop_last();
        law_sorting_is_stable(first, index);
        law_sorting(first);
        lemma_put_is_stable(in_order(first), chunks.last(), index);
    } else {
        assert(in_order(chunks) =~= chunks);
    }
}

proof fn lemma_put_is_stable(
    chunks: Seq<TranscribedContent>,
    chunk: TranscribedContent,
    index: int,
)
    requires
        ordered(chunks),
    ensures
        put_in_order(chunks, chunk).filter(|c: TranscribedContent| c.index == index) == (if chunk.index
            == index {
            chunks.filter(|c: TranscribedContent| c.index == index).push(chunk)
        } else {
            chunks.filter(|c: TranscribedContent| c.index == index)
        }),
    decreases chunks.len(),
{
    let same = |c: TranscribedContent| c.index == index;
    if chunks.len() > 0 && chunk.index < chunks.last().index {
        let first = chunks.drop_last();
        let last = chunks.last();
        assert(forall|i: int| 0 <= i < first.len() ==> first[i] == chunks[i]);
        lemma_put_is_stable(first, chunk, index);
        put_in_order(first, chunk).lemma_filter_push(last, same);
        first.lemma_filter_push(last, same);
        assert(first.push(last) =~= chunks);
        if chunk.index == index {
            assert(!same(last));
        }
    } else {
        chunks.lemma_filter_push(chunk, same);
    }
}

/// What is said of a piece is what it holds: its times, its speaker and its text.
/// What is said of a chunk is its index, whether it overlaps, and its pieces in
/// order.
pub proof fn law_contents_of_pieces(event: NormalizedTranscript, chunk: TranscribedChunk, i: int)
    ensures
        event@.start_ms == event.start_ms,
        event@.end_ms == event.end_ms,
        event@.text == event.text@,
        event@.speaker is Some <==> event.speaker is Some,
        event.speaker is Some ==> event@.speaker->0 == event.speaker->0@,
        chunk@.index == chunk.index,
        chunk@.overlap_before == chunk.overlap_before,
        chunk@.events.len() == chunk.events@.len(),
        0 <= i < chunk.events@.len() ==> chunk@.events[i] == chunk.events@[i]@,
{
}

} // verus!
