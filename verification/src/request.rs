//! Requests to the transcription backend: what is sent for a recording, and how
//! a recording is divided into requests.
use vstd::prelude::*;
use vstd::string::*;
use crate::chunking::{
    audio_chunks, chunk_ranges, chunk_views, chunking_fits, covers, divisible, fiftieth,
    has_oversized, law_chunk_is_its_range, law_chunks_hold_nothing_else, law_speech_is_submitted,
    lemma_speech_of, playable, speech_of, vad_chunks, AudioChunk, ChunkContent, SmartChunkConfig,
};
use crate::protocol::{AudioCodec, AudioContainer, AudioFormat};
use crate::text::{opt_str_view, opt_view};
use crate::vad::{
    frame_levels, has_rank, is_run, law_ranks_exist, law_speech_stands_out, speech_frames,
};
use crate::wav::{lemma_content_is_playable, parse_pcm_wav, wav_content, WavContent, WavError};

verus! {

// ---------------------------------------------------------------------------
// One request
// ---------------------------------------------------------------------------

/// A transcription backend and how it is asked.
#[derive(Debug, Clone)]
pub struct TranscriptionClient {
    pub base_url: String,
    pub api_key: Option<String>,
    pub model: String,
    pub language: Option<String>,
    pub timeout_seconds: u64,
    pub prompt: Option<String>,
    pub diarization_response_format: Option<String>,
}

/// A request to the backend: a form with the model, the audio as a file, and
/// then the options.
#[derive(Debug)]
pub struct TranscriptionRequest {
    pub url: String,
    pub model: String,
    pub file_name: &'static str,
    pub mime_type: &'static str,
    pub audio: Vec<u8>,
    pub options: Vec<(&'static str, String)>,
    pub bearer_token: Option<String>,
    pub timeout_seconds: u64,
}

/// The name and the type of the file for audio in a format.
pub open spec fn part_metadata(format: AudioFormat) -> (Seq<char>, Seq<char>) {
    match (format.codec, format.container) {
        (AudioCodec::WavPcm16, AudioContainer::Wav) => ("chunk.wav"@, "audio/wav"@),
        (AudioCodec::Opus, AudioContainer::Ogg) => ("chunk.ogg"@, "audio/ogg"@),
        _ => ("chunk.audio"@, "application/octet-stream"@),
    }
}

/// The name and the type of the file for audio in a format.
pub fn audio_part_metadata(format: &AudioFormat) -> (r: (&'static str, &'static str))
    ensures
        (r.0@, r.1@) == part_metadata(*format),
{
    match (format.codec, format.container) {
        (AudioCodec::WavPcm16, AudioContainer::Wav) => ("chunk.wav", "audio/wav"),
        (AudioCodec::Opus, AudioContainer::Ogg) => ("chunk.ogg", "audio/ogg"),
        _ => ("chunk.audio", "application/octet-stream"),
    }
}

/// The option that names the language: that of the session, or else the one that
/// the server has for all sessions.
pub open spec fn language_options(session: Option<Seq<char>>, server: Option<Seq<char>>) -> Seq<
    (Seq<char>, Seq<char>),
> {
    match (session, server) {
        (Some(language), _) => seq![("language"@, language)],
        (None, Some(language)) => seq![("language"@, language)],
        (None, None) => Seq::empty(),
    }
}

/// The option that holds the prompt.
pub open spec fn prompt_options(prompt: Option<Seq<char>>) -> Seq<(Seq<char>, Seq<char>)> {
    match prompt {
        Some(prompt) => seq![("prompt"@, prompt)],
        None => Seq::empty(),
    }
}

/// The options that say what kind of answer is wanted.
pub open spec fn answer_options(diarization: bool, diarized_format: Option<Seq<char>>) -> Seq<
    (Seq<char>, Seq<char>),
> {
    if diarization {
        let format = match diarized_format {
            Some(format) => format,
            None => "verbose_json"@,
        };
        if format == "diarized_json"@ {
            seq![("response_format"@, format), ("chunking_strategy"@, "auto"@)]
        } else {
            seq![("response_format"@, format)]
        }
    } else {
        seq![("response_format"@, "json"@)]
    }
}

/// What a list of options says.
pub open spec fn option_views(options: Seq<(&'static str, String)>) -> Seq<(Seq<char>, Seq<char>)> {
    options.map_values(|o: (&'static str, String)| (o.0@, o.1@))
}

impl TranscriptionClient {
    /// The options of a request.
    pub open spec fn options(self, diarization: bool, language: Option<Seq<char>>) -> Seq<
        (Seq<char>, Seq<char>),
    > {
        language_options(language, opt_view(self.language)) + prompt_options(opt_view(self.prompt))
            + answer_options(diarization, opt_view(self.diarization_response_format))
    }

    /// Makes the request for some audio.
    pub fn request(
        &self,
        audio: Vec<u8>,
        diarization: bool,
        format: &AudioFormat,
        language: Option<&str>,
    ) -> (request: TranscriptionRequest)
        ensures
            request.url@ == self.base_url@ + "/v1/audio/transcriptions"@,
            request.model@ == self.model@,
            (request.file_name@, request.mime_type@) == part_metadata(*format),
            request.audio@ == audio@,
            option_views(request.options@) == self.options(diarization, opt_str_view(language)),
            opt_view(request.bearer_token) == opt_view(self.api_key),
            request.timeout_seconds == self.timeout_seconds,
    {
        let mut url = self.base_url.clone();
        url.append("/v1/audio/transcriptions");
        let (file_name, mime_type) = audio_part_metadata(format);
        let mut options: Vec<(&'static str, String)> = Vec::new();
        let ghost first = language_options(opt_str_view(language), opt_view(self.language));
        let ghost second = prompt_options(opt_view(self.prompt));
        match language {
            Some(language) => {
                options.push(("language", language.to_owned()));
            },
            None => {
                if let Some(language) = &self.language {
                    options.push(("language", language.clone()));
                }
            },
        }
        proof {
            assert(option_views(options@) =~= first);
        }
        if let Some(prompt) = &self.prompt {
            options.push(("prompt", prompt.clone()));
        }
        proof {
            assert(option_views(options@) =~= first + second);
        }
        if diarization {
            let response_format = match &self.diarization_response_format {
                Some(response_format) => response_format.clone(),
                None => "verbose_json".to_owned(),
            };
            let in_parts = response_format == "diarized_json".to_owned();
            options.push(("response_format", response_format));
            if in_parts {
                options.push(("chunking_strategy", "auto".to_owned()));
            }
        } else {
            options.push(("response_format", "json".to_owned()));
        }
        proof {
            assert(option_views(options@) =~= self.options(diarization, opt_str_view(language)));
        }
        TranscriptionRequest {
            url,
            model: self.model.clone(),
            file_name,
            mime_type,
            audio,
            options,
            bearer_token: self.api_key.clone(),
            timeout_seconds: self.timeout_seconds,
        }
    }
}

/// What is said of an answer that is no success.
pub open spec fn backend_error_text(status: Seq<char>, body: Seq<char>) -> Seq<char> {
    "transcription backend returned "@ + status + ": "@ + body
}

/// Says that the backend did not answer with success.
pub fn backend_error(status: &str, body: &str) -> (message: String)
    ensures
        message@ == backend_error_text(status@, body@),
{
    let mut message = "transcription backend returned ".to_owned();
    message.append(status);
    message.append(": ");
    message.append(body);
    message
}

/// Says that the answer of the backend could not be read.
pub fn unrecognized_response(body: &str) -> (message: String)
    ensures
        message@ == "transcription response was not recognized JSON: "@ + body@,
{
    let mut message = "transcription response was not recognized JSON: ".to_owned();
    message.append(body);
    message
}

/// Picks the backend for a request: the one for speaker labels where they are
/// wanted and there is one, otherwise the one for plain transcription.
pub fn select_backend<'a>(
    diarization: bool,
    plain: &'a TranscriptionClient,
    diarized: &'a Option<TranscriptionClient>,
) -> (backend: &'a TranscriptionClient)
    ensures
        *backend == (if diarization && diarized is Some {
            diarized->0
        } else {
            *plain
        }),
{
    if diarization {
        match diarized {
            Some(diarized) => diarized,
            None => plain,
        }
    } else {
        plain
    }
}

// ---------------------------------------------------------------------------
// One recording
// ---------------------------------------------------------------------------

/// How a recording is transcribed.
#[derive(Debug)]
pub enum Plan {
    /// In one request, as it is.
    Whole(Vec<u8>),
    /// Not at all: there is no speech in it.
    Nothing,
    /// In one request for each chunk.
    Chunks { format: AudioFormat, chunks: Vec<AudioChunk> },
}

/// How a recording is transcribed, with audio as sequences.
#[verifier::ext_equal]
pub enum PlanContent {
    Whole(Seq<u8>),
    Nothing,
    Chunks { format: AudioFormat, chunks: Seq<ChunkContent> },
}

impl View for Plan {
    type V = PlanContent;

    open spec fn view(&self) -> PlanContent {
        match *self {
            Plan::Whole(audio) => PlanContent::Whole(audio@),
            Plan::Nothing => PlanContent::Nothing,
            Plan::Chunks { format, chunks } => PlanContent::Chunks {
                format,
                chunks: chunk_views(chunks@),
            },
        }
    }
}

/// Whether a recording is divided into chunks: chunking is on, no speaker labels
/// are wanted, and it is a WAVE file with 16-bit samples.
pub open spec fn is_divided(
    audio: Seq<u8>,
    diarization: bool,
    container: AudioContainer,
    config: SmartChunkConfig,
) -> bool {
    &&& config.enabled
    &&& !diarization
    &&& container == AudioContainer::Wav
    &&& wav_content(audio) matches Ok(content) && content.bits_per_sample == 16
}

/// How a recording is transcribed.
pub open spec fn plan_of(
    audio: Seq<u8>,
    diarization: bool,
    container: AudioContainer,
    config: SmartChunkConfig,
) -> PlanContent {
    if !is_divided(audio, diarization, container, config) {
        PlanContent::Whole(audio)
    } else {
        let content = wav_content(audio)->Ok_0;
        if chunk_ranges(content, config).len() == 0 {
            PlanContent::Nothing
        } else {
            PlanContent::Chunks {
                format: AudioFormat {
                    codec: AudioCodec::WavPcm16,
                    container: AudioContainer::Wav,
                    sample_rate_hz: content.sample_rate as u32,
                    channels: (content.channels % 256) as u8,
                },
                chunks: audio_chunks(content, config),
            }
        }
    }
}

/// Whether `plan_transcription` can be asked how to transcribe the recording: it
/// is not to be divided, or the numbers that come up in dividing it fit.
pub fn plan_fits(
    audio: &[u8],
    diarization: bool,
    format: &AudioFormat,
    config: &SmartChunkConfig,
) -> (r: bool)
    ensures
        r == (is_divided(audio@, diarization, format.container, *config) ==> divisible(
            wav_content(audio@)->Ok_0,
            *config,
        )),
{
    if !config.enabled || diarization || format.container != AudioContainer::Wav {
        return true;
    }
    match parse_pcm_wav(audio) {
        Ok(wav) => wav.bits_per_sample != 16 || chunking_fits(&wav, config),
        Err(_) => true,
    }
}

/// Decides how a recording is transcribed.
pub fn plan_transcription(
    audio: Vec<u8>,
    diarization: bool,
    format: &AudioFormat,
    config: &SmartChunkConfig,
) -> (r: Result<Plan, WavError>)
    requires
        is_divided(audio@, diarization, format.container, *config) ==> divisible(
            wav_content(audio@)->Ok_0,
            *config,
        ),
    ensures
        ({
            let refused = is_divided(audio@, diarization, format.container, *config)
                && has_oversized(wav_content(audio@)->Ok_0, *config);
            match r {
                Ok(plan) => !refused && plan@ == plan_of(
                    audio@,
                    diarization,
                    format.container,
                    *config,
                ),
                Err(e) => refused && e == WavError::TooLarge,
            }
        }),
{
    if !config.enabled || diarization || format.container != AudioContainer::Wav {
        return Ok(Plan::Whole(audio));
    }
    let chunked = match parse_pcm_wav(&audio) {
        Ok(wav) => {
            if wav.bits_per_sample == 16 {
                proof {
                    lemma_content_is_playable(audio@);
                    assert(playable(wav@));
                }
                match vad_chunks(&wav, config) {
                    Ok(chunks) => Some((chunks, wav.sample_rate, wav.channels)),
                    Err(e) => {
                        return Err(e);
                    },
                }
            } else {
                None
            }
        },
        Err(_) => None,
    };
    match chunked {
        Some((chunks, sample_rate_hz, channels)) => {
            proof {
                let content = wav_content(audio@)->Ok_0;
                assert(chunk_views(chunks@).len() == chunk_ranges(content, *config).len());
            }
            if chunks.len() == 0 {
                Ok(Plan::Nothing)
            } else {
                let format = AudioFormat {
                    codec: AudioCodec::WavPcm16,
                    container: AudioContainer::Wav,
                    sample_rate_hz,
                    channels: (channels % 256) as u8,
                };
                Ok(Plan::Chunks { format, chunks })
            }
        },
        None => Ok(Plan::Whole(audio)),
    }
}

// ---------------------------------------------------------------------------
// Laws
// ---------------------------------------------------------------------------

/// A recording for which speaker labels are wanted goes out whole.
pub proof fn law_diarized_recordings_stay_whole(
    audio: Seq<u8>,
    container: AudioContainer,
    config: SmartChunkConfig,
)
    ensures
        plan_of(audio, true, container, config) == PlanContent::Whole(audio),
{
}

/// A recording goes out whole, byte for byte, whenever it is not to be divided or
/// cannot be: chunking is off, speaker labels are wanted, it is said to be no WAVE
/// file, it cannot be read as one, or its samples are not of 16 bits.
pub proof fn law_other_recordings_stay_whole(
    audio: Seq<u8>,
    diarization: bool,
    container: AudioContainer,
    config: SmartChunkConfig,
)
    requires
        !config.enabled || diarization || container != AudioContainer::Wav || (match wav_content(
            audio,
        ) {
            Ok(content) => content.bits_per_sample != 16,
            Err(_) => true,
        }),
    ensures
        plan_of(audio, diarization, container, config) == PlanContent::Whole(audio),
{
}

/// A recording that is divided is left untranscribed only where it has no chunks
/// at all; otherwise exactly its chunks are sent, in order, with its rate and its
/// channels.
pub proof fn law_every_chunk_is_sent(audio: Seq<u8>, config: SmartChunkConfig, content: WavContent)
    requires
        config.enabled,
        wav_content(audio) == Ok::<WavContent, WavError>(content),
        content.bits_per_sample == 16,
    ensures
        match plan_of(audio, false, AudioContainer::Wav, config) {
            PlanContent::Whole(_) => false,
            PlanContent::Nothing => audio_chunks(content, config).len() == 0,
            PlanContent::Chunks { format, chunks } => {
                &&& chunks.len() > 0
                &&& chunks == audio_chunks(content, config)
                &&& format.codec == AudioCodec::WavPcm16
                &&& format.container == AudioContainer::Wav
                &&& format.sample_rate_hz == content.sample_rate
                &&& content.channels < 256 ==> format.channels == content.channels
            },
        },
{
    lemma_content_is_playable(audio);
}

/// Whether a chunk is a recording from sample `start` up to sample `end`, as far
/// as the recording goes: a file with just these samples, all channels of each,
/// and with the time at which they start.
pub open spec fn is_part(
    chunk: ChunkContent,
    content: WavContent,
    start: int,
    end: int,
) -> bool {
    &&& chunk.start_ms == start * 1000 / content.sample_rate
    &&& wav_content(chunk.wav) matches Ok(part)
    &&& part.sample_rate == content.sample_rate
    &&& part.channels == content.channels
    &&& part.data == content.data.subrange(
        start * (2 * content.channels),
        if end * (2 * content.channels) <= content.data.len() {
            end * (2 * content.channels)
        } else {
            content.data.len() as int
        },
    )
}

/// Speech is transcribed: where ten frames of a fiftieth of a second or more on
/// end have at least the level 120 and half of the level that nine tenths of the
/// frames stay below, each of their samples is in a chunk that is sent.
pub proof fn law_speech_is_transcribed(
    audio: Seq<u8>,
    config: SmartChunkConfig,
    content: WavContent,
    levels: Seq<u32>,
    loud: u32,
    a: int,
    b: int,
    x: int,
)
    requires
        config.enabled,
        wav_content(audio) == Ok::<WavContent, WavError>(content),
        content.bits_per_sample == 16,
        divisible(content, config),
        !has_oversized(content, config),
        content.data.len() + 44 <= usize::MAX,
        levels == frame_levels(
            content.data,
            (fiftieth(content.sample_rate) * (2 * content.channels)) as nat,
        ),
        has_rank(levels, loud, levels.len() as int * 9 / 10),
        0 <= a < b <= levels.len(),
        b - a >= 10,
        forall|i: int|
            a <= i < b ==> (#[trigger] levels[i]) >= 120 && 2 * levels[i] + 1 >= loud,
        a * fiftieth(content.sample_rate) <= x < b * fiftieth(content.sample_rate),
        content.data.len() >= 2 * content.channels,
    ensures
        plan_of(audio, false, AudioContainer::Wav, config) matches PlanContent::Chunks {
            chunks,
            ..
        } && exists|k: int, start: int, end: int|
            0 <= k < chunks.len() && start <= x < end && #[trigger] is_part(
                chunks[k],
                content,
                start,
                end,
            ),
{
    lemma_content_is_playable(audio);
    let k = lemma_speech_in_part(content, config, levels, loud, a, b, x);
    law_every_chunk_is_sent(audio, config, content);
    let (start, end, _) = chunk_ranges(content, config)[k];
    assert(is_part(audio_chunks(content, config)[k], content, start, end));
}

#[verifier::spinoff_prover]
proof fn lemma_speech_in_part(
    content: WavContent,
    config: SmartChunkConfig,
    levels: Seq<u32>,
    loud: u32,
    a: int,
    b: int,
    x: int,
) -> (k: int)
    requires
        playable(content),
        divisible(content, config),
        !has_oversized(content, config),
        content.data.len() + 44 <= usize::MAX,
        content.data.len() >= 2 * content.channels,
        levels == frame_levels(
            content.data,
            (fiftieth(content.sample_rate) * (2 * content.channels)) as nat,
        ),
        has_rank(levels, loud, levels.len() as int * 9 / 10),
        0 <= a < b <= levels.len(),
        b - a >= 10,
        forall|i: int|
            a <= i < b ==> (#[trigger] levels[i]) >= 120 && 2 * levels[i] + 1 >= loud,
        a * fiftieth(content.sample_rate) <= x < b * fiftieth(content.sample_rate),
    ensures
        0 <= k < chunk_ranges(content, config).len(),
        audio_chunks(content, config).len() == chunk_ranges(content, config).len(),
        chunk_ranges(content, config)[k].0 <= x < chunk_ranges(content, config)[k].1,
        is_part(
            audio_chunks(content, config)[k],
            content,
            chunk_ranges(content, config)[k].0,
            chunk_ranges(content, config)[k].1,
        ),
{
    lemma_loud_is_speech(levels, loud, a, b);
    lemma_speech_of(content);
    let ranges = chunk_ranges(content, config);
    assert(covers(ranges, x)) by {
        law_speech_is_submitted(content, config, a, b, x);
    }
    let k = choose|k: int| 0 <= k < ranges.len() && (#[trigger] ranges[k]).0 <= x < ranges[k].1;
    lemma_is_part(content, config, k);
    k
}

proof fn lemma_is_part(content: WavContent, config: SmartChunkConfig, k: int)
    requires
        playable(content),
        divisible(content, config),
        !has_oversized(content, config),
        content.data.len() + 44 <= usize::MAX,
        0 <= k < chunk_ranges(content, config).len(),
    ensures
        audio_chunks(content, config).len() == chunk_ranges(content, config).len(),
        is_part(
            audio_chunks(content, config)[k],
            content,
            chunk_ranges(content, config)[k].0,
            chunk_ranges(content, config)[k].1,
        ),
{
    law_chunk_is_its_range(content, config, k);
}

proof fn lemma_loud_is_speech(levels: Seq<u32>, loud: u32, a: int, b: int)
    requires
        0 <= a < b <= levels.len(),
        has_rank(levels, loud, levels.len() as int * 9 / 10),
        forall|i: int|
            a <= i < b ==> (#[trigger] levels[i]) >= 120 && 2 * levels[i] + 1 >= loud,
    ensures
        speech_frames(levels).len() == levels.len(),
        forall|i: int| a <= i < b ==> #[trigger] speech_frames(levels)[i],
{
    let noise = law_ranks_exist(levels, levels.len() as int / 5);
    assert forall|i: int| a <= i < b implies #[trigger] speech_frames(levels)[i] by {
        assert(levels[i] >= 120);
        law_speech_stands_out(levels, noise, loud, i);
    }
}

/// A recording without ten frames of speech on end is not transcribed.
pub proof fn law_silence_is_not_transcribed(
    audio: Seq<u8>,
    config: SmartChunkConfig,
    content: WavContent,
)
    requires
        config.enabled,
        wav_content(audio) == Ok::<WavContent, WavError>(content),
        content.bits_per_sample == 16,
        divisible(content, config),
        forall|run: (int, int)| !#[trigger] is_run(speech_of(content), run, 10),
    ensures
        plan_of(audio, false, AudioContainer::Wav, config) == PlanContent::Nothing,
{
    lemma_content_is_playable(audio);
    if chunk_ranges(content, config).len() > 0 {
        law_chunks_hold_nothing_else(content, config, 0);
    }
}

/// A request says what is asked for and nothing else: the language of the session
/// or else that of the server, the prompt where there is one, and the kind of
/// answer, which is plain unless speaker labels are wanted; an answer in the form
/// `diarized_json` is made in parts.
pub proof fn law_request_says_what_is_asked(
    client: TranscriptionClient,
    diarization: bool,
    language: Option<Seq<char>>,
    name: Seq<char>,
    value: Seq<char>,
)
    ensures
        client.options(diarization, language).contains((name, value)) <==> {
            let labelled = match client.diarization_response_format {
                Some(format) => format@,
                None => "verbose_json"@,
            };
            ||| name == "language"@ && match language {
                Some(session) => value == session,
                None => opt_view(client.language) == Some(value),
            }
            ||| name == "prompt"@ && opt_view(client.prompt) == Some(value)
            ||| name == "response_format"@ && value == (if diarization {
                labelled
            } else {
                "json"@
            })
            ||| name == "chunking_strategy"@ && value == "auto"@ && diarization && labelled
                == "diarized_json"@
        },
{
    let first = language_options(language, opt_view(client.language));
    let second = prompt_options(opt_view(client.prompt));
    let third = answer_options(diarization, opt_view(client.diarization_response_format));
    let options = client.options(diarization, language);
    let wanted = (name, value);
    assert(options == first + second + third);
    if options.contains(wanted) {
        let i = options.index_of(wanted);
        if i < first.len() {
            assert(first[i] == wanted);
        } else if i < first.len() + second.len() {
            assert(second[i - first.len()] == wanted);
        } else {
            assert(third[i - first.len() - second.len()] == wanted);
        }
    }
    if first.len() > 0 {
        assert(options[0] == first[0]);
    }
    if second.len() > 0 {
        assert(options[first.len() as int] == second[0]);
    }
    let at = first.len() as int + second.len();
    assert(options[at] == third[0]);
    if third.len() > 1 {
        assert(options[at + 1] == third[1]);
    }
}

/// The language of the session overrides that of the server, and is the only one
/// that is sent.
pub proof fn law_session_language_wins(
    client: TranscriptionClient,
    diarization: bool,
    language: Seq<char>,
    i: int,
)
    requires
        0 <= i < client.options(diarization, Some(language)).len(),
        client.options(diarization, Some(language))[i].0 == "language"@,
    ensures
        i == 0,
        client.options(diarization, Some(language))[0].1 == language,
{
    reveal_strlit("language");
    reveal_strlit("prompt");
    reveal_strlit("response_format");
    reveal_strlit("chunking_strategy");
    assert("language"@.len() == 8 && "prompt"@.len() == 6);
    assert("response_format"@.len() == 15 && "chunking_strategy"@.len() == 17);
    let prompts = prompt_options(opt_view(client.prompt));
    let answers = answer_options(diarization, opt_view(client.diarization_response_format));
    let options = client.options(diarization, Some(language));
    if i > 0 {
        if i - 1 < prompts.len() {
            assert(options[i] == prompts[i - 1]);
        } else {
            assert(options[i] == answers[i - 1 - prompts.len()]);
        }
    }
}

/// What is said of a plan is what it is: the recording as a whole, nothing, or the
/// chunks in order with their format.
pub proof fn law_content_of_a_plan(plan: Plan, i: int)
    ensures
        match plan {
            Plan::Whole(audio) => plan@ == PlanContent::Whole(audio@),
            Plan::Nothing => plan@ is Nothing,
            Plan::Chunks { format, chunks } => plan@ matches PlanContent::Chunks {
                format: f,
                chunks: list,
            } && f == format && list.len() == chunks@.len() && (0 <= i < list.len() ==> list[i]
                == chunks@[i]@),
        },
{
}

/// Audio goes under a name and a type that fit it where codec and container belong
/// together, and otherwise as bytes of no special kind.
pub proof fn law_names_of_audio(format: AudioFormat)
    ensures
        ({
            let (name, kind) = part_metadata(format);
            &&& format.codec is WavPcm16 && format.container is Wav ==> name == "chunk.wav"@ && kind
                == "audio/wav"@
            &&& format.codec is Opus && format.container is Ogg ==> name == "chunk.ogg"@ && kind
                == "audio/ogg"@
            &&& format.codec is WavPcm16 != format.container is Wav ==> name == "chunk.audio"@
                && kind == "application/octet-stream"@
        }),
{
}

/// Nothing is asked for twice: a request has as many options as there are things
/// to say.
pub proof fn law_nothing_is_asked_twice(
    client: TranscriptionClient,
    diarization: bool,
    language: Option<Seq<char>>,
)
    ensures
        client.options(diarization, language).len() == (if language is Some
            || client.language is Some {
            1int
        } else {
            0int
        }) + (if client.prompt is Some {
            1int
        } else {
            0int
        }) + (if diarization && client.diarization_response_format is Some
            && client.diarization_response_format->0@ == "diarized_json"@ {
            2int
        } else {
            1int
        }),
{
    reveal_strlit("verbose_json");
    reveal_strlit("diarized_json");
    assert("verbose_json"@[0] != "diarized_json"@[0]);
}

} // verus!
