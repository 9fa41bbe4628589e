//! A session on the client: what it sends and what it does with what it gets.
use vstd::prelude::*;
use vstd::string::*;
use vstd::slice::slice_subrange;
use crate::config::{format_of_extension, CaptureMode, ClientConfig, DiarizationArg};
use crate::log::{truncate_for_log, truncated};
use crate::paths::found_extension;
use crate::protocol::{
    format_session_id, session_id_text, ClientContent, ClientHello, ClientMessage,
    DiarizationPreference, EventContent, HelloContent, ServerContent, ServerMessage,
    TranscriptEvent, PROTOCOL_VERSION,
};
use crate::session::{
    actions_on, collecting, ends, law_upload_is_transcribed_whole, run, state_after, upload,
    ActionContent, IncomingContent, SessionState,
};
use crate::text::{decimal, opt_view, same_ignoring_case, to_decimal};
use crate::time::{clock_text, duration_text, format_clock, format_ms};
use crate::wav::{byte_views, concatenation, lemma_concatenation, push_bytes};

verus! {

// ---------------------------------------------------------------------------
// Opening the session
// ---------------------------------------------------------------------------

/// Where the audio comes from.
#[derive(Debug, Clone, Copy, PartialEq, Eq, Structural)]
pub enum InputKind {
    File,
    Meeting,
    Live,
}

/// Where the audio comes from: a file where one is given, otherwise the streams.
pub open spec fn input_of(config: ClientConfig) -> InputKind {
    if config.audio_file is Some {
        InputKind::File
    } else if config.capture_mode == CaptureMode::Meeting {
        InputKind::Meeting
    } else {
        InputKind::Live
    }
}

/// Says where the audio comes from.
pub fn input_kind(config: &ClientConfig) -> (kind: InputKind)
    ensures
        kind == input_of(*config),
{
    if config.audio_file.is_some() {
        InputKind::File
    } else {
        match config.capture_mode {
            CaptureMode::Meeting => InputKind::Meeting,
            CaptureMode::Live => InputKind::Live,
        }
    }
}

/// A file as a source of audio: all of it at once, and then nothing more.
#[derive(Debug)]
pub struct FileInput {
    audio: Option<Vec<u8>>,
}

impl View for FileInput {
    type V = Option<Seq<u8>>;

    closed spec fn view(&self) -> Option<Seq<u8>> {
        match self.audio {
            Some(audio) => Some(audio@),
            None => None,
        }
    }
}

impl FileInput {
    /// Makes the content of a file a source of audio.
    pub fn new(audio: Vec<u8>) -> (input: FileInput)
        ensures
            input@ == Some(audio@),
    {
        FileInput { audio: Some(audio) }
    }

    /// Gives the audio the first time, and nothing afterwards.
    pub fn next_chunk(&mut self) -> (chunk: Option<Vec<u8>>)
        ensures
            final(self)@ is None,
            match (old(self)@, chunk) {
                (Some(audio), Some(chunk)) => chunk@ == audio,
                (None, None) => true,
                _ => false,
            },
    {
        self.audio.take()
    }
}

/// The seconds between two looks at the streams, at least one.
pub fn rescan_seconds(config: &ClientConfig) -> (seconds: u64)
    ensures
        seconds == if config.audio_rescan_seconds >= 1 {
            config.audio_rescan_seconds
        } else {
            1
        },
{
    if config.audio_rescan_seconds >= 1 {
        config.audio_rescan_seconds
    } else {
        1
    }
}

/// The name of the client: that of the machine where it is known.
pub fn client_name(hostname: Option<String>) -> (name: String)
    ensures
        name@ == match hostname {
            Some(name) => name@,
            None => "whisper-relay-client"@,
        },
{
    match hostname {
        Some(name) => name,
        None => "whisper-relay-client".to_owned(),
    }
}

/// What the client wants of speaker labels.
pub open spec fn preference_of(config: ClientConfig) -> DiarizationPreference {
    match config.diarization {
        DiarizationArg::Prefer => DiarizationPreference::Prefer,
        DiarizationArg::Require => DiarizationPreference::Require,
        DiarizationArg::Disable => DiarizationPreference::Disable,
    }
}

/// The hello of a client: everything but live audio is uploaded as a whole.
pub open spec fn hello_of(config: ClientConfig, name: Seq<char>) -> HelloContent {
    HelloContent {
        protocol_version: PROTOCOL_VERSION,
        client_name: name,
        diarization: preference_of(config),
        audio: format_of_extension(
            match config.audio_file {
                Some(path) => found_extension(path@),
                None => None,
            },
        ),
        language: opt_view(config.language),
        buffer_audio_until_end: input_of(config) != InputKind::Live,
    }
}

/// Makes the hello of the client.
pub fn client_hello(config: &ClientConfig, name: String) -> (message: ClientMessage)
    ensures
        message@ == ClientContent::Hello(hello_of(*config, name@)),
{
    ClientMessage::Hello(
        ClientHello {
            protocol_version: PROTOCOL_VERSION,
            client_name: name,
            diarization: DiarizationPreference::from(config.diarization),
            audio: config.audio_format(),
            language: config.language.clone(),
            buffer_audio_until_end: match input_kind(config) {
                InputKind::Live => false,
                _ => true,
            },
        },
    )
}

/// The header that carries the token.
pub fn authorization_header(token: &str) -> (value: String)
    ensures
        value@ == "Bearer "@ + token@,
{
    let mut value = "Bearer ".to_owned();
    value.append(token);
    value
}

/// The decimal notation of a number that may be negative.
pub open spec fn signed_decimal(n: int) -> Seq<char> {
    if n < 0 {
        seq!['-'] + decimal((-n) as nat)
    } else {
        decimal(n as nat)
    }
}

/// Makes the message that keeps the session alive; `now` is in milliseconds
/// since 1970.
pub fn heartbeat(now: i64) -> (message: ClientMessage)
    ensures
        message@ == (ClientContent::Ping { nonce: signed_decimal(now as int) }),
{
    let nonce = if now < 0 {
        let size = (-(now as i128)) as u64;
        let mut text = String::new();
        text.push('-');
        text.append(to_decimal(size).as_str());
        proof {
            assert(text@ =~= signed_decimal(now as int));
        }
        text
    } else {
        to_decimal(now as u64)
    };
    ClientMessage::Ping { nonce }
}

// ---------------------------------------------------------------------------
// Uploading
// ---------------------------------------------------------------------------

/// The most that is sent in one frame.
pub const FRAME_BYTES: usize = 65536;

/// How much is sent between two words of progress.
pub const PROGRESS_BYTES: usize = 8388608;

/// A mebibyte.
pub const MEBIBYTE: usize = 1048576;

/// A recording in frames: full ones, and the rest.
pub open spec fn frames_of(audio: Seq<u8>) -> Seq<Seq<u8>>
    decreases audio.len(),
{
    if audio.len() == 0 {
        Seq::empty()
    } else if audio.len() <= FRAME_BYTES {
        seq![audio]
    } else {
        seq![audio.take(FRAME_BYTES as int)] + frames_of(audio.skip(FRAME_BYTES as int))
    }
}

/// Divides a recording into frames.
pub fn split_frames(audio: &[u8]) -> (frames: Vec<Vec<u8>>)
    ensures
        byte_views(frames@) == frames_of(audio@),
{
    let mut frames: Vec<Vec<u8>> = Vec::new();
    let mut at: usize = 0;
    let ghost all = frames_of(audio@);
    proof {
        assert(audio@.skip(0) =~= audio@);
        assert(byte_views(frames@) + all =~= all);
    }
    while at < audio.len()
        invariant
            at <= audio.len(),
            byte_views(frames@) + frames_of(audio@.skip(at as int)) == all,
        decreases audio.len() - at,
    {
        let ghost rest = audio@.skip(at as int);
        let ghost earlier = frames@;
        let end = if audio.len() - at <= FRAME_BYTES {
            audio.len()
        } else {
            at + FRAME_BYTES
        };
        let mut frame: Vec<u8> = Vec::new();
        push_bytes(&mut frame, slice_subrange(audio, at, end));
        proof {
            assert(frame@ =~= rest.take(end - at));
            if rest.len() <= FRAME_BYTES {
                assert(rest.take(end - at) =~= rest);
                assert(frames_of(audio@.skip(end as int)) =~= Seq::<Seq<u8>>::empty());
                assert(frames_of(rest) =~= seq![frame@] + frames_of(audio@.skip(end as int)));
            } else {
                assert(rest.skip(end - at) =~= audio@.skip(end as int));
            }
        }
        frames.push(frame);
        proof {
            assert(byte_views(frames@) =~= byte_views(earlier).push(frame@));
            assert(byte_views(earlier) + (seq![frame@] + frames_of(audio@.skip(end as int)))
                =~= byte_views(frames@) + frames_of(audio@.skip(end as int)));
        }
        at = end;
    }
    proof {
        assert(byte_views(frames@) + Seq::<Seq<u8>>::empty() =~= byte_views(frames@));
    }
    frames
}

/// What is said of the progress of an upload when a frame of `size` bytes has
/// been sent at `offset`: something each time that another eight mebibytes are
/// full.
pub open spec fn progress_text(offset: nat, size: nat, total: nat) -> Option<Seq<char>> {
    if (offset + size) / PROGRESS_BYTES as nat > offset / PROGRESS_BYTES as nat {
        Some(
            "uploaded "@ + decimal((offset + size) / MEBIBYTE as nat) + " of "@ + decimal(
                total / MEBIBYTE as nat,
            ) + " MiB"@,
        )
    } else {
        None
    }
}

/// Says how far an upload is.
pub fn upload_progress(offset: usize, size: usize, total: usize) -> (text: Option<String>)
    requires
        offset + size <= usize::MAX,
    ensures
        opt_view(text) == progress_text(offset as nat, size as nat, total as nat),
{
    let sent = offset + size;
    if sent / PROGRESS_BYTES > offset / PROGRESS_BYTES {
        let mut text = "uploaded ".to_owned();
        text.append(to_decimal((sent / MEBIBYTE) as u64).as_str());
        text.append(" of ");
        text.append(to_decimal((total / MEBIBYTE) as u64).as_str());
        text.append(" MiB");
        Some(text)
    } else {
        None
    }
}

/// Says where an upload failed.
pub fn upload_failure(offset: usize) -> (text: String)
    ensures
        text@ == "uploading meeting audio at byte offset "@ + decimal(offset as nat),
{
    let mut text = "uploading meeting audio at byte offset ".to_owned();
    text.append(to_decimal(offset as u64).as_str());
    text
}

// ---------------------------------------------------------------------------
// What the server says
// ---------------------------------------------------------------------------

/// A piece of the transcript as it is written down.
pub open spec fn transcript_line(event: EventContent) -> Seq<char> {
    let time = match (event.start_ms, event.end_ms) {
        (Some(start), Some(end)) => "["@ + duration_text(start as nat / 1000) + "-"@
            + duration_text(end as nat / 1000) + "]"@,
        _ => "["@ + clock_text(event.received_at) + "]"@,
    };
    let speaker = match event.speaker {
        Some(speaker) => speaker,
        None => "Unknown"@,
    };
    time + " **"@ + speaker + ":** "@ + event.text + "\n\n"@
}

/// Writes down a piece of the transcript: where it is in the recording, or else
/// when it came, who speaks, and what they say.
pub fn format_transcript(event: &TranscriptEvent) -> (line: String)
    requires
        event.received_at.valid(),
    ensures
        line@ == transcript_line(event@),
{
    let mut line = "[".to_owned();
    match (event.start_ms, event.end_ms) {
        (Some(start), Some(end)) => {
            line.append(format_ms(start).as_str());
            line.append("-");
            line.append(format_ms(end).as_str());
        },
        _ => {
            line.append(format_clock(event.received_at).as_str());
        },
    }
    line.append("]");
    line.append(" **");
    match &event.speaker {
        Some(speaker) => {
            line.append(speaker.as_str());
        },
        None => {
            line.append("Unknown");
        },
    }
    line.append(":** ");
    line.append(event.text.as_str());
    line.append("\n\n");
    line
}

/// What the client does with a message: a line for its log, the same or another
/// for a user without a terminal, and a piece of the transcript to write down
/// and to keep.
#[derive(Debug)]
pub struct Reaction {
    pub log: Option<String>,
    pub echo: Option<String>,
    pub transcript: Option<String>,
    pub event: Option<TranscriptEvent>,
}

/// What the client does with a message, with texts as sequences.
#[verifier::ext_equal]
pub struct ReactionContent {
    pub log: Option<Seq<char>>,
    pub echo: Option<Seq<char>>,
    pub transcript: Option<Seq<char>>,
    pub event: Option<EventContent>,
}

impl View for Reaction {
    type V = ReactionContent;

    open spec fn view(&self) -> ReactionContent {
        ReactionContent {
            log: opt_view(self.log),
            echo: opt_view(self.echo),
            transcript: opt_view(self.transcript),
            event: match self.event {
                Some(event) => Some(event@),
                None => None,
            },
        }
    }
}

/// Nothing at all.
pub open spec fn no_reaction() -> ReactionContent {
    ReactionContent { log: None, echo: None, transcript: None, event: None }
}

/// A line for the log and, without a terminal, for the user.
pub open spec fn spoken_reaction(text: Seq<char>, headless: bool) -> ReactionContent {
    ReactionContent {
        log: Some(text),
        echo: if headless {
            Some(text)
        } else {
            None
        },
        ..no_reaction()
    }
}

/// What the client does with a message from the server; an error of the server
/// ends the session.
pub open spec fn reaction_to(message: ServerContent, headless: bool) -> Result<
    ReactionContent,
    Seq<char>,
> {
    match message {
        ServerContent::SessionReady(ready) => Ok(
            spoken_reaction("session ready "@ + session_id_text(ready.session_id), headless),
        ),
        ServerContent::TranscriptFinal(event) => Ok(
            ReactionContent {
                log: Some("transcript "@ + truncated(event.text)),
                echo: if headless {
                    Some("received transcript segment "@ + decimal(event.sequence as nat))
                } else {
                    None
                },
                transcript: Some(transcript_line(event)),
                event: Some(event),
            },
        ),
        ServerContent::TranscriptPartial(_) => Ok(no_reaction()),
        ServerContent::Warning { code, message } => Ok(
            spoken_reaction("warning "@ + code + ": "@ + message, headless),
        ),
        ServerContent::Error { code, message } => Err(
            "server error "@ + code + ": "@ + message,
        ),
        ServerContent::Pong { .. } => Ok(no_reaction()),
    }
}

fn speak(text: String, headless: bool) -> (reaction: Reaction)
    ensures
        reaction@ == spoken_reaction(text@, headless),
{
    let echo = if headless {
        Some(text.clone())
    } else {
        None
    };
    Reaction { log: Some(text), echo, transcript: None, event: None }
}

/// Says what the client does with a message from the server; `headless` is
/// without a terminal.
pub fn handle_server_message(message: ServerMessage, headless: bool) -> (r: Result<
    Reaction,
    String,
>)
    requires
        message matches ServerMessage::TranscriptFinal(event) ==> event.received_at.valid(),
    ensures
        match r {
            Ok(reaction) => reaction_to(message@, headless) == Ok::<ReactionContent, Seq<char>>(
                reaction@,
            ),
            Err(text) => reaction_to(message@, headless) == Err::<ReactionContent, Seq<char>>(text@),
        },
{
    match message {
        ServerMessage::SessionReady(ready) => {
            let mut text = "session ready ".to_owned();
            text.append(format_session_id(ready.session_id).as_str());
            Ok(speak(text, headless))
        },
        ServerMessage::TranscriptFinal(event) => {
            let mut text = "transcript ".to_owned();
            text.append(truncate_for_log(event.text.as_str()).as_str());
            let line = format_transcript(&event);
            let echo = if headless {
                let mut echo = "received transcript segment ".to_owned();
                echo.append(to_decimal(event.sequence).as_str());
                Some(echo)
            } else {
                None
            };
            Ok(Reaction { log: Some(text), echo, transcript: Some(line), event: Some(event) })
        },
        ServerMessage::TranscriptPartial(_) => Ok(
            Reaction { log: None, echo: None, transcript: None, event: None },
        ),
        ServerMessage::Warning(warning) => {
            let mut text = "warning ".to_owned();
            text.append(warning.code.as_str());
            text.append(": ");
            text.append(warning.message.as_str());
            Ok(speak(text, headless))
        },
        ServerMessage::Error(error) => {
            let mut text = "server error ".to_owned();
            text.append(error.code.as_str());
            text.append(": ");
            text.append(error.message.as_str());
            Err(text)
        },
        ServerMessage::Pong { .. } => Ok(
            Reaction { log: None, echo: None, transcript: None, event: None },
        ),
    }
}

// ---------------------------------------------------------------------------
// Closing the session
// ---------------------------------------------------------------------------

/// How a connection can fail.
#[derive(Debug, Clone, Copy, PartialEq, Eq, Structural)]
pub enum ConnectionFailure {
    /// It was closed in an orderly way.
    ConnectionClosed,
    /// It had been closed before.
    AlreadyClosed,
    /// The other side went away without closing it.
    ResetWithoutClosingHandshake,
    /// In another way.
    Other,
}

/// Whether a failure is what is to be expected when the session comes to its
/// end.
pub fn is_expected_shutdown_ws_error(failure: &ConnectionFailure) -> (r: bool)
    ensures
        r == (*failure != ConnectionFailure::Other),
{
    match failure {
        ConnectionFailure::ConnectionClosed => true,
        ConnectionFailure::AlreadyClosed => true,
        ConnectionFailure::ResetWithoutClosingHandshake => true,
        ConnectionFailure::Other => false,
    }
}

/// Whether a failure that comes while the last transcripts are awaited is taken
/// as the end of the session; without a terminal it never is.
pub fn ends_session(failure: &ConnectionFailure, headless: bool) -> (r: bool)
    ensures
        r == (!headless && *failure != ConnectionFailure::Other),
{
    !headless && is_expected_shutdown_ws_error(failure)
}

/// What becomes of a session with `transcripts` pieces of transcript: without a
/// terminal it has failed where there are none.
pub fn session_result(headless: bool, transcripts: u64) -> (r: Result<(), &'static str>)
    ensures
        match r {
            Ok(_) => !headless || transcripts > 0,
            Err(text) => headless && transcripts == 0 && text@
                == "server returned no transcript events; see the server messages above"@,
        },
{
    if headless && transcripts == 0 {
        Err("server returned no transcript events; see the server messages above")
    } else {
        Ok(())
    }
}

// ---------------------------------------------------------------------------
// Laws
// ---------------------------------------------------------------------------

/// The frames of a recording make it up again, and none is empty or too large.
pub proof fn law_frames_make_up_the_recording(audio: Seq<u8>)
    ensures
        concatenation(frames_of(audio)) == audio,
        forall|i: int|
            0 <= i < frames_of(audio).len() ==> 0 < (#[trigger] frames_of(audio)[i]).len()
                <= FRAME_BYTES,
    decreases audio.len(),
{
    let frames = frames_of(audio);
    if audio.len() == 0 {
        assert(concatenation(frames) =~= audio);
    } else if audio.len() <= FRAME_BYTES {
        lemma_concatenation(frames);
        assert(frames.skip(1) =~= Seq::<Seq<u8>>::empty());
        assert(concatenation(frames) =~= audio);
    } else {
        let first = audio.take(FRAME_BYTES as int);
        let rest = frames_of(audio.skip(FRAME_BYTES as int));
        law_frames_make_up_the_recording(audio.skip(FRAME_BYTES as int));
        lemma_concatenation(frames);
        assert(frames.skip(1) =~= rest);
        assert(concatenation(frames) =~= audio);
        assert forall|i: int| 0 <= i < frames.len() implies 0 < (#[trigger] frames[i]).len()
            <= FRAME_BYTES by {
            if i > 0 {
                assert(frames[i] == rest[i - 1]);
            }
        }
    }
}

/// A recording that the client uploads in frames is transcribed by the server as
/// it was, in one piece.
pub proof fn law_recording_arrives_whole(state: SessionState, audio: Seq<u8>)
    requires
        collecting(state),
        state.buffered.len() == 0,
        0 < audio.len() <= state.policy.max_audio_bytes,
    ensures
        run(state, upload(frames_of(audio))) == seq![
            ActionContent::Transcribe { sequence: (state.sequence + 1) as u64, audio },
            ActionContent::Finish,
        ],
{
    law_frames_make_up_the_recording(audio);
    law_upload_is_transcribed_whole(state, frames_of(audio));
    assert(state.buffered + audio =~= audio);
}

/// A server of the same version accepts every client, unless the client requires
/// speaker labels that the server does not offer.
pub proof fn law_hello_is_accepted(state: SessionState, config: ClientConfig, name: Seq<char>)
    requires
        state.hello is None,
        preference_of(config) == DiarizationPreference::Require
            ==> state.policy.backend_diarization,
    ensures
        ({
            let hello = hello_of(config, name);
            let event = IncomingContent::Message(ClientContent::Hello(hello));
            &&& actions_on(state, event).len() > 0
            &&& actions_on(state, event)[0] matches ActionContent::Send(
                ServerContent::SessionReady(_),
            )
            &&& !ends(actions_on(state, event))
            &&& state_after(state, event) == (SessionState { hello: Some(hello), ..state })
        }),
{
}

/// The frames of a recording are 65536 bytes of it each, one after the other, and
/// the last is what is left.
pub proof fn law_each_frame_is_its_part(audio: Seq<u8>, i: int)
    ensures
        0 <= i < frames_of(audio).len() <==> 0 <= 65536 * i < audio.len(),
        0 <= i < frames_of(audio).len() ==> frames_of(audio)[i] == audio.subrange(
            65536 * i,
            if 65536 * (i + 1) <= audio.len() {
                65536 * (i + 1)
            } else {
                audio.len() as int
            },
        ),
    decreases audio.len(),
{
    if audio.len() == 0 {
    } else if audio.len() <= FRAME_BYTES {
        assert(audio.subrange(0, audio.len() as int) =~= audio);
    } else {
        let rest = audio.skip(FRAME_BYTES as int);
        let later = frames_of(rest);
        law_each_frame_is_its_part(rest, i - 1);
        assert(frames_of(audio) == seq![audio.take(FRAME_BYTES as int)] + later);
        if i == 0 {
            assert(audio.take(FRAME_BYTES as int) =~= audio.subrange(0, 65536));
        } else if 0 < i < frames_of(audio).len() {
            let end = if 65536 * (i + 1) <= audio.len() {
                65536 * (i + 1)
            } else {
                audio.len() as int
            };
            assert(frames_of(audio)[i] == later[i - 1]);
            assert(rest.subrange(65536 * (i - 1), end - 65536) =~= audio.subrange(65536 * i, end));
        }
    }
}

/// Something is said of an upload exactly when it passes a multiple of eight
/// mebibytes, and then how many mebibytes are sent and how many there are.
pub proof fn law_progress(offset: nat, size: nat, total: nat)
    ensures
        progress_text(offset, size, total) is Some <==> exists|k: int|
            offset < #[trigger] (k * 8388608) <= offset + size,
        progress_text(offset, size, total) is Some ==> progress_text(offset, size, total)->0
            == "uploaded "@ + decimal((offset + size) / 1048576) + " of "@ + decimal(
            total / 1048576,
        ) + " MiB"@,
{
    let last = (offset + size) as int / 8388608;
    if last > offset as int / 8388608 {
        assert(offset < last * 8388608 <= offset + size);
    }
    if exists|k: int| offset < #[trigger] (k * 8388608) <= offset + size {
        let k = choose|k: int| offset < #[trigger] (k * 8388608) <= offset + size;
        assert(offset as int / 8388608 < k <= last);
    }
}

/// The line of a piece has its place in the recording where both ends of it are
/// known, otherwise the time of day at which it came; then who speaks, and the
/// whole text.
pub proof fn law_lines_of_the_transcript(event: EventContent)
    ensures
        ({
            let place = if event.start_ms is Some && event.end_ms is Some {
                duration_text(event.start_ms->0 as nat / 1000) + seq!['-'] + duration_text(
                    event.end_ms->0 as nat / 1000,
                )
            } else {
                clock_text(event.received_at)
            };
            let speaker = match event.speaker {
                Some(speaker) => speaker,
                None => "Unknown"@,
            };
            transcript_line(event) == seq!['['] + place + "] **"@ + speaker + ":** "@ + event.text
                + seq!['\n', '\n']
        }),
{
    reveal_strlit("[");
    reveal_strlit("-");
    reveal_strlit("]");
    reveal_strlit(" **");
    reveal_strlit("] **");
    reveal_strlit("\n\n");
    let speaker = match event.speaker {
        Some(speaker) => speaker,
        None => "Unknown"@,
    };
    if event.start_ms is Some && event.end_ms is Some {
        let a = duration_text(event.start_ms->0 as nat / 1000);
        let b = duration_text(event.end_ms->0 as nat / 1000);
        assert(transcript_line(event) =~= seq!['['] + (a + seq!['-'] + b) + "] **"@ + speaker
            + ":** "@ + event.text + seq!['\n', '\n']);
    } else {
        let place = clock_text(event.received_at);
        assert(transcript_line(event) =~= seq!['['] + place + "] **"@ + speaker + ":** "@
            + event.text + seq!['\n', '\n']);
    }
}

/// Only a final piece of the transcript is written down and kept, as it is; every
/// other message is at most told, to a user without a terminal as well. An error
/// of the server is a failure.
pub proof fn law_reactions(message: ServerContent, headless: bool)
    ensures
        match reaction_to(message, headless) {
            Err(text) => message matches ServerContent::Error { code, message } && text
                == "server error "@ + code + ": "@ + message,
            Ok(reaction) => {
                &&& !(message is Error)
                &&& reaction.event is Some <==> message is TranscriptFinal
                &&& reaction.transcript is Some <==> message is TranscriptFinal
                &&& message matches ServerContent::TranscriptFinal(event) ==> reaction.event
                    == Some(event) && reaction.transcript == Some(transcript_line(event))
                &&& reaction.log is Some <==> !(message is Pong || message is TranscriptPartial)
                &&& reaction.echo is Some <==> headless && reaction.log is Some
                &&& message matches ServerContent::Warning { code, message } ==> reaction.log
                    == Some("warning "@ + code + ": "@ + message) && (headless ==> reaction.echo
                    == reaction.log)
                &&& message matches ServerContent::SessionReady(ready) ==> reaction.log == Some(
                    "session ready "@ + session_id_text(ready.session_id),
                ) && (headless ==> reaction.echo == reaction.log)
                &&& message matches ServerContent::TranscriptFinal(event) ==> reaction.log == Some(
                    "transcript "@ + truncated(event.text),
                ) && (headless ==> reaction.echo == Some(
                    "received transcript segment "@ + decimal(event.sequence as nat),
                ))
            },
        },
{
}

/// The hello says what the user has chosen: version 2, the name of the client, the
/// language, whether speaker labels are wanted, and that the audio is to be
/// collected unless it is captured live. A file with the extension `ogg` is Opus,
/// and all other audio is PCM at 16 kHz.
pub proof fn law_hello_says_what_is_chosen(config: ClientConfig, name: Seq<char>)
    ensures
        ({
            let hello = hello_of(config, name);
            let extension = match config.audio_file {
                Some(path) => found_extension(path@),
                None => None,
            };
            let opus = extension is Some && same_ignoring_case(extension->0, seq!['o', 'g', 'g']);
            &&& hello.protocol_version == 2
            &&& hello.client_name == name
            &&& hello.language == opt_view(config.language)
            &&& hello.buffer_audio_until_end <==> config.audio_file is Some || config.capture_mode
                == CaptureMode::Meeting
            &&& hello.diarization is Require <==> config.diarization is Require
            &&& hello.diarization is Disable <==> config.diarization is Disable
            &&& hello.audio.codec is Opus <==> opus
            &&& hello.audio.container is Ogg <==> opus
            &&& hello.audio.codec is WavPcm16 <==> !opus
            &&& hello.audio.container is Wav <==> !opus
            &&& hello.audio.sample_rate_hz == if opus {
                48000u32
            } else {
                16000u32
            }
            &&& hello.audio.channels == 1
        }),
{
    reveal_strlit("ogg");
    assert("ogg"@ =~= seq!['o', 'g', 'g']);
}

/// A number that may be negative is written as its size with a sign before it.
pub proof fn law_signed_notation(n: nat)
    ensures
        signed_decimal(n as int) == decimal(n),
        n > 0 ==> signed_decimal(-(n as int)) == seq!['-'] + decimal(n),
{
}

} // verus!
