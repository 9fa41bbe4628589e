//! The messages between client and server.
use vstd::prelude::*;
use vstd::arithmetic::power::pow;
use crate::text::opt_view;
use crate::time::Timestamp;

verus! {

/// The newest version of the protocol.
pub const PROTOCOL_VERSION: u16 = 2;

/// A message from the client.
#[derive(Debug, Clone, PartialEq, Eq)]
pub enum ClientMessage {
    Hello(ClientHello),
    AudioEnd,
    Ping { nonce: String },
}

/// How the client introduces itself and its audio.
#[derive(Debug, Clone, PartialEq, Eq)]
pub struct ClientHello {
    pub protocol_version: u16,
    pub client_name: String,
    pub diarization: DiarizationPreference,
    pub audio: AudioFormat,
    pub language: Option<String>,
    pub buffer_audio_until_end: bool,
}

/// What the client wants of speaker labels.
#[derive(Debug, Clone, Copy, PartialEq, Eq, Structural)]
pub enum DiarizationPreference {
    Prefer,
    Require,
    Disable,
}

/// How the audio is encoded.
#[derive(Debug, Clone, Copy, PartialEq, Eq, Structural)]
pub struct AudioFormat {
    pub codec: AudioCodec,
    pub container: AudioContainer,
    pub sample_rate_hz: u32,
    pub channels: u8,
}

/// The encoding of the samples.
#[derive(Debug, Clone, Copy, PartialEq, Eq, Structural)]
pub enum AudioCodec {
    Opus,
    WavPcm16,
}

/// The format of the file around the samples.
#[derive(Debug, Clone, Copy, PartialEq, Eq, Structural)]
pub enum AudioContainer {
    Ogg,
    Wav,
}

/// A message from the server.
#[derive(Debug, Clone, PartialEq, Eq)]
pub enum ServerMessage {
    SessionReady(SessionReady),
    TranscriptPartial(TranscriptEvent),
    TranscriptFinal(TranscriptEvent),
    Warning(WarningMessage),
    Error(ErrorMessage),
    Pong { nonce: String },
}

/// The session has been accepted.
#[derive(Debug, Clone, Copy, PartialEq, Eq, Structural)]
pub struct SessionReady {
    pub session_id: u128,
    pub chunk_seconds: u64,
    pub diarization: DiarizationStatus,
}

/// Whether transcripts come with speaker labels.
#[derive(Debug, Clone, Copy, PartialEq, Eq, Structural)]
pub enum DiarizationStatus {
    Enabled,
    Disabled,
    Unsupported,
}

/// A piece of the transcript.
#[derive(Debug, Clone, PartialEq, Eq)]
pub struct TranscriptEvent {
    pub session_id: u128,
    pub sequence: u64,
    pub received_at: Timestamp,
    pub start_ms: Option<u64>,
    pub end_ms: Option<u64>,
    pub speaker: Option<String>,
    pub text: String,
}

/// Something the client should know.
#[derive(Debug, Clone, PartialEq, Eq)]
pub struct WarningMessage {
    pub code: String,
    pub message: String,
}

/// Something went wrong.
#[derive(Debug, Clone, PartialEq, Eq)]
pub struct ErrorMessage {
    pub code: String,
    pub message: String,
}

// ---------------------------------------------------------------------------
// What the messages say
// ---------------------------------------------------------------------------

/// What a `ClientHello` says.
#[verifier::ext_equal]
pub struct HelloContent {
    pub protocol_version: u16,
    pub client_name: Seq<char>,
    pub diarization: DiarizationPreference,
    pub audio: AudioFormat,
    pub language: Option<Seq<char>>,
    pub buffer_audio_until_end: bool,
}

impl View for ClientHello {
    type V = HelloContent;

    open spec fn view(&self) -> HelloContent {
        HelloContent {
            protocol_version: self.protocol_version,
            client_name: self.client_name@,
            diarization: self.diarization,
            audio: self.audio,
            language: opt_view(self.language),
            buffer_audio_until_end: self.buffer_audio_until_end,
        }
    }
}

/// What a message from the client says.
#[verifier::ext_equal]
pub enum ClientContent {
    Hello(HelloContent),
    AudioEnd,
    Ping { nonce: Seq<char> },
}

impl View for ClientMessage {
    type V = ClientContent;

    open spec fn view(&self) -> ClientContent {
        match *self {
            ClientMessage::Hello(hello) => ClientContent::Hello(hello@),
            ClientMessage::AudioEnd => ClientContent::AudioEnd,
            ClientMessage::Ping { nonce } => ClientContent::Ping { nonce: nonce@ },
        }
    }
}

/// What a `TranscriptEvent` says.
#[verifier::ext_equal]
pub struct EventContent {
    pub session_id: u128,
    pub sequence: u64,
    pub received_at: Timestamp,
    pub start_ms: Option<u64>,
    pub end_ms: Option<u64>,
    pub speaker: Option<Seq<char>>,
    pub text: Seq<char>,
}

impl View for TranscriptEvent {
    type V = EventContent;

    open spec fn view(&self) -> EventContent {
        EventContent {
            session_id: self.session_id,
            sequence: self.sequence,
            received_at: self.received_at,
            start_ms: self.start_ms,
            end_ms: self.end_ms,
            speaker: opt_view(self.speaker),
            text: self.text@,
        }
    }
}

/// What a message from the server says.
#[verifier::ext_equal]
pub enum ServerContent {
    SessionReady(SessionReady),
    TranscriptPartial(EventContent),
    TranscriptFinal(EventContent),
    Warning { code: Seq<char>, message: Seq<char> },
    Error { code: Seq<char>, message: Seq<char> },
    Pong { nonce: Seq<char> },
}

impl View for ServerMessage {
    type V = ServerContent;

    open spec fn view(&self) -> ServerContent {
        match *self {
            ServerMessage::SessionReady(ready) => ServerContent::SessionReady(ready),
            ServerMessage::TranscriptPartial(event) => ServerContent::TranscriptPartial(event@),
            ServerMessage::TranscriptFinal(event) => ServerContent::TranscriptFinal(event@),
            ServerMessage::Warning(warning) => ServerContent::Warning {
                code: warning.code@,
                message: warning.message@,
            },
            ServerMessage::Error(error) => ServerContent::Error {
                code: error.code@,
                message: error.message@,
            },
            ServerMessage::Pong { nonce } => ServerContent::Pong { nonce: nonce@ },
        }
    }
}

/// Makes a warning.
pub fn warning(code: &str, message: &str) -> (m: ServerMessage)
    ensures
        m@ == (ServerContent::Warning { code: code@, message: message@ }),
{
    ServerMessage::Warning(WarningMessage { code: code.to_owned(), message: message.to_owned() })
}

/// Makes an error.
pub fn error(code: &str, message: &str) -> (m: ServerMessage)
    ensures
        m@ == (ServerContent::Error { code: code@, message: message@ }),
{
    ServerMessage::Error(ErrorMessage { code: code.to_owned(), message: message.to_owned() })
}

// ---------------------------------------------------------------------------
// The identity of a session
// ---------------------------------------------------------------------------

/// The character of a hexadecimal digit.
pub open spec fn hex_char(d: int) -> char {
    if d < 10 {
        (('0' as int) + d) as char
    } else {
        (('a' as int) + d - 10) as char
    }
}

/// The hexadecimal digits `from..to` of a number of 32 digits.
pub open spec fn hex_digits(id: u128, from: int, to: int) -> Seq<char> {
    Seq::new((to - from) as nat, |i: int| hex_char(id as int / pow(16, (31 - from - i) as nat) % 16))
}

/// The identity of a session as it is shown: 32 hexadecimal digits in groups of
/// eight, four, four, four and twelve.
pub open spec fn session_id_text(id: u128) -> Seq<char> {
    hex_digits(id, 0, 8) + seq!['-'] + hex_digits(id, 8, 12) + seq!['-'] + hex_digits(id, 12, 16)
        + seq!['-'] + hex_digits(id, 16, 20) + seq!['-'] + hex_digits(id, 20, 32)
}

/// `uuid::Uuid::to_string` writes a UUID, made of a number by
/// `Uuid::from_u128`, as 32 lower-case hexadecimal digits, the most significant
/// first, with hyphens after the eighth, twelfth, sixteenth and twentieth.
#[verifier::external_body]
pub(crate) fn format_session_id(id: u128) -> (out: String)
    ensures
        out@ == session_id_text(id),
{
    uuid::Uuid::from_u128(id).to_string()
}

// ---------------------------------------------------------------------------
// Laws
// ---------------------------------------------------------------------------

/// What is said of a hello is what it holds.
pub proof fn law_content_of_a_hello(hello: ClientHello)
    ensures
        hello@.protocol_version == hello.protocol_version,
        hello@.client_name == hello.client_name@,
        hello@.diarization == hello.diarization,
        hello@.audio == hello.audio,
        hello@.language is Some <==> hello.language is Some,
        hello.language is Some ==> hello@.language->0 == hello.language->0@,
        hello@.buffer_audio_until_end == hello.buffer_audio_until_end,
{
}

/// What is said of a piece of the transcript is what it holds.
pub proof fn law_content_of_an_event(event: TranscriptEvent)
    ensures
        event@.session_id == event.session_id,
        event@.sequence == event.sequence,
        event@.received_at == event.received_at,
        event@.start_ms == event.start_ms,
        event@.end_ms == event.end_ms,
        event@.speaker is Some <==> event.speaker is Some,
        event.speaker is Some ==> event@.speaker->0 == event.speaker->0@,
        event@.text == event.text@,
{
}

/// What is said of a message is what kind it is and what it holds.
pub proof fn law_contents_of_messages(sent: ClientMessage, received: ServerMessage)
    ensures
        match sent {
            ClientMessage::Hello(hello) => sent@ == ClientContent::Hello(hello@),
            ClientMessage::AudioEnd => sent@ is AudioEnd,
            ClientMessage::Ping { nonce } => sent@ is Ping && sent@->nonce == nonce@,
        },
        match received {
            ServerMessage::SessionReady(ready) => received@ == ServerContent::SessionReady(ready),
            ServerMessage::TranscriptPartial(event) => received@
                == ServerContent::TranscriptPartial(event@),
            ServerMessage::TranscriptFinal(event) => received@ == ServerContent::TranscriptFinal(
                event@,
            ),
            ServerMessage::Warning(warning) => received@ == (ServerContent::Warning {
                code: warning.code@,
                message: warning.message@,
            }),
            ServerMessage::Error(error) => received@ == (ServerContent::Error {
                code: error.code@,
                message: error.message@,
            }),
            ServerMessage::Pong { nonce } => received@ == (ServerContent::Pong { nonce: nonce@ }),
        },
{
}

/// The identity of a session as it is shown has 36 characters, with hyphens behind
/// the first eight digits and behind three groups of four. The digits are those of
/// the number in base sixteen, the highest first.
pub proof fn law_shown_identity(id: u128, i: int)
    ensures
        session_id_text(id).len() == 36,
        0 <= i < 8 ==> session_id_text(id)[i] == hex_char(id as int / pow(16, (31 - i) as nat) % 16),
        session_id_text(id)[8] == '-',
        9 <= i < 13 ==> session_id_text(id)[i] == hex_char(
            id as int / pow(16, (32 - i) as nat) % 16,
        ),
        session_id_text(id)[13] == '-',
        14 <= i < 18 ==> session_id_text(id)[i] == hex_char(
            id as int / pow(16, (33 - i) as nat) % 16,
        ),
        session_id_text(id)[18] == '-',
        19 <= i < 23 ==> session_id_text(id)[i] == hex_char(
            id as int / pow(16, (34 - i) as nat) % 16,
        ),
        session_id_text(id)[23] == '-',
        24 <= i < 36 ==> session_id_text(id)[i] == hex_char(
            id as int / pow(16, (35 - i) as nat) % 16,
        ),
{
}

} // verus!
