//! A session on the server: what it answers to what the client sends.
use vstd::prelude::*;
use vstd::string::*;
use crate::protocol::{
    error, warning, ClientContent, ClientHello, ClientMessage, DiarizationPreference,
    DiarizationStatus, HelloContent, ServerContent, ServerMessage, SessionReady, TranscriptEvent,
    EventContent, PROTOCOL_VERSION,
};
use crate::text::{decimal, to_decimal};
use crate::time::Timestamp;
use crate::transcript::{event_views, NormalizedTranscript, TranscriptContent};
use crate::wav::{concatenation, lemma_concatenation, push_bytes};

verus! {

// ---------------------------------------------------------------------------
// Accepting a client
// ---------------------------------------------------------------------------

/// Why a hello is refused, if it is: its version is not one of those that are
/// supported, or it asks for what its version does not have.
pub open spec fn hello_refusal(hello: HelloContent) -> Option<Seq<char>> {
    if !(1 <= hello.protocol_version <= PROTOCOL_VERSION) {
        Some(
            "unsupported protocol version "@ + decimal(hello.protocol_version as nat)
                + "; server supports versions 1 through "@ + decimal(PROTOCOL_VERSION as nat),
        )
    } else if hello.buffer_audio_until_end && hello.protocol_version < 2 {
        Some("buffered meeting uploads require protocol version 2"@)
    } else {
        None
    }
}

/// Checks a hello; the error says why it is refused.
pub fn validate_hello(hello: &ClientHello) -> (r: Result<(), String>)
    ensures
        match r {
            Ok(_) => hello_refusal(hello@) is None,
            Err(message) => hello_refusal(hello@) == Some(message@),
        },
{
    if hello.protocol_version < 1 || hello.protocol_version > PROTOCOL_VERSION {
        let mut message = "unsupported protocol version ".to_owned();
        message.append(to_decimal(hello.protocol_version as u64).as_str());
        message.append("; server supports versions 1 through ");
        message.append(to_decimal(PROTOCOL_VERSION as u64).as_str());
        return Err(message);
    }
    if hello.buffer_audio_until_end && hello.protocol_version < 2 {
        return Err("buffered meeting uploads require protocol version 2".to_owned());
    }
    Ok(())
}

/// Whether transcripts come with speaker labels: both sides have to opt in. There
/// is no answer where the client requires what the backend does not offer.
pub open spec fn agreed_diarization(
    preference: DiarizationPreference,
    backend_diarization: bool,
) -> Option<DiarizationStatus> {
    if backend_diarization {
        if preference == DiarizationPreference::Disable {
            Some(DiarizationStatus::Disabled)
        } else {
            Some(DiarizationStatus::Enabled)
        }
    } else if preference == DiarizationPreference::Require {
        None
    } else {
        Some(DiarizationStatus::Unsupported)
    }
}

/// Settles whether transcripts come with speaker labels.
pub fn agree_diarization(preference: DiarizationPreference, backend_diarization: bool) -> (r:
    Option<DiarizationStatus>)
    ensures
        r == agreed_diarization(preference, backend_diarization),
{
    if backend_diarization {
        match preference {
            DiarizationPreference::Disable => Some(DiarizationStatus::Disabled),
            _ => Some(DiarizationStatus::Enabled),
        }
    } else {
        match preference {
            DiarizationPreference::Require => None,
            _ => Some(DiarizationStatus::Unsupported),
        }
    }
}

// ---------------------------------------------------------------------------
// The session
// ---------------------------------------------------------------------------

/// What the server offers to every session.
#[derive(Debug, Clone, Copy, PartialEq, Eq, Structural)]
pub struct SessionPolicy {
    pub chunk_seconds: u64,
    pub backend_diarization: bool,
    pub max_audio_bytes: usize,
}

/// What comes in from the client.
#[derive(Debug)]
pub enum Incoming {
    /// A text that is a message.
    Message(ClientMessage),
    /// A text that is no message, and why.
    Malformed(String),
    /// Audio.
    Audio(Vec<u8>),
    /// A ping of the connection, to be answered with the same payload.
    Ping(Vec<u8>),
    /// The answer to a ping of the connection.
    Pong,
    /// The client closes the connection.
    Close,
    /// Nothing more comes in.
    End,
    /// The connection failed, and why.
    Lost(String),
}

/// What comes in, with strings and audio as sequences.
#[verifier::ext_equal]
pub enum IncomingContent {
    Message(ClientContent),
    Malformed(Seq<char>),
    Audio(Seq<u8>),
    Ping(Seq<u8>),
    Pong,
    Close,
    End,
    Lost(Seq<char>),
}

impl View for Incoming {
    type V = IncomingContent;

    open spec fn view(&self) -> IncomingContent {
        match *self {
            Incoming::Message(message) => IncomingContent::Message(message@),
            Incoming::Malformed(reason) => IncomingContent::Malformed(reason@),
            Incoming::Audio(bytes) => IncomingContent::Audio(bytes@),
            Incoming::Ping(payload) => IncomingContent::Ping(payload@),
            Incoming::Pong => IncomingContent::Pong,
            Incoming::Close => IncomingContent::Close,
            Incoming::End => IncomingContent::End,
            Incoming::Lost(reason) => IncomingContent::Lost(reason@),
        }
    }
}

/// What the server is to do.
#[derive(Debug)]
pub enum Action {
    /// Send a message.
    Send(ServerMessage),
    /// Answer a ping of the connection.
    Pong(Vec<u8>),
    /// Have the audio transcribed and report the transcript under the number.
    Transcribe { sequence: u64, audio: Vec<u8> },
    /// End the session.
    Finish,
    /// End the session because of a failure.
    Fail(String),
}

/// What the server is to do, with strings and audio as sequences.
#[verifier::ext_equal]
pub enum ActionContent {
    Send(ServerContent),
    Pong(Seq<u8>),
    Transcribe { sequence: u64, audio: Seq<u8> },
    Finish,
    Fail(Seq<char>),
}

impl View for Action {
    type V = ActionContent;

    open spec fn view(&self) -> ActionContent {
        match *self {
            Action::Send(message) => ActionContent::Send(message@),
            Action::Pong(payload) => ActionContent::Pong(payload@),
            Action::Transcribe { sequence, audio } => ActionContent::Transcribe {
                sequence,
                audio: audio@,
            },
            Action::Finish => ActionContent::Finish,
            Action::Fail(reason) => ActionContent::Fail(reason@),
        }
    }
}

/// What a list of actions says.
pub open spec fn action_views(actions: Seq<Action>) -> Seq<ActionContent> {
    actions.map_values(|a: Action| a@)
}

/// A session with a client.
#[derive(Debug)]
pub struct Session {
    id: u128,
    policy: SessionPolicy,
    hello: Option<ClientHello>,
    sequence: u64,
    buffered: Vec<u8>,
}

/// The state of a session: before the hello nothing but who it is and what the
/// server offers, afterwards also what the client said, how much audio has been
/// handed on and what is still being collected.
#[verifier::ext_equal]
pub struct SessionState {
    pub id: u128,
    pub policy: SessionPolicy,
    pub hello: Option<HelloContent>,
    pub sequence: u64,
    pub buffered: Seq<u8>,
}

impl View for Session {
    type V = SessionState;

    closed spec fn view(&self) -> SessionState {
        SessionState {
            id: self.id,
            policy: self.policy,
            hello: match self.hello {
                Some(hello) => Some(hello@),
                None => None,
            },
            sequence: self.sequence,
            buffered: self.buffered@,
        }
    }
}

/// Whether the audio that is being collected is within the limit, and there is
/// none unless the client asked for it.
pub open spec fn within_limits(state: SessionState) -> bool {
    &&& state.buffered.len() <= state.policy.max_audio_bytes
    &&& state.buffered.len() > 0 ==> (state.hello matches Some(hello)
        && hello.buffer_audio_until_end)
}

/// Whether transcripts come with speaker labels: the client has been told so.
pub open spec fn labelled(state: SessionState) -> bool {
    state.hello matches Some(hello) && agreed_diarization(
        hello.diarization,
        state.policy.backend_diarization,
    ) == Some(DiarizationStatus::Enabled)
}

/// An error message.
pub open spec fn error_action(code: Seq<char>, message: Seq<char>) -> ActionContent {
    ActionContent::Send(ServerContent::Error { code, message })
}

/// A warning.
pub open spec fn warning_action(code: Seq<char>, message: Seq<char>) -> ActionContent {
    ActionContent::Send(ServerContent::Warning { code, message })
}

/// The answer to a hello.
pub open spec fn hello_actions(state: SessionState, hello: HelloContent) -> Seq<ActionContent> {
    match hello_refusal(hello) {
        Some(message) => seq![
            error_action("protocol_version"@, message),
            ActionContent::Fail(message),
        ],
        None => match agreed_diarization(hello.diarization, state.policy.backend_diarization) {
            None => seq![
                error_action(
                    "diarization_unsupported"@,
                    "backend diarization is not enabled on this server"@,
                ),
                ActionContent::Finish,
            ],
            Some(status) => {
                let ready = ActionContent::Send(
                    ServerContent::SessionReady(
                        SessionReady {
                            session_id: state.id,
                            chunk_seconds: state.policy.chunk_seconds,
                            diarization: status,
                        },
                    ),
                );
                if status == DiarizationStatus::Unsupported && hello.diarization
                    == DiarizationPreference::Prefer {
                    seq![
                        ready,
                        warning_action(
                            "diarization_unsupported"@,
                            "backend diarization is disabled; transcripts will not include speaker labels"@,
                        ),
                    ]
                } else {
                    seq![ready]
                }
            },
        },
    }
}

/// What the server does before it has a hello.
pub open spec fn opening_actions(state: SessionState, incoming: IncomingContent) -> Seq<
    ActionContent,
> {
    match incoming {
        IncomingContent::Message(ClientContent::Hello(hello)) => hello_actions(state, hello),
        IncomingContent::Message(_) => seq![
            error_action("expected_hello"@, "first message must be hello"@),
            ActionContent::Finish,
        ],
        IncomingContent::Malformed(reason) => seq![ActionContent::Fail(reason)],
        _ => seq![
            error_action("expected_hello"@, "first message must be hello JSON"@),
            ActionContent::Finish,
        ],
    }
}

/// What the server does once it has a hello.
pub open spec fn open_actions(
    state: SessionState,
    hello: HelloContent,
    incoming: IncomingContent,
) -> Seq<ActionContent> {
    match incoming {
        IncomingContent::Audio(bytes) => if bytes.len() == 0 {
            Seq::empty()
        } else if !hello.buffer_audio_until_end {
            seq![
                ActionContent::Transcribe { sequence: (state.sequence + 1) as u64, audio: bytes },
            ]
        } else if state.buffered.len() + bytes.len() > state.policy.max_audio_bytes {
            seq![
                error_action(
                    "audio_too_large"@,
                    "buffered audio exceeds the configured server limit"@,
                ),
                ActionContent::Finish,
            ]
        } else {
            Seq::empty()
        },
        IncomingContent::Message(ClientContent::AudioEnd) => if hello.buffer_audio_until_end
            && state.buffered.len() > 0 {
            seq![
                ActionContent::Transcribe {
                    sequence: (state.sequence + 1) as u64,
                    audio: state.buffered,
                },
                ActionContent::Finish,
            ]
        } else {
            seq![ActionContent::Finish]
        },
        IncomingContent::Message(ClientContent::Ping { nonce }) => seq![
            ActionContent::Send(ServerContent::Pong { nonce }),
        ],
        IncomingContent::Message(ClientContent::Hello(_)) => seq![
            warning_action("duplicate_hello"@, "hello was already received for this session"@),
        ],
        IncomingContent::Malformed(reason) => seq![ActionContent::Fail(reason)],
        IncomingContent::Lost(reason) => seq![ActionContent::Fail(reason)],
        IncomingContent::Ping(payload) => seq![ActionContent::Pong(payload)],
        IncomingContent::Pong => Seq::empty(),
        IncomingContent::Close => seq![ActionContent::Finish],
        IncomingContent::End => seq![ActionContent::Finish],
    }
}

/// What the server does when something comes in.
pub open spec fn actions_on(state: SessionState, incoming: IncomingContent) -> Seq<ActionContent> {
    match state.hello {
        Some(hello) => open_actions(state, hello, incoming),
        None => opening_actions(state, incoming),
    }
}

/// The state after something has come in.
pub open spec fn state_after(state: SessionState, incoming: IncomingContent) -> SessionState {
    match (state.hello, incoming) {
        (None, IncomingContent::Message(ClientContent::Hello(hello))) => if hello_refusal(
            hello,
        ) is None && agreed_diarization(
            hello.diarization,
            state.policy.backend_diarization,
        ) is Some {
            SessionState { hello: Some(hello), ..state }
        } else {
            state
        },
        (Some(hello), IncomingContent::Audio(bytes)) => if bytes.len() == 0 {
            state
        } else if !hello.buffer_audio_until_end {
            SessionState { sequence: (state.sequence + 1) as u64, ..state }
        } else if state.buffered.len() + bytes.len() > state.policy.max_audio_bytes {
            state
        } else {
            SessionState { buffered: state.buffered + bytes, ..state }
        },
        (Some(hello), IncomingContent::Message(ClientContent::AudioEnd)) => if state.buffered.len()
            > 0 {
            SessionState {
                sequence: (state.sequence + 1) as u64,
                buffered: Seq::empty(),
                ..state
            }
        } else {
            state
        },
        _ => state,
    }
}

impl Session {
    /// Whether the audio that is being collected is within the limits.
    pub open spec fn wf(&self) -> bool {
        within_limits(self@)
    }

    /// Starts a session.
    pub fn new(id: u128, policy: SessionPolicy) -> (session: Session)
        ensures
            session.wf(),
            session@ == (SessionState {
                id,
                policy,
                hello: None,
                sequence: 0,
                buffered: Seq::empty(),
            }),
    {
        let session = Session { id, policy, hello: None, sequence: 0, buffered: Vec::new() };
        assert(session@.buffered =~= Seq::<u8>::empty());
        session
    }

    /// The identity of the session.
    pub fn id(&self) -> (id: u128)
        ensures
            id == self@.id,
    {
        self.id
    }

    /// How much audio has been handed on for transcription so far.
    pub fn sequence(&self) -> (sequence: u64)
        ensures
            sequence == self@.sequence,
    {
        self.sequence
    }

    /// How many bytes of audio are being collected.
    pub fn collected(&self) -> (bytes: usize)
        ensures
            bytes == self@.buffered.len(),
    {
        self.buffered.len()
    }

    /// What the client said of itself, once it has.
    pub fn hello(&self) -> (hello: Option<&ClientHello>)
        ensures
            match hello {
                Some(hello) => self@.hello == Some(hello@),
                None => self@.hello is None,
            },
    {
        match &self.hello {
            Some(hello) => Some(hello),
            None => None,
        }
    }

    /// Whether the transcripts of this session come with speaker labels.
    pub fn diarizes(&self) -> (r: bool)
        ensures
            r == labelled(self@),
    {
        match &self.hello {
            Some(hello) => match agree_diarization(
                hello.diarization,
                self.policy.backend_diarization,
            ) {
                Some(DiarizationStatus::Enabled) => true,
                _ => false,
            },
            None => false,
        }
    }

    /// Takes what has come in and says what is to be done, in order.
    pub fn receive(&mut self, incoming: Incoming) -> (actions: Vec<Action>)
        requires
            old(self).wf(),
            old(self)@.sequence < u64::MAX,
        ensures
            final(self).wf(),
            final(self)@ == state_after(old(self)@, incoming@),
            action_views(actions@) == actions_on(old(self)@, incoming@),
    {
        let ghost before = self@;
        let ghost event = incoming@;
        let actions = if self.hello.is_none() {
            self.open(incoming)
        } else {
            self.go_on(incoming)
        };
        proof {
            assert(self@ =~= state_after(before, event));
        }
        actions
    }

    fn open(&mut self, incoming: Incoming) -> (actions: Vec<Action>)
        requires
            old(self).wf(),
            old(self)@.hello is None,
        ensures
            final(self).wf(),
            final(self)@ == state_after(old(self)@, incoming@),
            action_views(actions@) == actions_on(old(self)@, incoming@),
    {
        let ghost before = self@;
        let ghost event = incoming@;
        let mut actions: Vec<Action> = Vec::new();
        match incoming {
            Incoming::Message(ClientMessage::Hello(hello)) => {
                match validate_hello(&hello) {
                    Err(message) => {
                        actions.push(Action::Send(error("protocol_version", message.as_str())));
                        actions.push(Action::Fail(message));
                    },
                    Ok(_) => {
                        let preference = hello.diarization;
                        match agree_diarization(preference, self.policy.backend_diarization) {
                            None => {
                                actions.push(
                                    Action::Send(
                                        error(
                                            "diarization_unsupported",
                                            "backend diarization is not enabled on this server",
                                        ),
                                    ),
                                );
                                actions.push(Action::Finish);
                            },
                            Some(status) => {
                                actions.push(
                                    Action::Send(
                                        ServerMessage::SessionReady(
                                            SessionReady {
                                                session_id: self.id,
                                                chunk_seconds: self.policy.chunk_seconds,
                                                diarization: status,
                                            },
                                        ),
                                    ),
                                );
                                if status == DiarizationStatus::Unsupported && preference
                                    == DiarizationPreference::Prefer {
                                    actions.push(
                                        Action::Send(
                                            warning(
                                                "diarization_unsupported",
                                                "backend diarization is disabled; transcripts will not include speaker labels",
                                            ),
                                        ),
                                    );
                                }
                                self.hello = Some(hello);
                            },
                        }
                    },
                }
            },
            Incoming::Message(_) => {
                actions.push(Action::Send(error("expected_hello", "first message must be hello")));
                actions.push(Action::Finish);
            },
            Incoming::Malformed(reason) => {
                actions.push(Action::Fail(reason));
            },
            _ => {
                actions.push(
                    Action::Send(error("expected_hello", "first message must be hello JSON")),
                );
                actions.push(Action::Finish);
            },
        }
        proof {
            assert(action_views(actions@) =~= actions_on(before, event));
            assert(self@ =~= state_after(before, event));
        }
        actions
    }

    fn go_on(&mut self, incoming: Incoming) -> (actions: Vec<Action>)
        requires
            old(self).wf(),
            old(self)@.hello is Some,
            old(self)@.sequence < u64::MAX,
        ensures
            final(self).wf(),
            final(self)@ == state_after(old(self)@, incoming@),
            action_views(actions@) == actions_on(old(self)@, incoming@),
    {
        let ghost before = self@;
        let ghost event = incoming@;
        let mut actions: Vec<Action> = Vec::new();
        let buffering = match &self.hello {
            Some(hello) => hello.buffer_audio_until_end,
            None => false,
        };
        match incoming {
            Incoming::Audio(bytes) => {
                if bytes.len() > 0 {
                    if buffering {
                        if bytes.len() > self.policy.max_audio_bytes - self.buffered.len() {
                            actions.push(
                                Action::Send(
                                    error(
                                        "audio_too_large",
                                        "buffered audio exceeds the configured server limit",
                                    ),
                                ),
                            );
                            actions.push(Action::Finish);
                        } else {
                            push_bytes(&mut self.buffered, &bytes);
                        }
                    } else {
                        self.sequence = self.sequence + 1;
                        actions.push(
                            Action::Transcribe { sequence: self.sequence, audio: bytes },
                        );
                    }
                }
            },
            Incoming::Message(ClientMessage::AudioEnd) => {
                if buffering && self.buffered.len() > 0 {
                    self.sequence = self.sequence + 1;
                    let mut audio: Vec<u8> = Vec::new();
                    audio.append(&mut self.buffered);
                    proof {
                        assert(audio@ =~= before.buffered);
                    }
                    actions.push(Action::Transcribe { sequence: self.sequence, audio });
                }
                actions.push(Action::Finish);
            },
            Incoming::Message(ClientMessage::Ping { nonce }) => {
                actions.push(Action::Send(ServerMessage::Pong { nonce }));
            },
            Incoming::Message(ClientMessage::Hello(_)) => {
                actions.push(
                    Action::Send(
                        warning("duplicate_hello", "hello was already received for this session"),
                    ),
                );
            },
            Incoming::Malformed(reason) => {
                actions.push(Action::Fail(reason));
            },
            Incoming::Lost(reason) => {
                actions.push(Action::Fail(reason));
            },
            Incoming::Ping(payload) => {
                actions.push(Action::Pong(payload));
            },
            Incoming::Pong => {},
            Incoming::Close => {
                actions.push(Action::Finish);
            },
            Incoming::End => {
                actions.push(Action::Finish);
            },
        }
        proof {
            assert(action_views(actions@) =~= actions_on(before, event));
            assert(self@ =~= state_after(before, event));
        }
        actions
    }
}

// ---------------------------------------------------------------------------
// Reporting a transcript
// ---------------------------------------------------------------------------

/// What is said of a transcription as a whole: nothing where there is a
/// transcript, a warning where it is empty, an error where it failed.
pub open spec fn transcription_notice(
    transcript: Result<Seq<TranscriptContent>, Seq<char>>,
) -> Option<ServerContent> {
    match transcript {
        Ok(events) => if events.len() == 0 {
            Some(
                ServerContent::Warning {
                    code: "no_transcript"@,
                    message: "no speech or transcript text was detected"@,
                },
            )
        } else {
            None
        },
        Err(message) => Some(ServerContent::Error { code: "transcription_failed"@, message }),
    }
}

/// The result of a transcription, with strings as sequences.
pub open spec fn transcription_view(
    transcript: Result<Vec<NormalizedTranscript>, String>,
) -> Result<Seq<TranscriptContent>, Seq<char>> {
    match transcript {
        Ok(events) => Ok(event_views(events@)),
        Err(message) => Err(message@),
    }
}

/// Says what is to be said of a transcription as a whole.
pub fn notice_of(transcript: &Result<Vec<NormalizedTranscript>, String>) -> (notice: Option<
    ServerMessage,
>)
    ensures
        match notice {
            Some(m) => transcription_notice(transcription_view(*transcript)) == Some(m@),
            None => transcription_notice(transcription_view(*transcript)) is None,
        },
{
    match transcript {
        Ok(events) => if events.len() == 0 {
            Some(warning("no_transcript", "no speech or transcript text was detected"))
        } else {
            None
        },
        Err(message) => Some(error("transcription_failed", message.as_str())),
    }
}

/// The message that hands a piece of a transcript to the client.
pub open spec fn final_content(
    session_id: u128,
    sequence: u64,
    received_at: Timestamp,
    event: TranscriptContent,
) -> ServerContent {
    ServerContent::TranscriptFinal(
        EventContent {
            session_id,
            sequence,
            received_at,
            start_ms: event.start_ms,
            end_ms: event.end_ms,
            speaker: event.speaker,
            text: event.text,
        },
    )
}

/// Makes the message that hands a piece of a transcript to the client.
pub fn transcript_final(
    session_id: u128,
    sequence: u64,
    received_at: Timestamp,
    event: NormalizedTranscript,
) -> (message: ServerMessage)
    ensures
        message@ == final_content(session_id, sequence, received_at, event@),
{
    ServerMessage::TranscriptFinal(
        TranscriptEvent {
            session_id,
            sequence,
            received_at,
            start_ms: event.start_ms,
            end_ms: event.end_ms,
            speaker: event.speaker,
            text: event.text,
        },
    )
}

/// What is left to send of a transcription.
#[derive(Debug)]
pub struct Reply {
    session_id: u128,
    sequence: u64,
    notice: Option<ServerMessage>,
    // The piece that is sent next comes last.
    events: Vec<NormalizedTranscript>,
}

/// What is left to send of a transcription: what is said of it as a whole, and
/// the pieces of the transcript in order.
#[verifier::ext_equal]
pub struct ReplyState {
    pub session_id: u128,
    pub sequence: u64,
    pub notice: Option<ServerContent>,
    pub events: Seq<TranscriptContent>,
}

impl View for Reply {
    type V = ReplyState;

    closed spec fn view(&self) -> ReplyState {
        ReplyState {
            session_id: self.session_id,
            sequence: self.sequence,
            notice: match self.notice {
                Some(message) => Some(message@),
                None => None,
            },
            events: event_views(self.events@).reverse(),
        }
    }
}

/// What is to be sent of a transcription.
pub open spec fn reply_to(
    session_id: u128,
    sequence: u64,
    transcript: Result<Seq<TranscriptContent>, Seq<char>>,
) -> ReplyState {
    ReplyState {
        session_id,
        sequence,
        notice: transcription_notice(transcript),
        events: match transcript {
            Ok(events) => events,
            Err(_) => Seq::empty(),
        },
    }
}

/// The next message, where something is left.
pub open spec fn next_reply(state: ReplyState, now: Timestamp) -> Option<ServerContent> {
    if state.notice is Some {
        state.notice
    } else if state.events.len() > 0 {
        Some(final_content(state.session_id, state.sequence, now, state.events[0]))
    } else {
        None
    }
}

/// What is left after the next message.
pub open spec fn after_reply(state: ReplyState) -> ReplyState {
    if state.notice is Some {
        ReplyState { notice: None, ..state }
    } else if state.events.len() > 0 {
        ReplyState { events: state.events.skip(1), ..state }
    } else {
        state
    }
}

impl Reply {
    /// Takes up the result of a transcription.
    pub fn new(
        session_id: u128,
        sequence: u64,
        transcript: Result<Vec<NormalizedTranscript>, String>,
    ) -> (reply: Reply)
        ensures
            reply@ == reply_to(session_id, sequence, transcription_view(transcript)),
    {
        let notice = notice_of(&transcript);
        let mut events: Vec<NormalizedTranscript> = Vec::new();
        if let Ok(mut rest) = transcript {
            let ghost all = rest@;
            proof {
                assert(all.take(all.len() as int) =~= all);
            }
            while rest.len() > 0
                invariant
                    rest@.len() + events@.len() == all.len(),
                    rest@ == all.take(rest@.len() as int),
                    forall|i: int|
                        0 <= i < events@.len() ==> #[trigger] events@[i] == all[all.len() - 1 - i],
                decreases rest.len(),
            {
                if let Some(event) = rest.pop() {
                    events.push(event);
                    proof {
                        assert(rest@ =~= all.take(rest@.len() as int));
                    }
                }
            }
            proof {
                assert(event_views(events@).reverse() =~= event_views(all));
            }
        }
        let reply = Reply { session_id, sequence, notice, events };
        proof {
            assert(reply@ =~= reply_to(session_id, sequence, transcription_view(transcript)));
        }
        reply
    }

    /// Gives the next message, where something is left to send.
    pub fn next_message(&mut self, now: Timestamp) -> (message: Option<ServerMessage>)
        ensures
            match message {
                Some(m) => next_reply(old(self)@, now) == Some(m@),
                None => next_reply(old(self)@, now) is None,
            },
            final(self)@ == after_reply(old(self)@),
    {
        let ghost before = self@;
        let notice = self.notice.take();
        if notice.is_some() {
            return notice;
        }
        match self.events.pop() {
            Some(event) => {
                proof {
                    assert(before.events[0] == event@);
                    assert(self@.events =~= before.events.skip(1));
                }
                Some(transcript_final(self.session_id, self.sequence, now, event))
            },
            None => None,
        }
    }
}

// ---------------------------------------------------------------------------
// Laws
// ---------------------------------------------------------------------------

/// The messages that are sent when they are asked for at these times, as long as
/// something is left.
pub open spec fn replies(state: ReplyState, times: Seq<Timestamp>) -> Seq<ServerContent>
    decreases times.len(),
{
    if times.len() == 0 {
        Seq::empty()
    } else {
        match next_reply(state, times[0]) {
            Some(message) => seq![message] + replies(after_reply(state), times.skip(1)),
            None => Seq::empty(),
        }
    }
}

/// A transcript is sent as one message for each of its pieces, in order, and
/// nothing else.
pub proof fn law_transcript_is_sent_in_order(
    session_id: u128,
    sequence: u64,
    events: Seq<TranscriptContent>,
    times: Seq<Timestamp>,
)
    requires
        0 < events.len() <= times.len(),
    ensures
        replies(reply_to(session_id, sequence, Ok(events)), times) == Seq::new(
            events.len(),
            |i: int| final_content(session_id, sequence, times[i], events[i]),
        ),
{
    lemma_replies(reply_to(session_id, sequence, Ok(events)), times);
}

/// A transcription that failed, or that found nothing, is answered with one
/// message that says so.
pub proof fn law_missing_transcript_is_reported(
    session_id: u128,
    sequence: u64,
    transcript: Result<Seq<TranscriptContent>, Seq<char>>,
    times: Seq<Timestamp>,
)
    requires
        times.len() > 0,
        transcript matches Ok(events) ==> events.len() == 0,
    ensures
        transcription_notice(transcript) is Some,
        replies(reply_to(session_id, sequence, transcript), times) == seq![
            transcription_notice(transcript)->0,
        ],
{
    let rest = after_reply(reply_to(session_id, sequence, transcript));
    lemma_replies(rest, times.skip(1));
}

proof fn lemma_replies(state: ReplyState, times: Seq<Timestamp>)
    requires
        state.notice is None,
        state.events.len() <= times.len(),
    ensures
        replies(state, times) == Seq::new(
            state.events.len(),
            |i: int| final_content(state.session_id, state.sequence, times[i], state.events[i]),
        ),
    decreases state.events.len(),
{
    if state.events.len() > 0 {
        lemma_replies(after_reply(state), times.skip(1));
    }
    assert(replies(state, times) =~= Seq::new(
        state.events.len(),
        |i: int| final_content(state.session_id, state.sequence, times[i], state.events[i]),
    ));
}

/// Whether the session is over after these actions.
pub open spec fn ends(actions: Seq<ActionContent>) -> bool {
    actions.len() > 0 && (actions.last() is Finish || actions.last() is Fail)
}

/// What the server does over a whole session, up to its end.
pub open spec fn run(state: SessionState, incoming: Seq<IncomingContent>) -> Seq<ActionContent>
    decreases incoming.len(),
{
    if incoming.len() == 0 {
        Seq::empty()
    } else {
        let actions = actions_on(state, incoming[0]);
        if ends(actions) {
            actions
        } else {
            actions + run(state_after(state, incoming[0]), incoming.skip(1))
        }
    }
}

/// Frames of audio, then the end of the audio.
pub open spec fn upload(frames: Seq<Seq<u8>>) -> Seq<IncomingContent> {
    frames.map_values(|f: Seq<u8>| IncomingContent::Audio(f)).push(
        IncomingContent::Message(ClientContent::AudioEnd),
    )
}

/// Whether the client has asked for its audio to be collected.
pub open spec fn collecting(state: SessionState) -> bool {
    state.hello matches Some(hello) && hello.buffer_audio_until_end
}

proof fn lemma_upload(frames: Seq<Seq<u8>>)
    requires
        frames.len() > 0,
    ensures
        upload(frames)[0] == IncomingContent::Audio(frames[0]),
        upload(frames).skip(1) == upload(frames.skip(1)),
{
    assert(upload(frames).skip(1) =~= upload(frames.skip(1)));
}

/// An upload within the limit is transcribed once, as a whole, when it is
/// complete.
pub proof fn law_upload_is_transcribed_whole(state: SessionState, frames: Seq<Seq<u8>>)
    requires
        collecting(state),
        0 < state.buffered.len() + concatenation(frames).len() <= state.policy.max_audio_bytes,
    ensures
        run(state, upload(frames)) == seq![
            ActionContent::Transcribe {
                sequence: (state.sequence + 1) as u64,
                audio: state.buffered + concatenation(frames),
            },
            ActionContent::Finish,
        ],
    decreases frames.len(),
{
    if frames.len() == 0 {
        assert(upload(frames)[0] == IncomingContent::Message(ClientContent::AudioEnd));
        assert(state.buffered + concatenation(frames) =~= state.buffered);
    } else {
        lemma_upload(frames);
        lemma_concatenation(frames);
        let next = state_after(state, IncomingContent::Audio(frames[0]));
        assert(next.buffered =~= state.buffered + frames[0]);
        assert(next.buffered + concatenation(frames.skip(1)) =~= state.buffered + concatenation(
            frames,
        ));
        law_upload_is_transcribed_whole(next, frames.skip(1));
        assert(actions_on(state, IncomingContent::Audio(frames[0])) =~= Seq::<
            ActionContent,
        >::empty());
        assert(run(state, upload(frames)) =~= run(next, upload(frames.skip(1))));
    }
}

/// An upload beyond the limit is refused, and nothing of it is transcribed.
pub proof fn law_oversized_upload_is_refused(state: SessionState, frames: Seq<Seq<u8>>)
    requires
        collecting(state),
        state.buffered.len() <= state.policy.max_audio_bytes,
        state.buffered.len() + concatenation(frames).len() > state.policy.max_audio_bytes,
    ensures
        run(state, upload(frames)) == seq![
            error_action(
                "audio_too_large"@,
                "buffered audio exceeds the configured server limit"@,
            ),
            ActionContent::Finish,
        ],
    decreases frames.len(),
{
    if frames.len() > 0 {
        lemma_upload(frames);
        lemma_concatenation(frames);
        let event = IncomingContent::Audio(frames[0]);
        if state.buffered.len() + frames[0].len() <= state.policy.max_audio_bytes {
            let next = state_after(state, event);
            assert(next.buffered =~= state.buffered + frames[0]);
            law_oversized_upload_is_refused(next, frames.skip(1));
            assert(actions_on(state, event) =~= Seq::<ActionContent>::empty());
            assert(run(state, upload(frames)) =~= run(next, upload(frames.skip(1))));
        }
    }
}

/// What the transcription of chunks that come one by one amounts to.
pub open spec fn numbered(sequence: u64, chunks: Seq<Seq<u8>>) -> Seq<ActionContent> {
    Seq::new(
        chunks.len(),
        |i: int|
            ActionContent::Transcribe { sequence: (sequence + 1 + i) as u64, audio: chunks[i] },
    )
}

/// Chunks that are not collected are transcribed one by one, under consecutive
/// numbers.
pub proof fn law_chunks_are_transcribed_in_turn(state: SessionState, chunks: Seq<Seq<u8>>)
    requires
        state.hello is Some,
        !collecting(state),
        within_limits(state),
        state.sequence + chunks.len() <= u64::MAX,
        forall|i: int| 0 <= i < chunks.len() ==> (#[trigger] chunks[i]).len() > 0,
    ensures
        run(state, upload(chunks)) == numbered(state.sequence, chunks).push(ActionContent::Finish),
    decreases chunks.len(),
{
    if chunks.len() == 0 {
        assert(upload(chunks)[0] == IncomingContent::Message(ClientContent::AudioEnd));
        assert(numbered(state.sequence, chunks).push(ActionContent::Finish) =~= seq![
            ActionContent::Finish,
        ]);
    } else {
        lemma_upload(chunks);
        let event = IncomingContent::Audio(chunks[0]);
        let next = state_after(state, event);
        let rest = chunks.skip(1);
        assert forall|i: int| 0 <= i < rest.len() implies (#[trigger] rest[i]).len() > 0 by {
            assert(rest[i] == chunks[i + 1]);
        }
        law_chunks_are_transcribed_in_turn(next, rest);
        assert(actions_on(state, event).last() is Transcribe);
        assert(run(state, upload(chunks)) == actions_on(state, event) + run(next, upload(rest)));
        assert(numbered(state.sequence, chunks).push(ActionContent::Finish) =~= actions_on(
            state,
            event,
        ) + numbered(next.sequence, rest).push(ActionContent::Finish));
    }
}

/// A client that is not accepted is answered with one error, and the session is
/// over.
pub proof fn law_refusal_is_answered(state: SessionState, hello: HelloContent)
    requires
        state.hello is None,
        hello_refusal(hello) is Some || agreed_diarization(
            hello.diarization,
            state.policy.backend_diarization,
        ) is None,
    ensures
        ({
            let actions = actions_on(state, IncomingContent::Message(ClientContent::Hello(hello)));
            &&& actions.len() == 2
            &&& actions[0] matches ActionContent::Send(ServerContent::Error { .. })
            &&& ends(actions)
        }),
{
}

/// A meeting from the hello to the end of the audio: the session is accepted and
/// the recording is transcribed once, as a whole, under the number 1.
pub proof fn law_meeting(
    id: u128,
    policy: SessionPolicy,
    hello: HelloContent,
    frames: Seq<Seq<u8>>,
)
    requires
        hello_refusal(hello) is None,
        agreed_diarization(hello.diarization, policy.backend_diarization) is Some,
        hello.buffer_audio_until_end,
        0 < concatenation(frames).len() <= policy.max_audio_bytes,
    ensures
        ({
            let start = SessionState {
                id,
                policy,
                hello: None,
                sequence: 0,
                buffered: Seq::empty(),
            };
            run(
                start,
                seq![IncomingContent::Message(ClientContent::Hello(hello))] + upload(frames),
            ) == hello_actions(start, hello) + seq![
                ActionContent::Transcribe { sequence: 1, audio: concatenation(frames) },
                ActionContent::Finish,
            ]
        }),
{
    let start = SessionState { id, policy, hello: None, sequence: 0, buffered: Seq::empty() };
    let first = IncomingContent::Message(ClientContent::Hello(hello));
    let all = seq![first] + upload(frames);
    let next = state_after(start, first);
    assert(all.skip(1) =~= upload(frames));
    assert(next.buffered + concatenation(frames) =~= concatenation(frames));
    law_upload_is_transcribed_whole(next, frames);
}

// ---------------------------------------------------------------------------
// Laws of single steps
// ---------------------------------------------------------------------------

/// The audio in what comes in.
pub open spec fn audio_in(incoming: IncomingContent) -> Seq<u8> {
    match incoming {
        IncomingContent::Audio(bytes) => bytes,
        _ => Seq::empty(),
    }
}

/// The audio that is transcribed by these actions.
pub open spec fn audio_out(actions: Seq<ActionContent>) -> Seq<u8> {
    actions.fold_left(
        Seq::empty(),
        |audio: Seq<u8>, action: ActionContent|
            match action {
                ActionContent::Transcribe { audio: more, .. } => audio + more,
                _ => audio,
            },
    )
}

proof fn lemma_audio_out(actions: Seq<ActionContent>)
    requires
        actions.len() <= 2,
    ensures
        actions.len() == 0 ==> audio_out(actions) == Seq::<u8>::empty(),
        actions.len() == 1 ==> audio_out(actions) == (match actions[0] {
            ActionContent::Transcribe { audio, .. } => audio,
            _ => Seq::empty(),
        }),
        actions.len() == 2 && !(actions[1] is Transcribe) ==> audio_out(actions) == (
        match actions[0] {
            ActionContent::Transcribe { audio, .. } => audio,
            _ => Seq::empty(),
        }),
{
    let append = |audio: Seq<u8>, action: ActionContent|
        match action {
            ActionContent::Transcribe { audio: more, .. } => audio + more,
            _ => audio,
        };
    let none = Seq::<u8>::empty();
    reveal_with_fuel(Seq::fold_left, 3);
    if actions.len() == 1 {
        assert(actions.drop_last() =~= Seq::<ActionContent>::empty());
        assert(actions.fold_left(none, append) =~= match actions[0] {
            ActionContent::Transcribe { audio, .. } => audio,
            _ => none,
        });
    } else if actions.len() == 2 {
        assert(actions.drop_last().drop_last() =~= Seq::<ActionContent>::empty());
        assert(actions.drop_last().last() == actions[0]);
        assert(actions.last() == actions[1]);
        assert(actions.drop_last().fold_left(none, append) =~= match actions[0] {
            ActionContent::Transcribe { audio, .. } => audio,
            _ => none,
        });
    }
}

/// No audio is lost or made up: what is transcribed and what is still being
/// collected is what was being collected and what came in, in order. Only an
/// upload that becomes too large is refused, and then nothing is transcribed.
pub proof fn law_no_audio_is_lost(state: SessionState, incoming: IncomingContent)
    requires
        state.hello is Some,
        within_limits(state),
    ensures
        ({
            let actions = actions_on(state, incoming);
            let next = state_after(state, incoming);
            if state.hello->0.buffer_audio_until_end && state.buffered.len() + audio_in(
                incoming,
            ).len() > state.policy.max_audio_bytes {
                &&& audio_out(actions).len() == 0
                &&& actions.len() == 2
                &&& actions[0] matches ActionContent::Send(ServerContent::Error { code, .. })
                &&& code == "audio_too_large"@
                &&& actions[1] is Finish
                &&& next == state
            } else {
                &&& audio_out(actions) + next.buffered == state.buffered + audio_in(incoming)
                &&& next.hello == state.hello
                &&& next.policy == state.policy
                &&& next.id == state.id
            }
        }),
{
    let actions = actions_on(state, incoming);
    let next = state_after(state, incoming);
    lemma_audio_out(actions);
    assert(audio_out(actions) + next.buffered =~= state.buffered + audio_in(incoming)
        || state.hello->0.buffer_audio_until_end && state.buffered.len() + audio_in(incoming).len()
        > state.policy.max_audio_bytes);
}

/// Audio is transcribed as soon as it is complete: at once where the client does
/// not ask for it to be collected, otherwise when it says that the audio is over.
/// Nothing else is transcribed, and each transcription has the next number.
pub proof fn law_audio_is_transcribed_when_complete(state: SessionState, incoming: IncomingContent)
    requires
        within_limits(state),
        state.sequence < u64::MAX,
    ensures
        ({
            let actions = actions_on(state, incoming);
            let next = state_after(state, incoming);
            let complete = state.hello matches Some(hello) && (if hello.buffer_audio_until_end {
                incoming == IncomingContent::Message(ClientContent::AudioEnd)
                    && state.buffered.len() > 0
            } else {
                audio_in(incoming).len() > 0
            });
            if complete {
                &&& actions[0] matches ActionContent::Transcribe { sequence, audio }
                &&& sequence == state.sequence + 1
                &&& audio == state.buffered + audio_in(incoming)
                &&& forall|k: int|
                    0 < k < actions.len() ==> !(#[trigger] actions[k] is Transcribe)
                &&& next.sequence == state.sequence + 1
                &&& next.buffered.len() == 0
            } else {
                &&& forall|k: int|
                    0 <= k < actions.len() ==> !(#[trigger] actions[k] is Transcribe)
                &&& next.sequence == state.sequence
            }
        }),
{
    assert(state.buffered + Seq::<u8>::empty() =~= state.buffered);
    if let IncomingContent::Audio(bytes) = incoming {
        if state.hello is Some && !state.hello->0.buffer_audio_until_end {
            assert(state.buffered + bytes =~= bytes);
        }
    }
}

/// A session goes on until the client ends it, does what it may not, or is gone:
/// once it is open, audio within the limit, pings and a second hello do not end
/// it, and everything else does.
pub proof fn law_session_ends_with_the_client(state: SessionState, incoming: IncomingContent)
    requires
        state.hello is Some,
    ensures
        ends(actions_on(state, incoming)) <==> (match incoming {
            IncomingContent::Audio(bytes) => state.hello->0.buffer_audio_until_end && bytes.len()
                > 0 && state.buffered.len() + bytes.len() > state.policy.max_audio_bytes,
            IncomingContent::Message(message) => message == ClientContent::AudioEnd,
            IncomingContent::Ping(_) => false,
            IncomingContent::Pong => false,
            _ => true,
        }),
        forall|k: int|
            0 <= k < actions_on(state, incoming).len() - 1 ==> !(#[trigger] actions_on(
                state,
                incoming,
            )[k] is Finish) && !(actions_on(state, incoming)[k] is Fail),
{
}

/// A ping is answered with what it holds, whether it is a message or one of the
/// connection, and changes nothing.
pub proof fn law_pings_are_answered(state: SessionState, nonce: Seq<char>, payload: Seq<u8>)
    requires
        state.hello is Some,
    ensures
        ({
            let ping = IncomingContent::Message(ClientContent::Ping { nonce });
            &&& actions_on(state, ping).len() == 1
            &&& actions_on(state, ping)[0] == ActionContent::Send(ServerContent::Pong { nonce })
            &&& state_after(state, ping) == state
            &&& actions_on(state, IncomingContent::Ping(payload)).len() == 1
            &&& actions_on(state, IncomingContent::Ping(payload))[0] == ActionContent::Pong(payload)
            &&& state_after(state, IncomingContent::Ping(payload)) == state
        }),
{
}

/// A failure of the connection, or a text that is no message, ends the session
/// with its reason.
pub proof fn law_failures_keep_their_reason(state: SessionState, reason: Seq<char>)
    ensures
        actions_on(state, IncomingContent::Malformed(reason)).last() == ActionContent::Fail(reason),
        state.hello is Some ==> actions_on(state, IncomingContent::Lost(reason)).last()
            == ActionContent::Fail(reason),
{
}

/// Before the hello nothing is accepted but a hello: the client is told so and the
/// session is over.
pub proof fn law_hello_comes_first(state: SessionState, incoming: IncomingContent)
    requires
        state.hello is None,
        !(incoming matches IncomingContent::Message(ClientContent::Hello(_))),
        !(incoming is Malformed),
    ensures
        ({
            let actions = actions_on(state, incoming);
            &&& actions.len() == 2
            &&& actions[0] matches ActionContent::Send(ServerContent::Error { code, .. })
            &&& code == "expected_hello"@
            &&& actions[1] is Finish
            &&& state_after(state, incoming) == state
        }),
{
}

/// A client is accepted exactly where it speaks version 1 or 2, asks for its audio
/// to be collected only in version 2, and does not require speaker labels that the
/// server does not offer. It is told who it is, how long a chunk is, and whether
/// there are speaker labels: both sides have to want them. One that would like
/// them where there are none is warned.
pub proof fn law_accepted_clients(state: SessionState, hello: HelloContent)
    requires
        state.hello is None,
    ensures
        ({
            let incoming = IncomingContent::Message(ClientContent::Hello(hello));
            let actions = actions_on(state, incoming);
            let offered = state.policy.backend_diarization;
            let spoken = hello.protocol_version == 2 || hello.protocol_version == 1
                && !hello.buffer_audio_until_end;
            if !spoken {
                &&& actions[0] matches ActionContent::Send(ServerContent::Error { code, message })
                &&& code == "protocol_version"@
                &&& actions[1] == ActionContent::Fail(message)
                &&& state_after(state, incoming) == state
            } else if hello.diarization == DiarizationPreference::Require && !offered {
                &&& actions[0] matches ActionContent::Send(ServerContent::Error { code, .. })
                &&& code == "diarization_unsupported"@
                &&& actions[1] is Finish
                &&& state_after(state, incoming) == state
            } else {
                &&& actions[0] matches ActionContent::Send(ServerContent::SessionReady(ready))
                &&& ready.session_id == state.id
                &&& ready.chunk_seconds == state.policy.chunk_seconds
                &&& ready.diarization is Enabled <==> offered && hello.diarization
                    != DiarizationPreference::Disable
                &&& ready.diarization is Disabled <==> offered && hello.diarization
                    == DiarizationPreference::Disable
                &&& actions.len() == if !offered && hello.diarization
                    == DiarizationPreference::Prefer {
                    2int
                } else {
                    1int
                }
                &&& actions.len() == 2 ==> (actions[1] matches ActionContent::Send(
                    ServerContent::Warning { code, .. },
                ) && code == "diarization_unsupported"@)
                &&& state_after(state, incoming).hello == Some(hello)
                &&& state_after(state, incoming).sequence == state.sequence
                &&& state_after(state, incoming).buffered == state.buffered
            }
        }),
{
}

/// Transcripts have speaker labels exactly where the client was told so.
pub proof fn law_labels_as_told(state: SessionState)
    requires
        state.hello is Some,
    ensures
        labelled(state) <==> state.policy.backend_diarization && state.hello->0.diarization
            != DiarizationPreference::Disable,
{
}

/// Each message of a transcript is a final one, with the session and the number of
/// its audio, the time at which it is sent, and the times, the speaker and the text
/// of its own piece.
pub proof fn law_pieces_are_sent_as_they_are(
    session_id: u128,
    sequence: u64,
    events: Seq<TranscriptContent>,
    times: Seq<Timestamp>,
    i: int,
)
    requires
        0 <= i < events.len() <= times.len(),
    ensures
        ({
            let sent = replies(reply_to(session_id, sequence, Ok(events)), times);
            &&& sent.len() == events.len()
            &&& sent[i] matches ServerContent::TranscriptFinal(event)
            &&& event.session_id == session_id
            &&& event.sequence == sequence
            &&& event.received_at == times[i]
            &&& event.start_ms == events[i].start_ms
            &&& event.end_ms == events[i].end_ms
            &&& event.speaker == events[i].speaker
            &&& event.text == events[i].text
        }),
{
    law_transcript_is_sent_in_order(session_id, sequence, events, times);
}

/// A transcription that failed is reported as an error with its reason, and one
/// that found nothing as a warning.
pub proof fn law_kind_of_notice(
    session_id: u128,
    sequence: u64,
    reason: Seq<char>,
    times: Seq<Timestamp>,
)
    requires
        times.len() > 0,
    ensures
        ({
            let failed = replies(reply_to(session_id, sequence, Err(reason)), times);
            let empty = replies(reply_to(session_id, sequence, Ok(Seq::empty())), times);
            &&& failed.len() == 1
            &&& failed[0] matches ServerContent::Error { code, message }
            &&& code == "transcription_failed"@ && message == reason
            &&& empty.len() == 1
            &&& empty[0] matches ServerContent::Warning { code, .. }
            &&& code == "no_transcript"@
        }),
{
    law_missing_transcript_is_reported(session_id, sequence, Err(reason), times);
    law_missing_transcript_is_reported(session_id, sequence, Ok(Seq::empty()), times);
}

/// What is said of what comes in is what it is and what it holds, and what is said
/// of an action is what is done with what.
pub proof fn law_contents_of_a_session(incoming: Incoming, action: Action)
    ensures
        match incoming {
            Incoming::Message(message) => incoming@ == IncomingContent::Message(message@),
            Incoming::Malformed(reason) => incoming@ == IncomingContent::Malformed(reason@),
            Incoming::Audio(bytes) => incoming@ == IncomingContent::Audio(bytes@),
            Incoming::Ping(payload) => incoming@ == IncomingContent::Ping(payload@),
            Incoming::Pong => incoming@ is Pong,
            Incoming::Close => incoming@ is Close,
            Incoming::End => incoming@ is End,
            Incoming::Lost(reason) => incoming@ == IncomingContent::Lost(reason@),
        },
        match action {
            Action::Send(message) => action@ == ActionContent::Send(message@),
            Action::Pong(payload) => action@ == ActionContent::Pong(payload@),
            Action::Transcribe { sequence, audio } => action@ == (ActionContent::Transcribe {
                sequence,
                audio: audio@,
            }),
            Action::Finish => action@ is Finish,
            Action::Fail(reason) => action@ == ActionContent::Fail(reason@),
        },
{
}

/// A client of another version is told its version and those that the server
/// speaks.
pub proof fn law_versions_are_told(hello: HelloContent)
    requires
        hello.protocol_version == 0 || hello.protocol_version > 2,
    ensures
        hello_refusal(hello) == Some(
            "unsupported protocol version "@ + decimal(hello.protocol_version as nat)
                + "; server supports versions 1 through "@ + decimal(2),
        ),
{
}

} // verus!
