//! The session of the client as it goes on: what the client does when audio,
//! messages and the time come in.
use vstd::prelude::*;
use vstd::string::*;
use crate::client::{
    ends_session, frames_of, handle_server_message, heartbeat,
    law_frames_make_up_the_recording, law_recording_arrives_whole, progress_text, reaction_to,
    session_result, signed_decimal, split_frames, transcript_line, upload_failure,
    upload_progress, ConnectionFailure, Reaction, ReactionContent,
};
use crate::protocol::{
    ClientContent, ClientMessage, EventContent, ServerContent, ServerMessage, TranscriptEvent,
};
use crate::session::{collecting, run, upload, ActionContent, IncomingContent, SessionState};
use crate::text::{decimal, opt_view};
use crate::wav::{byte_views, concatenation, lemma_concatenation};

verus! {

/// What comes in while the client is connected.
#[derive(Debug)]
pub enum ClientEvent {
    /// A recording, or a chunk of one.
    Audio(Vec<u8>),
    /// There is no more audio.
    AudioOver,
    /// A message from the server.
    Message(ServerMessage),
    /// A text that is no message, and why.
    Malformed(String),
    /// Something else from the server.
    Other,
    /// The connection was closed.
    Close,
    /// The connection failed, how, and what is said of it.
    Lost(ConnectionFailure, String),
    /// It is time for a heartbeat; the time is in milliseconds since 1970.
    Tick(i64),
    /// The user wants to stop.
    Interrupt,
}

/// What comes in, with texts and audio as sequences.
#[verifier::ext_equal]
pub enum EventView {
    Audio(Seq<u8>),
    AudioOver,
    Message(ServerContent),
    Malformed(Seq<char>),
    Other,
    Close,
    Lost(ConnectionFailure, Seq<char>),
    Tick(i64),
    Interrupt,
}

impl View for ClientEvent {
    type V = EventView;

    open spec fn view(&self) -> EventView {
        match *self {
            ClientEvent::Audio(audio) => EventView::Audio(audio@),
            ClientEvent::AudioOver => EventView::AudioOver,
            ClientEvent::Message(message) => EventView::Message(message@),
            ClientEvent::Malformed(reason) => EventView::Malformed(reason@),
            ClientEvent::Other => EventView::Other,
            ClientEvent::Close => EventView::Close,
            ClientEvent::Lost(failure, text) => EventView::Lost(failure, text@),
            ClientEvent::Tick(now) => EventView::Tick(now),
            ClientEvent::Interrupt => EventView::Interrupt,
        }
    }
}

/// What the client is to do.
#[derive(Debug)]
pub enum ClientAction {
    /// Send audio; the text is what to say where that fails.
    SendAudio { bytes: Vec<u8>, failure: Option<String> },
    /// Send a message.
    Send(ClientMessage),
    /// Send the last message. It does no harm where the connection has gone.
    SendLast(ClientMessage),
    /// Add a line to the log.
    Log(String),
    /// Tell the user who has no terminal.
    Echo(String),
    /// Append to the transcript.
    Write(String),
    /// Append to the list of events.
    Keep(TranscriptEvent),
    /// Ask for capture and the terminal to come to an end.
    Quit,
    /// End the session.
    Finish,
    /// End the session because of a failure.
    Fail(String),
}

/// What the client is to do, with texts and audio as sequences.
#[verifier::ext_equal]
pub enum ClientActionView {
    SendAudio { bytes: Seq<u8>, failure: Option<Seq<char>> },
    Send(ClientContent),
    SendLast(ClientContent),
    Log(Seq<char>),
    Echo(Seq<char>),
    Write(Seq<char>),
    Keep(EventContent),
    Quit,
    Finish,
    Fail(Seq<char>),
}

impl View for ClientAction {
    type V = ClientActionView;

    open spec fn view(&self) -> ClientActionView {
        match *self {
            ClientAction::SendAudio { bytes, failure } => ClientActionView::SendAudio {
                bytes: bytes@,
                failure: opt_view(failure),
            },
            ClientAction::Send(message) => ClientActionView::Send(message@),
            ClientAction::SendLast(message) => ClientActionView::SendLast(message@),
            ClientAction::Log(text) => ClientActionView::Log(text@),
            ClientAction::Echo(text) => ClientActionView::Echo(text@),
            ClientAction::Write(text) => ClientActionView::Write(text@),
            ClientAction::Keep(event) => ClientActionView::Keep(event@),
            ClientAction::Quit => ClientActionView::Quit,
            ClientAction::Finish => ClientActionView::Finish,
            ClientAction::Fail(text) => ClientActionView::Fail(text@),
        }
    }
}

/// What a list of actions says.
pub open spec fn client_action_views(actions: Seq<ClientAction>) -> Seq<ClientActionView> {
    actions.map_values(|a: ClientAction| a@)
}

/// The session of the client. First it sends audio, and then it waits for what
/// is left of the transcript.
#[derive(Debug)]
pub struct Exchange {
    headless: bool,
    buffered: bool,
    draining: bool,
    transcripts: u64,
}

/// The state of the session: whether there is no terminal, whether the audio is
/// uploaded as a whole, whether all of it has been sent, and how many pieces of
/// transcript have come.
#[verifier::ext_equal]
pub struct ExchangeState {
    pub headless: bool,
    pub buffered: bool,
    pub draining: bool,
    pub transcripts: u64,
}

impl View for Exchange {
    type V = ExchangeState;

    closed spec fn view(&self) -> ExchangeState {
        ExchangeState {
            headless: self.headless,
            buffered: self.buffered,
            draining: self.draining,
            transcripts: self.transcripts,
        }
    }
}

// ---------------------------------------------------------------------------
// What is done
// ---------------------------------------------------------------------------

/// What is done with one frame of an upload at `offset`.
pub open spec fn frame_actions(
    frame: Seq<u8>,
    offset: nat,
    total: nat,
    headless: bool,
) -> Seq<ClientActionView> {
    let sent = ClientActionView::SendAudio {
        bytes: frame,
        failure: Some("uploading meeting audio at byte offset "@ + decimal(offset)),
    };
    match progress_text(offset, frame.len(), total) {
        Some(text) if headless => seq![sent, ClientActionView::Echo(text)],
        _ => seq![sent],
    }
}

/// What is done with the frames of an upload, the first of them at `offset`.
pub open spec fn frames_actions(
    frames: Seq<Seq<u8>>,
    offset: nat,
    total: nat,
    headless: bool,
) -> Seq<ClientActionView>
    decreases frames.len(),
{
    if frames.len() == 0 {
        Seq::empty()
    } else {
        frame_actions(frames[0], offset, total, headless) + frames_actions(
            frames.skip(1),
            offset + frames[0].len(),
            total,
            headless,
        )
    }
}

/// What is done with audio: a recording is uploaded in frames, a chunk is sent as
/// it is.
pub open spec fn audio_actions(state: ExchangeState, audio: Seq<u8>) -> Seq<ClientActionView> {
    if state.buffered {
        frames_actions(frames_of(audio), 0, audio.len(), state.headless) + (if state.headless {
            seq![
                ClientActionView::Echo(
                    "meeting audio upload complete; waiting for transcription"@,
                ),
            ]
        } else {
            Seq::empty()
        })
    } else {
        seq![ClientActionView::SendAudio { bytes: audio, failure: None }]
    }
}

/// One action for something that there may be.
pub open spec fn one_of(action: Option<ClientActionView>) -> Seq<ClientActionView> {
    match action {
        Some(action) => seq![action],
        None => Seq::empty(),
    }
}

/// What is done for a reaction to a message: the log first, then the transcript,
/// then the events, and the user last.
pub open spec fn reaction_actions(reaction: ReactionContent) -> Seq<ClientActionView> {
    one_of(
        match reaction.log {
            Some(text) => Some(ClientActionView::Log(text)),
            None => None,
        },
    ) + one_of(
        match reaction.transcript {
            Some(text) => Some(ClientActionView::Write(text)),
            None => None,
        },
    ) + one_of(
        match reaction.event {
            Some(event) => Some(ClientActionView::Keep(event)),
            None => None,
        },
    ) + one_of(
        match reaction.echo {
            Some(text) => Some(ClientActionView::Echo(text)),
            None => None,
        },
    )
}

/// What is done with a message from the server.
pub open spec fn message_actions(state: ExchangeState, message: ServerContent) -> Seq<
    ClientActionView,
> {
    match reaction_to(message, state.headless) {
        Ok(reaction) => reaction_actions(reaction),
        Err(text) => seq![ClientActionView::Fail(text)],
    }
}

/// What is done at the end: a terminal is closed, and without one the session has
/// failed where no transcript has come.
pub open spec fn closing_actions(state: ExchangeState) -> Seq<ClientActionView> {
    if !state.headless {
        seq![ClientActionView::Quit, ClientActionView::Finish]
    } else if state.transcripts == 0 {
        seq![
            ClientActionView::Fail(
                "server returned no transcript events; see the server messages above"@,
            ),
        ]
    } else {
        seq![ClientActionView::Finish]
    }
}

/// Whether a failure of the connection is taken as the end of the session.
pub open spec fn is_orderly(state: ExchangeState, failure: ConnectionFailure) -> bool {
    state.draining && !state.headless && failure != ConnectionFailure::Other
}

/// What the client does when something comes in. Once all audio has been sent,
/// only what comes from the server counts.
pub open spec fn exchange_actions(state: ExchangeState, event: EventView) -> Seq<
    ClientActionView,
> {
    match event {
        EventView::Message(message) => message_actions(state, message),
        EventView::Malformed(reason) => seq![ClientActionView::Fail(reason)],
        EventView::Other => Seq::empty(),
        EventView::Close => if state.draining {
            closing_actions(state)
        } else {
            Seq::empty()
        },
        EventView::Lost(failure, text) => if is_orderly(state, failure) {
            closing_actions(state)
        } else {
            seq![ClientActionView::Fail(text)]
        },
        EventView::Audio(audio) => if state.draining {
            Seq::empty()
        } else {
            audio_actions(state, audio)
        },
        EventView::AudioOver => if state.draining {
            Seq::empty()
        } else {
            seq![ClientActionView::SendLast(ClientContent::AudioEnd)]
        },
        EventView::Tick(now) => if state.draining {
            Seq::empty()
        } else {
            seq![
                ClientActionView::Send(
                    ClientContent::Ping { nonce: signed_decimal(now as int) },
                ),
            ]
        },
        EventView::Interrupt => if state.draining {
            Seq::empty()
        } else {
            seq![ClientActionView::Quit, ClientActionView::Log("stopping capture cleanly"@)]
        },
    }
}

/// The state after something has come in.
pub open spec fn exchange_after(state: ExchangeState, event: EventView) -> ExchangeState {
    match event {
        EventView::AudioOver => ExchangeState { draining: true, ..state },
        EventView::Close => ExchangeState { draining: true, ..state },
        EventView::Message(ServerContent::TranscriptFinal(_)) => ExchangeState {
            transcripts: (state.transcripts + 1) as u64,
            ..state
        },
        _ => state,
    }
}

impl Exchange {
    /// A session that has just been opened. `headless` is without a terminal, and
    /// `buffered` is with audio that is uploaded as a whole.
    pub fn new(headless: bool, buffered: bool) -> (exchange: Exchange)
        ensures
            exchange@ == (ExchangeState { headless, buffered, draining: false, transcripts: 0 }),
    {
        Exchange { headless, buffered, draining: false, transcripts: 0 }
    }

    /// Whether all audio has been sent.
    pub fn is_draining(&self) -> (r: bool)
        ensures
            r == self@.draining,
    {
        self.draining
    }

    /// How many pieces of transcript have come.
    pub fn transcripts(&self) -> (count: u64)
        ensures
            count == self@.transcripts,
    {
        self.transcripts
    }

    /// Takes what has come in and says what is to be done, in order.
    pub fn receive(&mut self, event: ClientEvent) -> (actions: Vec<ClientAction>)
        requires
            old(self)@.transcripts < u64::MAX,
            event matches ClientEvent::Message(ServerMessage::TranscriptFinal(piece))
                ==> piece.received_at.valid(),
        ensures
            final(self)@ == exchange_after(old(self)@, event@),
            client_action_views(actions@) == exchange_actions(old(self)@, event@),
    {
        let ghost before = self@;
        let ghost seen = event@;
        let mut actions: Vec<ClientAction> = Vec::new();
        proof {
            assert(client_action_views(actions@) =~= Seq::<ClientActionView>::empty());
        }
        match event {
            ClientEvent::Message(message) => {
                if let ServerMessage::TranscriptFinal(_) = &message {
                    self.transcripts = self.transcripts + 1;
                }
                match handle_server_message(message, self.headless) {
                    Ok(reaction) => {
                        push_reaction(&mut actions, reaction);
                    },
                    Err(text) => {
                        actions.push(ClientAction::Fail(text));
                    },
                }
            },
            ClientEvent::Malformed(reason) => {
                actions.push(ClientAction::Fail(reason));
            },
            ClientEvent::Other => {},
            ClientEvent::Close => {
                if self.draining {
                    self.close(&mut actions);
                }
                self.draining = true;
            },
            ClientEvent::Lost(failure, text) => {
                if self.draining && ends_session(&failure, self.headless) {
                    self.close(&mut actions);
                } else {
                    actions.push(ClientAction::Fail(text));
                }
            },
            ClientEvent::Audio(audio) => {
                if !self.draining {
                    self.send_audio(&mut actions, audio);
                }
            },
            ClientEvent::AudioOver => {
                if !self.draining {
                    actions.push(ClientAction::SendLast(ClientMessage::AudioEnd));
                }
                self.draining = true;
            },
            ClientEvent::Tick(now) => {
                if !self.draining {
                    actions.push(ClientAction::Send(heartbeat(now)));
                }
            },
            ClientEvent::Interrupt => {
                if !self.draining {
                    actions.push(ClientAction::Quit);
                    actions.push(ClientAction::Log("stopping capture cleanly".to_owned()));
                }
            },
        }
        proof {
            assert(self@ =~= exchange_after(before, seen));
            assert(client_action_views(actions@) =~= exchange_actions(before, seen));
        }
        actions
    }

    fn close(&self, actions: &mut Vec<ClientAction>)
        ensures
            client_action_views(final(actions)@) == client_action_views(old(actions)@)
                + closing_actions(self@),
    {
        let ghost earlier = client_action_views(actions@);
        if !self.headless {
            actions.push(ClientAction::Quit);
        }
        match session_result(self.headless, self.transcripts) {
            Ok(_) => {
                actions.push(ClientAction::Finish);
            },
            Err(text) => {
                actions.push(ClientAction::Fail(text.to_owned()));
            },
        }
        proof {
            assert(client_action_views(actions@) =~= earlier + closing_actions(self@));
        }
    }

    fn send_audio(&self, actions: &mut Vec<ClientAction>, audio: Vec<u8>)
        ensures
            client_action_views(final(actions)@) == client_action_views(old(actions)@)
                + audio_actions(self@, audio@),
    {
        let ghost earlier = client_action_views(actions@);
        if !self.buffered {
            actions.push(ClientAction::SendAudio { bytes: audio, failure: None });
            proof {
                assert(client_action_views(actions@) =~= earlier + audio_actions(self@, audio@));
            }
            return;
        }
        proof {
            law_frames_make_up_the_recording(audio@);
        }
        let total = audio.len();
        let frames = split_frames(&audio);
        push_frames(actions, frames, total, self.headless);
        let ghost sent = frames_actions(frames_of(audio@), 0, audio@.len(), self.headless);
        let ghost framed = actions@;
        proof {
            assert(client_action_views(framed) == earlier + sent);
        }
        if self.headless {
            actions.push(
                ClientAction::Echo(
                    "meeting audio upload complete; waiting for transcription".to_owned(),
                ),
            );
        }
        proof {
            if self.headless {
                let word = actions@[framed.len() as int];
                assert(client_action_views(actions@) =~= client_action_views(framed).push(word@));
            }
            assert(client_action_views(actions@) =~= earlier + audio_actions(self@, audio@));
        }
    }
}

fn push_reaction(actions: &mut Vec<ClientAction>, reaction: Reaction)
    ensures
        client_action_views(final(actions)@) == client_action_views(old(actions)@)
            + reaction_actions(reaction@),
{
    let ghost earlier = client_action_views(actions@);
    if let Some(text) = reaction.log {
        actions.push(ClientAction::Log(text));
    }
    if let Some(text) = reaction.transcript {
        actions.push(ClientAction::Write(text));
    }
    if let Some(event) = reaction.event {
        actions.push(ClientAction::Keep(event));
    }
    if let Some(text) = reaction.echo {
        actions.push(ClientAction::Echo(text));
    }
    proof {
        assert(client_action_views(actions@) =~= earlier + reaction_actions(reaction@));
    }
}

fn push_frames(actions: &mut Vec<ClientAction>, frames: Vec<Vec<u8>>, total: usize, headless: bool)
    requires
        concatenation(byte_views(frames@)).len() == total,
    ensures
        client_action_views(final(actions)@) == client_action_views(old(actions)@)
            + frames_actions(byte_views(frames@), 0, total as nat, headless),
{
    let ghost all = byte_views(frames@);
    let ghost source = frames@;
    let ghost wanted = client_action_views(actions@) + frames_actions(
        all,
        0,
        total as nat,
        headless,
    );
    let mut offset: usize = 0;
    proof {
        assert(all.skip(0) =~= all);
    }
    for frame in it: frames
        invariant
            it.seq() == source,
            all == byte_views(source),
            offset + concatenation(all.skip(it.index())).len() == total,
            client_action_views(actions@) + frames_actions(
                all.skip(it.index()),
                offset as nat,
                total as nat,
                headless,
            ) == wanted,
    {
        let ghost i = it.index();
        let ghost rest = all.skip(i);
        let ghost earlier = client_action_views(actions@);
        let size = frame.len();
        proof {
            assert(rest[0] == frame@);
            assert(rest.skip(1) =~= all.skip(i + 1));
            lemma_concatenation(rest);
        }
        let progress = upload_progress(offset, size, total);
        actions.push(
            ClientAction::SendAudio { bytes: frame, failure: Some(upload_failure(offset)) },
        );
        if headless {
            if let Some(text) = progress {
                actions.push(ClientAction::Echo(text));
            }
        }
        proof {
            let done = frame_actions(frame@, offset as nat, total as nat, headless);
            assert(client_action_views(actions@) =~= earlier + done);
            let later = frames_actions(
                all.skip(i + 1),
                (offset + size) as nat,
                total as nat,
                headless,
            );
            assert(earlier + (done + later) =~= client_action_views(actions@) + later);
        }
        offset = offset + size;
    }
    proof {
        assert(all.skip(all.len() as int) =~= Seq::<Seq<u8>>::empty());
        assert(client_action_views(actions@) + Seq::<ClientActionView>::empty()
            =~= client_action_views(actions@));
    }
}

// ---------------------------------------------------------------------------
// Laws
// ---------------------------------------------------------------------------

/// What the server gets of what the client does.
pub open spec fn delivered(actions: Seq<ClientActionView>) -> Seq<IncomingContent>
    decreases actions.len(),
{
    if actions.len() == 0 {
        Seq::empty()
    } else {
        let before = delivered(actions.drop_last());
        match actions.last() {
            ClientActionView::SendAudio { bytes, .. } => before.push(
                IncomingContent::Audio(bytes),
            ),
            ClientActionView::Send(message) => before.push(IncomingContent::Message(message)),
            ClientActionView::SendLast(message) => before.push(IncomingContent::Message(message)),
            _ => before,
        }
    }
}

proof fn lemma_delivered(a: Seq<ClientActionView>, b: Seq<ClientActionView>)
    ensures
        delivered(a + b) == delivered(a) + delivered(b),
    decreases b.len(),
{
    if b.len() == 0 {
        assert(a + b =~= a);
        assert(delivered(a) + delivered(b) =~= delivered(a));
    } else {
        lemma_delivered(a, b.drop_last());
        assert((a + b).drop_last() =~= a + b.drop_last());
        assert((a + b).last() == b.last());
        assert(delivered(a + b) =~= delivered(a) + delivered(b));
    }
}

/// Frames as they come in.
spec fn as_audio(frames: Seq<Seq<u8>>) -> Seq<IncomingContent> {
    frames.map_values(|f: Seq<u8>| IncomingContent::Audio(f))
}

proof fn lemma_delivered_one(action: ClientActionView)
    ensures
        delivered(seq![action]) == (match action {
            ClientActionView::SendAudio { bytes, .. } => seq![IncomingContent::Audio(bytes)],
            ClientActionView::Send(message) => seq![IncomingContent::Message(message)],
            ClientActionView::SendLast(message) => seq![IncomingContent::Message(message)],
            _ => Seq::empty(),
        }),
{
    let actions = seq![action];
    assert(actions.drop_last() =~= Seq::<ClientActionView>::empty());
    assert(delivered(actions.drop_last()) =~= Seq::<IncomingContent>::empty());
    assert(actions.last() == action);
}

proof fn lemma_frames_delivered(
    frames: Seq<Seq<u8>>,
    offset: nat,
    total: nat,
    headless: bool,
)
    ensures
        delivered(frames_actions(frames, offset, total, headless)) == as_audio(frames),
    decreases frames.len(),
{
    if frames.len() == 0 {
        assert(as_audio(frames) =~= Seq::<IncomingContent>::empty());
    } else {
        let first = frame_actions(frames[0], offset, total, headless);
        let rest = frames_actions(frames.skip(1), offset + frames[0].len(), total, headless);
        lemma_frames_delivered(frames.skip(1), offset + frames[0].len(), total, headless);
        lemma_delivered(first, rest);
        lemma_delivered_one(first[0]);
        if first.len() == 2 {
            lemma_delivered_one(first[1]);
            lemma_delivered(seq![first[0]], seq![first[1]]);
            assert(first =~= seq![first[0]] + seq![first[1]]);
        } else {
            assert(first =~= seq![first[0]]);
        }
        assert(delivered(first) =~= seq![IncomingContent::Audio(frames[0])]);
        assert(as_audio(frames) =~= seq![IncomingContent::Audio(frames[0])] + as_audio(
            frames.skip(1),
        ));
    }
}

/// A recording reaches the server as its frames, and then the end of the audio.
pub proof fn law_recording_is_delivered(state: ExchangeState, audio: Seq<u8>)
    requires
        state.buffered,
        !state.draining,
    ensures
        delivered(
            exchange_actions(state, EventView::Audio(audio)) + exchange_actions(
                exchange_after(state, EventView::Audio(audio)),
                EventView::AudioOver,
            ),
        ) == upload(frames_of(audio)),
{
    let frames = frames_of(audio);
    let sent = frames_actions(frames, 0, audio.len(), state.headless);
    let actions = audio_actions(state, audio);
    let end = ClientActionView::SendLast(ClientContent::AudioEnd);
    lemma_frames_delivered(frames, 0, audio.len(), state.headless);
    if state.headless {
        let word = ClientActionView::Echo(
            "meeting audio upload complete; waiting for transcription"@,
        );
        lemma_delivered(sent, seq![word]);
        lemma_delivered_one(word);
    } else {
        assert(actions =~= sent);
    }
    assert(delivered(actions) =~= as_audio(frames));
    lemma_delivered(actions, seq![end]);
    lemma_delivered_one(end);
    assert(as_audio(frames) + seq![IncomingContent::Message(ClientContent::AudioEnd)] =~= upload(
        frames,
    ));
}

/// A recording that the client sends is transcribed by the server as it was, in
/// one piece.
pub proof fn law_recording_is_transcribed(
    state: ExchangeState,
    server: SessionState,
    audio: Seq<u8>,
)
    requires
        state.buffered,
        !state.draining,
        collecting(server),
        server.buffered.len() == 0,
        0 < audio.len() <= server.policy.max_audio_bytes,
    ensures
        run(
            server,
            delivered(
                exchange_actions(state, EventView::Audio(audio)) + exchange_actions(
                    exchange_after(state, EventView::Audio(audio)),
                    EventView::AudioOver,
                ),
            ),
        ) == seq![
            ActionContent::Transcribe { sequence: (server.sequence + 1) as u64, audio },
            ActionContent::Finish,
        ],
{
    law_recording_is_delivered(state, audio);
    law_recording_arrives_whole(server, audio);
}

/// Whether the session is over after these actions.
pub open spec fn is_over(actions: Seq<ClientActionView>) -> bool {
    actions.len() > 0 && (actions.last() is Finish || actions.last() is Fail)
}

/// The state after a whole course of events.
pub open spec fn exchange_run(state: ExchangeState, events: Seq<EventView>) -> ExchangeState
    decreases events.len(),
{
    if events.len() == 0 {
        state
    } else {
        exchange_after(exchange_run(state, events.drop_last()), events.last())
    }
}

/// The pieces of transcript among the events.
pub open spec fn pieces_in(events: Seq<EventView>) -> nat
    decreases events.len(),
{
    if events.len() == 0 {
        0
    } else {
        pieces_in(events.drop_last()) + (match events.last() {
            EventView::Message(ServerContent::TranscriptFinal(_)) => 1nat,
            _ => 0nat,
        })
    }
}

proof fn lemma_pieces_are_counted(state: ExchangeState, events: Seq<EventView>)
    requires
        state.transcripts + pieces_in(events) <= u64::MAX,
    ensures
        exchange_run(state, events).transcripts == state.transcripts + pieces_in(events),
        exchange_run(state, events).headless == state.headless,
        exchange_run(state, events).buffered == state.buffered,
    decreases events.len(),
{
    if events.len() > 0 {
        lemma_pieces_are_counted(state, events.drop_last());
    }
}

/// A session without a terminal succeeds only where a piece of the transcript has
/// come: when the connection is closed, it fails exactly where there was none.
pub proof fn law_silence_is_a_failure(state: ExchangeState, events: Seq<EventView>)
    requires
        state.headless,
        state.transcripts == 0,
        pieces_in(events) <= u64::MAX,
        exchange_run(state, events).draining,
    ensures
        ({
            let actions = exchange_actions(exchange_run(state, events), EventView::Close);
            &&& is_over(actions)
            &&& actions.last() is Fail <==> pieces_in(events) == 0
        }),
{
    lemma_pieces_are_counted(state, events);
}

/// Every piece of the transcript is written down and kept.
pub proof fn law_transcript_is_written(state: ExchangeState, event: EventContent)
    ensures
        ({
            let actions = exchange_actions(
                state,
                EventView::Message(ServerContent::TranscriptFinal(event)),
            );
            &&& actions.contains(ClientActionView::Write(transcript_line(event)))
            &&& actions.contains(ClientActionView::Keep(event))
        }),
{
    let actions = exchange_actions(
        state,
        EventView::Message(ServerContent::TranscriptFinal(event)),
    );
    assert(actions[1] == ClientActionView::Write(transcript_line(event)));
    assert(actions[2] == ClientActionView::Keep(event));
}

/// An error of the server ends the session.
pub proof fn law_server_error_ends_the_session(
    state: ExchangeState,
    code: Seq<char>,
    message: Seq<char>,
)
    ensures
        exchange_actions(state, EventView::Message(ServerContent::Error { code, message }))
            == seq![ClientActionView::Fail("server error "@ + code + ": "@ + message)],
{
}

// ---------------------------------------------------------------------------
// Laws of single steps
// ---------------------------------------------------------------------------

/// Whether an action sends something to the server.
pub open spec fn sends(action: ClientActionView) -> bool {
    action is SendAudio || action is Send || action is SendLast
}

/// Once all audio has been sent, or the server has closed the connection, nothing
/// is sent any more, and it stays so.
pub proof fn law_nothing_is_sent_at_the_end(state: ExchangeState, event: EventView)
    requires
        state.draining,
    ensures
        exchange_after(state, event).draining,
        forall|k: int|
            0 <= k < exchange_actions(state, event).len() ==> !sends(
                #[trigger] exchange_actions(state, event)[k],
            ),
{
    let actions = exchange_actions(state, event);
    if let EventView::Message(message) = event {
        lemma_reaction_actions(state, message);
    }
}

proof fn lemma_reaction_actions(state: ExchangeState, message: ServerContent)
    ensures
        forall|k: int|
            0 <= k < message_actions(state, message).len() ==> {
                let action = #[trigger] message_actions(state, message)[k];
                action is Log || action is Write || action is Keep || action is Echo
                    || action is Fail
            },
        message_actions(state, message).len() <= 4,
{
}

/// The end of the audio is told to the server last, and from then on the client
/// only waits.
pub proof fn law_end_is_told(state: ExchangeState)
    requires
        !state.draining,
    ensures
        exchange_actions(state, EventView::AudioOver).len() == 1,
        exchange_actions(state, EventView::AudioOver)[0] == ClientActionView::SendLast(
            ClientContent::AudioEnd,
        ),
        exchange_after(state, EventView::AudioOver).draining,
{
}

/// A chunk that is captured live is sent at once, as it is.
pub proof fn law_live_chunks_are_sent(state: ExchangeState, audio: Seq<u8>)
    requires
        !state.buffered,
        !state.draining,
    ensures
        exchange_actions(state, EventView::Audio(audio)).len() == 1,
        exchange_actions(state, EventView::Audio(audio))[0] matches ClientActionView::SendAudio {
            bytes,
            ..
        } && bytes == audio,
        exchange_after(state, EventView::Audio(audio)) == state,
{
}

/// Each frame of an upload is sent with what to say of it where that fails: where
/// in the recording it starts.
pub proof fn law_frames_know_their_place(
    frames: Seq<Seq<u8>>,
    offset: nat,
    total: nat,
    headless: bool,
    k: int,
)
    requires
        0 <= k < frames_actions(frames, offset, total, headless).len(),
        frames_actions(frames, offset, total, headless)[k] is SendAudio,
    ensures
        exists|i: int|
            0 <= i < frames.len() && frames_actions(frames, offset, total, headless)[k] == (
            ClientActionView::SendAudio {
                bytes: #[trigger] frames[i],
                failure: Some(
                    "uploading meeting audio at byte offset "@ + decimal(
                        offset + concatenation(frames.take(i)).len(),
                    ),
                ),
            }),
    decreases frames.len(),
{
    let first = frame_actions(frames[0], offset, total, headless);
    let rest = frames.skip(1);
    let later = frames_actions(rest, offset + frames[0].len(), total, headless);
    let actions = frames_actions(frames, offset, total, headless);
    assert(actions == first + later);
    if k < first.len() {
        assert(actions[k] == first[k]);
        assert(frames.take(0) =~= Seq::<Seq<u8>>::empty());
        assert(concatenation(frames.take(0)).len() == 0);
        assert(frames[0] == frames[0]);
    } else {
        assert(actions[k] == later[k - first.len()]);
        law_frames_know_their_place(
            rest,
            offset + frames[0].len(),
            total,
            headless,
            k - first.len(),
        );
        let i = choose|i: int|
            0 <= i < rest.len() && later[k - first.len()] == (ClientActionView::SendAudio {
                bytes: #[trigger] rest[i],
                failure: Some(
                    "uploading meeting audio at byte offset "@ + decimal(
                        offset + frames[0].len() + concatenation(rest.take(i)).len(),
                    ),
                ),
            });
        assert(rest[i] == frames[i + 1]);
        lemma_concatenation(frames.take(i + 1));
        assert(frames.take(i + 1).skip(1) =~= rest.take(i));
        assert(frames.take(i + 1)[0] == frames[0]);
    }
}

/// While the client sends, it shows that it is alive with pings that hold the
/// time; a wish to stop ends the capture and not the session.
pub proof fn law_pings_and_interrupts(state: ExchangeState, now: i64)
    requires
        !state.draining,
    ensures
        exchange_actions(state, EventView::Tick(now)).len() == 1,
        exchange_actions(state, EventView::Tick(now))[0] == ClientActionView::Send(
            ClientContent::Ping { nonce: signed_decimal(now as int) },
        ),
        exchange_actions(state, EventView::Interrupt).contains(ClientActionView::Quit),
        !is_over(exchange_actions(state, EventView::Interrupt)),
        exchange_after(state, EventView::Tick(now)) == state,
        exchange_after(state, EventView::Interrupt) == state,
{
    assert(exchange_actions(state, EventView::Interrupt)[0] == ClientActionView::Quit);
}

/// A failure of the connection is a failure of the session with what is said of
/// it, unless only the last transcripts were awaited at a terminal and the
/// connection was closed. A text that is no message is always one.
pub proof fn law_lost_connections(
    state: ExchangeState,
    failure: ConnectionFailure,
    text: Seq<char>,
)
    ensures
        ({
            let actions = exchange_actions(state, EventView::Lost(failure, text));
            if state.draining && !state.headless && failure != ConnectionFailure::Other {
                actions.last() is Finish && actions.contains(ClientActionView::Quit)
            } else {
                actions.len() == 1 && actions[0] == ClientActionView::Fail(text)
            }
        }),
        exchange_actions(state, EventView::Malformed(text)).last() == ClientActionView::Fail(text),
{
    let actions = exchange_actions(state, EventView::Lost(failure, text));
    if state.draining && !state.headless && failure != ConnectionFailure::Other {
        assert(actions[0] == ClientActionView::Quit);
    }
}

/// When the server closes the connection the session is over, at once where all
/// audio has been sent, and otherwise the client only waits from then on.
pub proof fn law_closed_connections(state: ExchangeState)
    ensures
        state.draining ==> is_over(exchange_actions(state, EventView::Close)),
        !state.draining ==> exchange_actions(state, EventView::Close).len() == 0,
        exchange_after(state, EventView::Close).draining,
{
}

/// Nothing is written down or kept but final pieces of the transcript, each once,
/// and each is counted.
pub proof fn law_only_pieces_are_written(state: ExchangeState, event: EventView, k: int)
    requires
        0 <= k < exchange_actions(state, event).len(),
        exchange_actions(state, event)[k] is Write || exchange_actions(state, event)[k] is Keep,
    ensures
        event matches EventView::Message(ServerContent::TranscriptFinal(piece)) && (
        exchange_actions(state, event)[k] == ClientActionView::Write(transcript_line(piece))
            || exchange_actions(state, event)[k] == ClientActionView::Keep(piece)),
        forall|j: int|
            0 <= j < exchange_actions(state, event).len() && #[trigger] exchange_actions(
                state,
                event,
            )[j] == exchange_actions(state, event)[k] ==> j == k,
        state.transcripts < u64::MAX ==> exchange_after(state, event).transcripts
            == state.transcripts + 1,
{
    let actions = exchange_actions(state, event);
    match event {
        EventView::Message(message) => {
            assert(actions == message_actions(state, message));
        },
        EventView::Audio(audio) => {
            if !state.draining && state.buffered {
                lemma_frames_only_send(frames_of(audio), 0, audio.len(), state.headless);
            }
        },
        _ => {},
    }
}

proof fn lemma_frames_only_send(frames: Seq<Seq<u8>>, offset: nat, total: nat, headless: bool)
    ensures
        forall|k: int|
            0 <= k < frames_actions(frames, offset, total, headless).len() ==> {
                let action = #[trigger] frames_actions(frames, offset, total, headless)[k];
                action is SendAudio || action is Echo
            },
    decreases frames.len(),
{
    if frames.len() > 0 {
        let first = frame_actions(frames[0], offset, total, headless);
        let later = frames_actions(frames.skip(1), offset + frames[0].len(), total, headless);
        lemma_frames_only_send(frames.skip(1), offset + frames[0].len(), total, headless);
        assert forall|k: int| 0 <= k < (first + later).len() implies {
            let action = #[trigger] (first + later)[k];
            action is SendAudio || action is Echo
        } by {
            if k < first.len() {
                assert((first + later)[k] == first[k]);
            } else {
                assert((first + later)[k] == later[k - first.len()]);
            }
        }
    }
}

/// What is said of what comes in is what it is and what it holds, and what is said
/// of an action is what is done with what.
pub proof fn law_contents_of_an_exchange(event: ClientEvent, action: ClientAction)
    ensures
        match event {
            ClientEvent::Audio(audio) => event@ == EventView::Audio(audio@),
            ClientEvent::AudioOver => event@ is AudioOver,
            ClientEvent::Message(message) => event@ == EventView::Message(message@),
            ClientEvent::Malformed(reason) => event@ == EventView::Malformed(reason@),
            ClientEvent::Other => event@ is Other,
            ClientEvent::Close => event@ is Close,
            ClientEvent::Lost(failure, text) => event@ == EventView::Lost(failure, text@),
            ClientEvent::Tick(now) => event@ == EventView::Tick(now),
            ClientEvent::Interrupt => event@ is Interrupt,
        },
        match action {
            ClientAction::SendAudio { bytes, failure } => action@ == (ClientActionView::SendAudio {
                bytes: bytes@,
                failure: opt_view(failure),
            }),
            ClientAction::Send(message) => action@ == ClientActionView::Send(message@),
            ClientAction::SendLast(message) => action@ == ClientActionView::SendLast(message@),
            ClientAction::Log(text) => action@ == ClientActionView::Log(text@),
            ClientAction::Echo(text) => action@ == ClientActionView::Echo(text@),
            ClientAction::Write(text) => action@ == ClientActionView::Write(text@),
            ClientAction::Keep(event) => action@ == ClientActionView::Keep(event@),
            ClientAction::Quit => action@ is Quit,
            ClientAction::Finish => action@ is Finish,
            ClientAction::Fail(text) => action@ == ClientActionView::Fail(text@),
        },
{
}

/// At a terminal a session that comes to its end is a success, and the terminal is
/// closed; without one it is a success exactly where there was a transcript.
pub proof fn law_end_of_a_session(state: ExchangeState)
    requires
        state.draining,
    ensures
        ({
            let actions = exchange_actions(state, EventView::Close);
            &&& actions.last() is Finish <==> !state.headless || state.transcripts > 0
            &&& actions.last() is Fail <==> state.headless && state.transcripts == 0
            &&& actions.contains(ClientActionView::Quit) <==> !state.headless
        }),
{
    let actions = exchange_actions(state, EventView::Close);
    if !state.headless {
        assert(actions[0] == ClientActionView::Quit);
    }
}

/// The session changes only by what it is about: it waits for the end from the end
/// of the audio or of the connection on, and it counts the final pieces of the
/// transcript.
pub proof fn law_course_of_a_session(state: ExchangeState, event: EventView)
    requires
        state.transcripts < u64::MAX,
    ensures
        ({
            let next = exchange_after(state, event);
            &&& next.headless == state.headless
            &&& next.buffered == state.buffered
            &&& next.draining <==> state.draining || event is AudioOver || event is Close
            &&& next.transcripts == state.transcripts + (if event matches EventView::Message(
                ServerContent::TranscriptFinal(_),
            ) {
                1int
            } else {
                0int
            })
        }),
{
}

/// A user with a terminal is told nothing but through it.
pub proof fn law_nothing_is_echoed_at_a_terminal(state: ExchangeState, event: EventView, k: int)
    requires
        !state.headless,
        0 <= k < exchange_actions(state, event).len(),
    ensures
        !(exchange_actions(state, event)[k] is Echo),
{
    if let EventView::Audio(audio) = event {
        if !state.draining && state.buffered {
            let frames = frames_of(audio);
            lemma_frames_without_echo(frames, 0, audio.len());
            assert(exchange_actions(state, event) =~= frames_actions(
                frames,
                0,
                audio.len(),
                false,
            ));
        }
    }
}

proof fn lemma_frames_without_echo(frames: Seq<Seq<u8>>, offset: nat, total: nat)
    ensures
        forall|k: int|
            0 <= k < frames_actions(frames, offset, total, false).len() ==> !(
            #[trigger] frames_actions(frames, offset, total, false)[k] is Echo),
    decreases frames.len(),
{
    if frames.len() > 0 {
        let first = frame_actions(frames[0], offset, total, false);
        let later = frames_actions(frames.skip(1), offset + frames[0].len(), total, false);
        lemma_frames_without_echo(frames.skip(1), offset + frames[0].len(), total);
        assert forall|k: int| 0 <= k < (first + later).len() implies !(
        #[trigger] (first + later)[k] is Echo) by {
            if k < first.len() {
                assert((first + later)[k] == first[k]);
            } else {
                assert((first + later)[k] == later[k - first.len()]);
            }
        }
    }
}

} // verus!
