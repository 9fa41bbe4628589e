//! Live capture: one chunk of audio after the other, with capture started again
//! when it fails and when the streams change.
use vstd::prelude::*;
use vstd::string::*;
use crate::audio_state::{adopted, adopted_keys, AudioContent, AudioState};
use crate::capture::{
    capture_completed, delay_after, is_completed, restart_delay, say_streams, streams_text,
};
use crate::sources::{active_streams, selected_ids, source_views, AudioSource};
use crate::text::{
    copy_texts, decimal, opt_str_view, same_texts, to_decimal, views,
};
use crate::time::SECOND;

verus! {

/// What is to be done for live capture.
#[derive(Debug)]
pub enum LiveAction {
    /// Stop the program that captures.
    StopCapture,
    /// Hand on the chunk with this number, which is complete.
    Forward { index: u64 },
    /// Remove the chunks that are left over.
    CleanChunks,
    /// Capture these streams into the file of the chunk with this number.
    StartCapture { ids: Vec<String>, index: u64 },
    /// Say something to the user.
    Log(String),
}

/// What is to be done, with texts as sequences.
#[verifier::ext_equal]
pub enum LiveActionContent {
    StopCapture,
    Forward { index: u64 },
    CleanChunks,
    StartCapture { ids: Seq<Seq<char>>, index: u64 },
    Log(Seq<char>),
}

impl View for LiveAction {
    type V = LiveActionContent;

    open spec fn view(&self) -> LiveActionContent {
        match *self {
            LiveAction::StopCapture => LiveActionContent::StopCapture,
            LiveAction::Forward { index } => LiveActionContent::Forward { index },
            LiveAction::CleanChunks => LiveActionContent::CleanChunks,
            LiveAction::StartCapture { ids, index } => LiveActionContent::StartCapture {
                ids: views(ids@),
                index,
            },
            LiveAction::Log(text) => LiveActionContent::Log(text@),
        }
    }
}

/// What a list of actions says.
pub open spec fn live_action_views(actions: Seq<LiveAction>) -> Seq<LiveActionContent> {
    actions.map_values(|a: LiveAction| a@)
}

/// Live capture. Times are in nanoseconds on a clock that never goes back.
#[derive(Debug)]
pub struct LiveCapture {
    active_ids: Vec<String>,
    next_index: u64,
    running: bool,
    restart_after: Option<u64>,
    restart_attempts: u32,
    rescanned: bool,
}

/// The state of live capture: the streams that are captured, the number of the
/// next chunk, whether the program runs, when it may be started again, how often
/// it failed in a row, and whether the last step was to look up the streams.
#[verifier::ext_equal]
pub struct LiveState {
    pub active: Seq<Seq<char>>,
    pub next_index: u64,
    pub running: bool,
    pub restart_after: Option<u64>,
    pub restart_attempts: u32,
    pub rescanned: bool,
}

impl View for LiveCapture {
    type V = LiveState;

    closed spec fn view(&self) -> LiveState {
        LiveState {
            active: views(self.active_ids@),
            next_index: self.next_index,
            running: self.running,
            restart_after: self.restart_after,
            restart_attempts: self.restart_attempts,
            rescanned: self.rescanned,
        }
    }
}

// ---------------------------------------------------------------------------
// Starting again after a failure
// ---------------------------------------------------------------------------

/// What the user is told while capture waits to be started again.
pub open spec fn retry_status(seconds: nat) -> Seq<char> {
    "capture crashed; retrying in "@ + decimal(seconds) + "s"@
}

/// What is said of a failure.
pub open spec fn failure_text(reason: Seq<char>, seconds: nat) -> Seq<char> {
    "audio capture exited ("@ + reason + "); retrying in "@ + decimal(seconds) + "s"@
}

/// The state after a failure: capture waits before it is started again, longer
/// each time.
pub open spec fn failed(state: LiveState, now: u64) -> LiveState {
    LiveState {
        running: false,
        restart_after: Some((now + delay_after(state.restart_attempts as nat) * SECOND) as u64),
        restart_attempts: if state.restart_attempts < u32::MAX {
            (state.restart_attempts + 1) as u32
        } else {
            u32::MAX
        },
        ..state
    }
}

/// The state after a chunk is complete and handed on: the next one is due.
pub open spec fn completed(state: LiveState) -> LiveState {
    LiveState { running: false, next_index: (state.next_index + 1) as u64, ..state }
}

/// What is said of a chunk that is handed on; chunks are counted from one.
pub open spec fn forwarding_text(index: nat, bytes: nat) -> Seq<char> {
    "forwarding audio chunk "@ + decimal(index + 1) + " ("@ + decimal(bytes) + " bytes)"@
}

/// Says that the chunk with a number is handed on.
pub fn say_forwarding(index: u64, bytes: usize) -> (text: String)
    requires
        index < u64::MAX,
    ensures
        text@ == forwarding_text(index as nat, bytes as nat),
{
    let mut text = "forwarding audio chunk ".to_owned();
    text.append(to_decimal(index + 1).as_str());
    text.append(" (");
    text.append(to_decimal(bytes as u64).as_str());
    text.append(" bytes)");
    text
}

fn say_retry(seconds: u64) -> (text: String)
    ensures
        text@ == retry_status(seconds as nat),
{
    let mut text = "capture crashed; retrying in ".to_owned();
    text.append(to_decimal(seconds).as_str());
    text.append("s");
    text
}

fn say_failure(reason: &str, seconds: u64) -> (text: String)
    ensures
        text@ == failure_text(reason@, seconds as nat),
{
    let mut text = "audio capture exited (".to_owned();
    text.append(reason);
    text.append("); retrying in ");
    text.append(to_decimal(seconds).as_str());
    text.append("s");
    text
}

// ---------------------------------------------------------------------------
// Looking up the streams
// ---------------------------------------------------------------------------

/// The state when other streams are to be captured: everything starts over.
pub open spec fn redirected(state: LiveState, ids: Seq<Seq<char>>) -> LiveState {
    if ids != state.active {
        LiveState {
            active: ids,
            next_index: 0,
            running: false,
            restart_after: None,
            restart_attempts: 0,
            rescanned: state.rescanned,
        }
    } else {
        state
    }
}

/// What is done then.
pub open spec fn redirect_actions(state: LiveState, ids: Seq<Seq<char>>) -> Seq<LiveActionContent> {
    if ids != state.active {
        (if state.running {
            seq![LiveActionContent::StopCapture]
        } else {
            Seq::empty()
        }).push(LiveActionContent::CleanChunks)
    } else {
        Seq::empty()
    }
}

/// Whether capture waits to be started again.
pub open spec fn waiting(state: LiveState, now: u64) -> bool {
    state.restart_after matches Some(at) && now < at
}

/// The state once the streams are settled: capture runs, unless there is nothing
/// to capture or it waits.
pub open spec fn settled(state: LiveState, now: u64) -> LiveState {
    if state.active.len() == 0 || waiting(state, now) {
        state
    } else {
        LiveState { running: true, restart_after: None, ..state }
    }
}

/// What is done once the streams are settled.
pub open spec fn settle_actions(state: LiveState, changed: bool, now: u64) -> Seq<
    LiveActionContent,
> {
    if state.active.len() == 0 {
        if changed {
            seq![
                LiveActionContent::Log(
                    "no selected PipeWire streams are currently available"@,
                ),
            ]
        } else {
            Seq::empty()
        }
    } else if waiting(state, now) {
        Seq::empty()
    } else {
        seq![
            LiveActionContent::StartCapture { ids: state.active, index: state.next_index },
            LiveActionContent::Log(streams_text("started capture for "@, state.active.len())),
        ]
    }
}

/// The whole seconds that are left to wait, at least one.
pub open spec fn seconds_left(at: u64, now: u64) -> nat {
    let seconds = (at - now) / SECOND as int;
    if seconds >= 1 {
        seconds as nat
    } else {
        1
    }
}

/// What the user is told once the streams are settled.
pub open spec fn settled_status(state: LiveState, now: u64) -> Seq<char> {
    if state.active.len() == 0 {
        "waiting for selected streams"@
    } else if waiting(state, now) {
        retry_status(seconds_left(state.restart_after->0, now))
    } else {
        streams_text("capturing "@, state.active.len())
    }
}

/// The words for the streams that have been adopted.
pub open spec fn adoption_logs(keys: Seq<Seq<char>>) -> Seq<LiveActionContent> {
    keys.map_values(|key: Seq<char>| LiveActionContent::Log("auto-enabled stream "@ + key))
}

/// Whether it has come to light that capture failed.
pub open spec fn has_failed(exit: Option<Seq<char>>) -> bool {
    exit matches Some(reason) && !is_completed(reason)
}

/// Whether it has come to light that a chunk is complete.
pub open spec fn has_completed(exit: Option<Seq<char>>) -> bool {
    exit matches Some(reason) && is_completed(reason)
}

/// The state when it has come to light how the program ended, if it did.
pub open spec fn ended(state: LiveState, exit: Option<Seq<char>>, now: u64) -> LiveState {
    if has_failed(exit) {
        failed(state, now)
    } else if has_completed(exit) {
        completed(state)
    } else {
        state
    }
}

/// What is done about it: a chunk that is complete is handed on, and a failure is
/// told.
pub open spec fn end_actions(state: LiveState, exit: Option<Seq<char>>) -> Seq<LiveActionContent> {
    match exit {
        Some(reason) => if is_completed(reason) {
            seq![LiveActionContent::Forward { index: state.next_index }]
        } else {
            seq![
                LiveActionContent::Log(
                    failure_text(reason, delay_after(state.restart_attempts as nat)),
                ),
            ]
        },
        None => Seq::empty(),
    }
}

/// The state and the actions when the streams have been looked up. `exit` is why
/// the program that captures has ended, if it has.
pub open spec fn refresh_of(
    state: LiveState,
    found: AudioContent,
    keys: Seq<Seq<char>>,
    exit: Option<Seq<char>>,
    now: u64,
) -> (LiveState, AudioContent, Seq<LiveActionContent>) {
    if found.quit {
        (
            LiveState { running: false, ..state },
            found,
            if state.running && exit is None {
                seq![LiveActionContent::StopCapture]
            } else {
                Seq::empty()
            },
        )
    } else {
        let ids = selected_ids(found.sources, found.selected);
        let after = ended(state, exit, now);
        let told = if has_failed(exit) {
            AudioContent {
                status: retry_status(delay_after(state.restart_attempts as nat)),
                ..found
            }
        } else {
            found
        };
        let changed = ids != state.active;
        let next = redirected(after, ids);
        let first = adoption_logs(keys) + end_actions(state, exit) + redirect_actions(after, ids);
        if !changed && after.running {
            (after, told, first)
        } else {
            (
                settled(next, now),
                AudioContent {
                    active: next.active,
                    status: settled_status(next, now),
                    ..told
                },
                first + settle_actions(next, changed, now),
            )
        }
    }
}

/// What the end of the program that captures means.
#[derive(Debug, Clone, Copy, PartialEq, Eq, Structural)]
pub enum LiveExit {
    /// The chunk with this number is complete and is to be handed on.
    Completed { index: u64 },
    /// Capture failed. The streams are to be looked up before the next step.
    Failed,
}

/// What comes next in live capture.
#[derive(Debug, Clone, Copy, PartialEq, Eq, Structural)]
pub enum LiveStep {
    /// Hand on a chunk.
    HandOn,
    /// Look up the streams.
    Rescan,
    /// Capture is over.
    Over,
    /// See whether the program that captures has ended, and go on after a moment.
    Watch,
}

/// What comes next. `due` is whether the time has come to look up the streams,
/// `ready` whether a chunk is there to be handed on, and `quit` whether the user
/// has quit.
pub open spec fn next_live_step(state: LiveState, due: bool, ready: bool, quit: bool) -> LiveStep {
    if ready {
        LiveStep::HandOn
    } else if due && !state.rescanned {
        LiveStep::Rescan
    } else if quit {
        LiveStep::Over
    } else {
        LiveStep::Watch
    }
}

/// The state after a step has been decided.
pub open spec fn stepped(state: LiveState, step: LiveStep) -> LiveState {
    LiveState { rescanned: step == LiveStep::Rescan, ..state }
}

impl LiveCapture {
    /// Capture that has not started.
    pub fn new() -> (capture: LiveCapture)
        ensures
            capture@ == (LiveState {
                active: Seq::empty(),
                next_index: 0,
                running: false,
                restart_after: None,
                restart_attempts: 0,
                rescanned: false,
            }),
    {
        let capture = LiveCapture {
            active_ids: Vec::new(),
            next_index: 0,
            running: false,
            restart_after: None,
            restart_attempts: 0,
            rescanned: false,
        };
        proof {
            assert(capture@.active =~= Seq::<Seq<char>>::empty());
        }
        capture
    }

    /// The number of the next chunk.
    pub fn next_index(&self) -> (index: u64)
        ensures
            index == self@.next_index,
    {
        self.next_index
    }

    /// Whether the program that captures runs.
    pub fn is_running(&self) -> (r: bool)
        ensures
            r == self@.running,
    {
        self.running
    }

    /// Says what comes next.
    pub fn step(&mut self, due: bool, ready: bool, quit_requested: bool) -> (step: LiveStep)
        ensures
            step == next_live_step(old(self)@, due, ready, quit_requested),
            final(self)@ == stepped(old(self)@, step),
    {
        let step = if ready {
            LiveStep::HandOn
        } else if due && !self.rescanned {
            LiveStep::Rescan
        } else if quit_requested {
            LiveStep::Over
        } else {
            LiveStep::Watch
        };
        self.rescanned = matches!(step, LiveStep::Rescan);
        step
    }

    fn fail(&mut self, reason: &str, now: u64) -> (r: (String, String))
        requires
            now + 16 * SECOND <= u64::MAX,
        ensures
            final(self)@ == failed(old(self)@, now),
            r.0@ == retry_status(delay_after(old(self)@.restart_attempts as nat)),
            r.1@ == failure_text(reason@, delay_after(old(self)@.restart_attempts as nat)),
    {
        proof {
            crate::capture::law_delay_grows_to_its_limit(self.restart_attempts as nat);
        }
        let delay = restart_delay(self.restart_attempts);
        let texts = (say_retry(delay), say_failure(reason, delay));
        self.running = false;
        self.restart_attempts = self.restart_attempts.saturating_add(1);
        self.restart_after = Some(now + delay * SECOND);
        texts
    }

    /// Takes note that the program that captures has ended, and says what that
    /// means. A chunk that is complete is to be handed on, and the next one is
    /// due. After a failure capture waits before it is started again; the second
    /// result is what is to be said of it.
    pub fn exited(&mut self, state: &mut AudioState, reason: &str, now: u64) -> (r: (
        LiveExit,
        Option<String>,
    ))
        requires
            old(state).wf(),
            now + 16 * SECOND <= u64::MAX,
            is_completed(reason@) ==> old(self)@.next_index < u64::MAX,
        ensures
            final(state).wf(),
            ({
                let before = old(self)@;
                let delay = delay_after(before.restart_attempts as nat);
                if is_completed(reason@) {
                    &&& r.0 == (LiveExit::Completed { index: before.next_index })
                    &&& r.1 is None
                    &&& final(self)@ == completed(before)
                    &&& final(state)@ == old(state)@
                } else {
                    &&& r.0 == LiveExit::Failed
                    &&& r.1 matches Some(text) && text@ == failure_text(reason@, delay)
                    &&& final(self)@ == failed(before, now)
                    &&& final(state)@ == (AudioContent {
                        status: retry_status(delay),
                        ..old(state)@
                    })
                }
            }),
    {
        if capture_completed(reason) {
            let index = self.complete();
            (LiveExit::Completed { index }, None)
        } else {
            let (status, text) = self.fail(reason, now);
            state.capture_status = status;
            (LiveExit::Failed, Some(text))
        }
    }

    /// Turns to the next chunk, and says which one is complete.
    fn complete(&mut self) -> (index: u64)
        requires
            old(self)@.next_index < u64::MAX,
        ensures
            index == old(self)@.next_index,
            final(self)@ == completed(old(self)@),
    {
        let index = self.next_index;
        self.running = false;
        self.next_index = index + 1;
        index
    }

    /// Takes over the sources that are there now, and says what is to be done.
    /// `exit` is why the program that captures has ended, if it has; a chunk that
    /// is complete is handed on.
    pub fn refresh(
        &mut self,
        state: &mut AudioState,
        sources: Vec<AudioSource>,
        exit: Option<&str>,
        now: u64,
    ) -> (actions: Vec<LiveAction>)
        requires
            old(state).wf(),
            now + 16 * SECOND <= u64::MAX,
            has_completed(opt_str_view(exit)) ==> old(self)@.next_index < u64::MAX,
        ensures
            final(state).wf(),
            (final(self)@, final(state)@, live_action_views(actions@)) == refresh_of(
                old(self)@,
                adopted(old(state)@, source_views(sources@)),
                adopted_keys(old(state)@, source_views(sources@)),
                opt_str_view(exit),
                now,
            ),
    {
        let ghost before = self@;
        let keys = state.adopt(sources);
        let ghost found = state@;
        let ghost reason = opt_str_view(exit);
        let ghost wanted = refresh_of(before, found, views(keys@), reason, now);
        let mut actions: Vec<LiveAction> = Vec::new();
        if state.quit_requested {
            if self.running && exit.is_none() {
                actions.push(LiveAction::StopCapture);
            }
            self.running = false;
            proof {
                assert(live_action_views(actions@) =~= wanted.2);
                assert(self@ =~= wanted.0);
            }
            return actions;
        }
        log_adoption(&mut actions, &keys);
        let ids = active_streams(&state.sources, &state.selected_keys);
        if let Some(reason) = exit {
            if capture_completed(reason) {
                let index = self.complete();
                actions.push(LiveAction::Forward { index });
            } else {
                let (status, text) = self.fail(reason, now);
                state.capture_status = status;
                actions.push(LiveAction::Log(text));
            }
        }
        let ghost first = adoption_logs(views(keys@)) + end_actions(before, reason);
        proof {
            assert(live_action_views(actions@) =~= first);
        }
        let changed = self.redirect(ids, &mut actions);
        if !changed && self.running {
            return actions;
        }
        self.settle(state, changed, &mut actions, now);
        actions
    }

    /// Turns to other streams, and says whether they are others.
    fn redirect(&mut self, ids: Vec<String>, actions: &mut Vec<LiveAction>) -> (changed: bool)
        ensures
            changed == (views(ids@) != old(self)@.active),
            final(self)@ == redirected(old(self)@, views(ids@)),
            live_action_views(final(actions)@) == live_action_views(old(actions)@)
                + redirect_actions(old(self)@, views(ids@)),
    {
        let ghost before = self@;
        let ghost wanted = views(ids@);
        let ghost earlier = live_action_views(actions@);
        let changed = !same_texts(&ids, &self.active_ids);
        if changed {
            if self.running {
                actions.push(LiveAction::StopCapture);
            }
            actions.push(LiveAction::CleanChunks);
            self.running = false;
            self.active_ids = ids;
            self.restart_after = None;
            self.restart_attempts = 0;
            self.next_index = 0;
        }
        proof {
            assert(self@ =~= redirected(before, wanted));
            assert(live_action_views(actions@) =~= earlier + redirect_actions(before, wanted));
        }
        changed
    }

    /// Starts capture, unless there is nothing to capture or it waits.
    fn settle(
        &mut self,
        state: &mut AudioState,
        changed: bool,
        actions: &mut Vec<LiveAction>,
        now: u64,
    )
        requires
            old(state).wf(),
            !old(self)@.running,
        ensures
            final(state).wf(),
            final(self)@ == settled(old(self)@, now),
            final(state)@ == (AudioContent {
                active: old(self)@.active,
                status: settled_status(old(self)@, now),
                ..old(state)@
            }),
            live_action_views(final(actions)@) == live_action_views(old(actions)@)
                + settle_actions(old(self)@, changed, now),
    {
        let ghost before = self@;
        let ghost told = state@;
        let ghost earlier = live_action_views(actions@);
        state.active_ids = copy_texts(&self.active_ids);
        let waits = match self.restart_after {
            Some(at) => now < at,
            None => false,
        };
        if self.active_ids.len() == 0 {
            state.capture_status = "waiting for selected streams".to_owned();
            if changed {
                actions.push(
                    LiveAction::Log(
                        "no selected PipeWire streams are currently available".to_owned(),
                    ),
                );
            }
        } else if waits {
            let at = match self.restart_after {
                Some(at) => at,
                None => now,
            };
            let seconds = (at - now) / SECOND;
            let left = if seconds >= 1 {
                seconds
            } else {
                1
            };
            state.capture_status = say_retry(left);
        } else {
            state.capture_status = say_streams("capturing ", self.active_ids.len());
            let text = say_streams("started capture for ", self.active_ids.len());
            actions.push(
                LiveAction::StartCapture {
                    ids: copy_texts(&self.active_ids),
                    index: self.next_index,
                },
            );
            actions.push(LiveAction::Log(text));
            self.running = true;
            self.restart_after = None;
        }
        proof {
            assert(self@ =~= settled(before, now));
            assert(state@ =~= AudioContent {
                active: before.active,
                status: settled_status(before, now),
                ..told
            });
            assert(live_action_views(actions@) =~= earlier + settle_actions(before, changed, now));
        }
    }
}

/// Says which streams have been adopted.
fn log_adoption(actions: &mut Vec<LiveAction>, keys: &Vec<String>)
    ensures
        live_action_views(final(actions)@) == live_action_views(old(actions)@) + adoption_logs(
            views(keys@),
        ),
{
    let ghost start = live_action_views(actions@);
    let ghost logs = adoption_logs(views(keys@));
    proof {
        assert(start + logs.take(0) =~= start);
    }
    for i in 0..keys.len()
        invariant
            logs == adoption_logs(views(keys@)),
            live_action_views(actions@) == start + logs.take(i as int),
    {
        let ghost earlier = actions@;
        let mut text = "auto-enabled stream ".to_owned();
        text.append(keys[i].as_str());
        actions.push(LiveAction::Log(text));
        proof {
            assert(live_action_views(actions@) =~= live_action_views(earlier).push(logs[i as int]));
            assert(start + logs.take(i + 1) =~= (start + logs.take(i as int)).push(logs[i as int]));
        }
    }
    proof {
        assert(logs.take(logs.len() as int) =~= logs);
    }
}

// ---------------------------------------------------------------------------
// Laws
// ---------------------------------------------------------------------------

/// Streams that come back are captured again: when streams are selected and
/// there, and they are not those that were captured before, capture is started
/// on them at once.
pub proof fn law_streams_are_captured_again(
    state: LiveState,
    found: AudioContent,
    keys: Seq<Seq<char>>,
    exit: Option<Seq<char>>,
    now: u64,
)
    requires
        !found.quit,
        selected_ids(found.sources, found.selected).len() > 0,
        selected_ids(found.sources, found.selected) != state.active,
    ensures
        ({
            let ids = selected_ids(found.sources, found.selected);
            let (next, told, actions) = refresh_of(state, found, keys, exit, now);
            &&& next.running
            &&& next.active == ids
            &&& told.active == ids
            &&& exists|k: int|
                0 <= k < actions.len() && #[trigger] actions[k] == (
                LiveActionContent::StartCapture { ids, index: 0 })
        }),
{
    let ids = selected_ids(found.sources, found.selected);
    let actions = refresh_of(state, found, keys, exit, now).2;
    let after = ended(state, exit, now);
    let first = adoption_logs(keys) + end_actions(state, exit) + redirect_actions(after, ids);
    let k = first.len() as int;
    assert(actions[k] == (LiveActionContent::StartCapture { ids, index: 0 }));
}

/// When all streams are gone, capture stops and waits; it does not end.
pub proof fn law_capture_waits_for_streams(
    state: LiveState,
    found: AudioContent,
    keys: Seq<Seq<char>>,
    exit: Option<Seq<char>>,
    now: u64,
)
    requires
        !found.quit,
        selected_ids(found.sources, found.selected).len() == 0,
        state.active.len() > 0,
    ensures
        ({
            let (next, told, _) = refresh_of(state, found, keys, exit, now);
            &&& !next.running
            &&& next.active.len() == 0
            &&& told.status == "waiting for selected streams"@
        }),
{
}

/// Whether an action takes the place or the number of a chunk: chunks are removed
/// or capture is started.
pub open spec fn reuses_chunks(action: LiveActionContent) -> bool {
    action is CleanChunks || action is StartCapture
}

/// A chunk that is complete is handed on exactly once, before chunks are removed
/// or capture is started, and it is no failure: capture goes on at once with the
/// next number, or from the start where the streams are others.
pub proof fn law_completed_chunk_is_forwarded_once(
    state: LiveState,
    found: AudioContent,
    keys: Seq<Seq<char>>,
    exit: Option<Seq<char>>,
    now: u64,
)
    requires
        !found.quit,
        has_completed(exit),
        state.next_index < u64::MAX,
    ensures
        ({
            let ids = selected_ids(found.sources, found.selected);
            let (next, _, actions) = refresh_of(state, found, keys, exit, now);
            let at = keys.len() as int;
            &&& 0 <= at < actions.len()
            &&& actions[at] == (LiveActionContent::Forward { index: state.next_index })
            &&& forall|k: int|
                0 <= k < actions.len() && #[trigger] actions[k] is Forward ==> k == at
            &&& forall|k: int|
                0 <= k < actions.len() && reuses_chunks(#[trigger] actions[k]) ==> k > at
            &&& ids == state.active ==> {
                &&& next.next_index == state.next_index + 1
                &&& next.restart_attempts == state.restart_attempts
                &&& next.restart_after == state.restart_after || (next.running
                    && next.restart_after is None)
            }
            &&& ids != state.active ==> next.next_index == 0 && next.restart_attempts == 0
        }),
{
    let ids = selected_ids(found.sources, found.selected);
    let after = ended(state, exit, now);
    let next = redirected(after, ids);
    let logs = adoption_logs(keys);
    let first = logs + end_actions(state, exit) + redirect_actions(after, ids);
    let last = settle_actions(next, ids != state.active, now);
    let actions = refresh_of(state, found, keys, exit, now).2;
    let at = keys.len() as int;
    assert(!after.running);
    assert(actions == first + last);
    assert(actions[at] == (LiveActionContent::Forward { index: state.next_index }));
    assert forall|k: int| 0 <= k < at implies #[trigger] actions[k] is Log by {
        assert(actions[k] == logs[k]);
    }
    assert forall|k: int| at < k < actions.len() implies !(#[trigger] actions[k] is Forward) by {
        if k < first.len() {
            assert(actions[k] == redirect_actions(after, ids)[k - at - 1]);
        } else {
            assert(actions[k] == last[k - first.len()]);
        }
    }
}

/// Nothing is handed on unless a chunk is complete.
pub proof fn law_only_completed_chunks_are_forwarded(
    state: LiveState,
    found: AudioContent,
    keys: Seq<Seq<char>>,
    exit: Option<Seq<char>>,
    now: u64,
    k: int,
)
    requires
        !has_completed(exit),
        0 <= k < refresh_of(state, found, keys, exit, now).2.len(),
    ensures
        !(refresh_of(state, found, keys, exit, now).2[k] is Forward),
{
    let actions = refresh_of(state, found, keys, exit, now).2;
    if !found.quit {
        let ids = selected_ids(found.sources, found.selected);
        let after = ended(state, exit, now);
        let next = redirected(after, ids);
        let logs = adoption_logs(keys);
        let ends = end_actions(state, exit);
        let redirects = redirect_actions(after, ids);
        let first = logs + ends + redirects;
        let last = settle_actions(next, ids != state.active, now);
        if k < logs.len() {
            assert(actions[k] == logs[k]);
        } else if k < logs.len() + ends.len() {
            assert(actions[k] == ends[k - logs.len()]);
        } else if k < first.len() {
            assert(actions[k] == redirects[k - logs.len() - ends.len()]);
        } else {
            assert(actions[k] == last[k - first.len()]);
        }
    }
}

/// A chunk that is there is handed on before anything else is done, even when the
/// user has quit.
pub proof fn law_ready_chunk_comes_first(state: LiveState, due: bool, quit: bool)
    ensures
        next_live_step(state, due, true, quit) == LiveStep::HandOn,
{
}

/// When the user quits, capture is over once no chunk is left to be handed on and
/// the streams have been looked up at most once more. Nothing else ends it.
pub proof fn law_quit_ends_capture(state: LiveState, due: bool, still_due: bool, ready: bool)
    ensures
        ({
            let step = next_live_step(state, due, false, true);
            ||| step == LiveStep::Over
            ||| step == LiveStep::Rescan && next_live_step(
                stepped(state, step),
                still_due,
                false,
                true,
            ) == LiveStep::Over
        }),
        next_live_step(state, due, ready, false) != LiveStep::Over,
{
}

/// The streams are looked up when the time has come and there is nothing to hand
/// on, but never twice without seeing in between whether the user has quit or the
/// program has ended.
pub proof fn law_due_streams_are_looked_up(
    state: LiveState,
    due: bool,
    ready: bool,
    quit: bool,
    still_due: bool,
)
    ensures
        !state.rescanned && due && !ready ==> next_live_step(state, due, ready, quit)
            == LiveStep::Rescan,
        next_live_step(state, due, ready, quit) == LiveStep::Rescan ==> next_live_step(
            stepped(state, LiveStep::Rescan),
            still_due,
            false,
            quit,
        ) == (if quit {
            LiveStep::Over
        } else {
            LiveStep::Watch
        }),
{
}

/// After a failure capture is not started again before the delay is over, as
/// long as the streams stay the same.
pub proof fn law_failed_capture_is_delayed(
    state: LiveState,
    found: AudioContent,
    keys: Seq<Seq<char>>,
    now: u64,
)
    requires
        !state.running,
        waiting(state, now),
        selected_ids(found.sources, found.selected) == state.active,
    ensures
        refresh_of(state, found, keys, None, now).0 == state,
        forall|k: int|
            0 <= k < refresh_of(state, found, keys, None, now).2.len() ==> !(
            #[trigger] refresh_of(state, found, keys, None, now).2[k] is StartCapture),
{
}

/// After a failure capture waits for as long as it failed in a row asks for, one
/// second the first time, and the user is told so. The chunk that failed is
/// captured again under its number.
pub proof fn law_failure_starts_a_wait(
    state: LiveState,
    found: AudioContent,
    keys: Seq<Seq<char>>,
    reason: Seq<char>,
    now: u64,
)
    requires
        !found.quit,
        !is_completed(reason),
        now + 16_000_000_000 <= u64::MAX,
        state.restart_attempts < u32::MAX,
        selected_ids(found.sources, found.selected) == state.active,
        state.active.len() > 0,
    ensures
        ({
            let (next, told, actions) = refresh_of(state, found, keys, Some(reason), now);
            let delay = delay_after(state.restart_attempts as nat);
            &&& !next.running
            &&& next.restart_after is Some
            &&& next.restart_after->0 - now == delay * 1_000_000_000
            &&& next.restart_attempts == state.restart_attempts + 1
            &&& next.next_index == state.next_index
            &&& next.active == state.active
            &&& told.status == "capture crashed; retrying in "@ + decimal(delay) + "s"@
            &&& actions.last() == LiveActionContent::Log(
                "audio capture exited ("@ + reason + "); retrying in "@ + decimal(delay) + "s"@,
            )
        }),
{
    crate::capture::law_delay_grows_to_its_limit(state.restart_attempts as nat);
    let (next, told, actions) = refresh_of(state, found, keys, Some(reason), now);
    let delay = delay_after(state.restart_attempts as nat);
    assert((delay * SECOND) / SECOND as int == delay);
    let after = ended(state, Some(reason), now);
    assert(waiting(after, now));
    let logs = adoption_logs(keys);
    assert(actions =~= logs + end_actions(state, Some(reason)));
}

/// When the wait is over, or there is none, capture is started again with the next
/// chunk.
pub proof fn law_capture_starts_when_it_may(
    state: LiveState,
    found: AudioContent,
    keys: Seq<Seq<char>>,
    now: u64,
)
    requires
        !found.quit,
        !state.running,
        state.restart_after matches Some(at) ==> at <= now,
        selected_ids(found.sources, found.selected) == state.active,
        state.active.len() > 0,
    ensures
        ({
            let (next, told, actions) = refresh_of(state, found, keys, None, now);
            &&& next.running
            &&& next.restart_after is None
            &&& next.next_index == state.next_index
            &&& told.active == state.active
            &&& actions.contains(
                LiveActionContent::StartCapture { ids: state.active, index: state.next_index },
            )
        }),
{
    let actions = refresh_of(state, found, keys, None, now).2;
    let first = adoption_logs(keys) + end_actions(state, None) + redirect_actions(
        state,
        state.active,
    );
    assert(actions[first.len() as int] == (LiveActionContent::StartCapture {
        ids: state.active,
        index: state.next_index,
    }));
}

/// As long as the program runs and the streams are the same, capture goes on as it
/// is.
pub proof fn law_running_capture_goes_on(
    state: LiveState,
    found: AudioContent,
    keys: Seq<Seq<char>>,
    now: u64,
    k: int,
)
    requires
        !found.quit,
        state.running,
        selected_ids(found.sources, found.selected) == state.active,
    ensures
        ({
            let (next, told, actions) = refresh_of(state, found, keys, None, now);
            &&& next == state
            &&& told == found
            &&& actions.len() == keys.len()
            &&& 0 <= k < keys.len() ==> actions[k] == LiveActionContent::Log(
                "auto-enabled stream "@ + keys[k],
            )
        }),
{
    let (next, told, actions) = refresh_of(state, found, keys, None, now);
    assert(actions =~= adoption_logs(keys));
}

/// When other streams are selected, the program that captures the old ones is
/// stopped, what is left over of them is removed, and everything starts anew: the
/// number of the chunk, the failures and the wait.
pub proof fn law_other_streams_start_anew(
    state: LiveState,
    found: AudioContent,
    keys: Seq<Seq<char>>,
    now: u64,
)
    requires
        !found.quit,
        selected_ids(found.sources, found.selected) != state.active,
    ensures
        ({
            let (next, told, actions) = refresh_of(state, found, keys, None, now);
            let ids = selected_ids(found.sources, found.selected);
            &&& next.active == ids
            &&& told.active == ids
            &&& next.next_index == 0
            &&& next.restart_attempts == 0
            &&& next.restart_after is None
            &&& next.running <==> ids.len() > 0
            &&& actions.contains(LiveActionContent::CleanChunks)
            &&& actions.contains(LiveActionContent::StopCapture) <==> state.running
        }),
{
    let ids = selected_ids(found.sources, found.selected);
    let logs = adoption_logs(keys);
    let redirects = redirect_actions(state, ids);
    let first = logs + end_actions(state, None) + redirects;
    let next = redirected(state, ids);
    let last = settle_actions(next, true, now);
    let actions = refresh_of(state, found, keys, None, now).2;
    assert(actions == first + last);
    assert(actions[first.len() - 1] == LiveActionContent::CleanChunks);
    if state.running {
        assert(actions[logs.len() as int] == LiveActionContent::StopCapture);
    }
    if actions.contains(LiveActionContent::StopCapture) {
        let k = actions.index_of(LiveActionContent::StopCapture);
        if k < logs.len() {
            assert(actions[k] == logs[k]);
        } else if k < first.len() {
            assert(actions[k] == redirects[k - logs.len()]);
        } else {
            assert(actions[k] == last[k - first.len()]);
        }
    }
}

/// When the user quits, a program that still runs is stopped, and nothing else is
/// done.
pub proof fn law_quitting_stops_capture(
    state: LiveState,
    found: AudioContent,
    keys: Seq<Seq<char>>,
    exit: Option<Seq<char>>,
    now: u64,
)
    requires
        found.quit,
    ensures
        ({
            let (next, told, actions) = refresh_of(state, found, keys, exit, now);
            &&& !next.running
            &&& told == found
            &&& actions.len() <= 1
            &&& actions.len() == 1 <==> state.running && exit is None
            &&& actions.len() == 1 ==> actions[0] is StopCapture
        }),
{
}

/// Chunks that are handed on are counted from one for the user.
pub proof fn law_words_of_a_chunk(index: nat, bytes: nat)
    ensures
        forwarding_text(index, bytes) == "forwarding audio chunk "@ + decimal(index + 1) + " ("@
            + decimal(bytes) + " bytes)"@,
{
}

/// While it waits, the user is told how many whole seconds are left, at least one.
pub proof fn law_words_of_a_wait(state: LiveState, now: u64, seconds: nat)
    requires
        state.active.len() > 0,
        state.restart_after is Some,
        seconds * 1_000_000_000 <= state.restart_after->0 - now < (seconds + 1) * 1_000_000_000,
        state.restart_after->0 > now,
    ensures
        settled_status(state, now) == "capture crashed; retrying in "@ + decimal(
            if seconds == 0 {
                1
            } else {
                seconds
            },
        ) + "s"@,
{
    assert((state.restart_after->0 - now) / 1_000_000_000 == seconds);
}

} // verus!
