//! Recording a meeting: one segment after the other as streams come and go, all
//! of them together the recording.
use vstd::prelude::*;
use vstd::string::*;
use crate::audio_state::{adopted, AudioContent, AudioState};
use crate::capture::{say_streams, segment_file, streams_text};
use crate::sources::{active_streams, selected_ids, source_views, AudioSource};
use crate::text::{copy_texts, decimal, padded, same_texts, to_decimal, views};

verus! {

/// What is to be done for the recording.
#[derive(Debug)]
pub enum MeetingAction {
    /// Stop the recorder and let it finish its file.
    StopRecorder,
    /// Record these streams into a file of this name.
    StartRecorder { ids: Vec<String>, file: String },
    /// Say something to the user.
    Log(String),
}

/// What is to be done, with texts as sequences.
#[verifier::ext_equal]
pub enum MeetingActionContent {
    StopRecorder,
    StartRecorder { ids: Seq<Seq<char>>, file: Seq<char> },
    Log(Seq<char>),
}

impl View for MeetingAction {
    type V = MeetingActionContent;

    open spec fn view(&self) -> MeetingActionContent {
        match *self {
            MeetingAction::StopRecorder => MeetingActionContent::StopRecorder,
            MeetingAction::StartRecorder { ids, file } => MeetingActionContent::StartRecorder {
                ids: views(ids@),
                file: file@,
            },
            MeetingAction::Log(text) => MeetingActionContent::Log(text@),
        }
    }
}

/// What a list of actions says.
pub open spec fn meeting_action_views(actions: Seq<MeetingAction>) -> Seq<MeetingActionContent> {
    actions.map_values(|a: MeetingAction| a@)
}

/// The recording of a meeting.
#[derive(Debug)]
pub struct MeetingCapture {
    active_ids: Vec<String>,
    recorder_running: bool,
    segments: u64,
    finished: bool,
}

/// The state of the recording: the streams that are recorded, whether the
/// recorder runs, how many segments there are, and whether it is over.
#[verifier::ext_equal]
pub struct MeetingState {
    pub active: Seq<Seq<char>>,
    pub running: bool,
    pub segments: u64,
    pub finished: bool,
}

impl View for MeetingCapture {
    type V = MeetingState;

    closed spec fn view(&self) -> MeetingState {
        MeetingState {
            active: views(self.active_ids@),
            running: self.recorder_running,
            segments: self.segments,
            finished: self.finished,
        }
    }
}

/// The name of the file of a segment.
pub open spec fn segment_name(index: u64) -> Seq<char> {
    "meeting-"@ + padded(index as nat, 5) + ".wav"@
}

/// Whether a segment is started: not while one is being recorded, nor without
/// streams.
pub open spec fn can_start(state: MeetingState) -> bool {
    !state.running && state.active.len() > 0
}

/// The state after a segment is started, where that can be.
pub open spec fn segment_started(state: MeetingState) -> MeetingState {
    if can_start(state) {
        MeetingState { running: true, segments: (state.segments + 1) as u64, ..state }
    } else {
        state
    }
}

/// What is done to start a segment, where that can be.
pub open spec fn start_actions(state: MeetingState) -> Seq<MeetingActionContent> {
    if can_start(state) {
        seq![
            MeetingActionContent::StartRecorder {
                ids: state.active,
                file: segment_name(state.segments),
            },
            MeetingActionContent::Log(
                streams_text("recording meeting from "@, state.active.len()),
            ),
        ]
    } else {
        Seq::empty()
    }
}

/// The state when the streams that are selected have been looked up: when they
/// are not those that are being recorded, the segment is over.
pub open spec fn retargeted(state: MeetingState, ids: Seq<Seq<char>>) -> MeetingState {
    if ids != state.active {
        MeetingState { active: ids, running: false, ..state }
    } else {
        state
    }
}

/// What is done then.
pub open spec fn retarget_actions(state: MeetingState, ids: Seq<Seq<char>>) -> Seq<
    MeetingActionContent,
> {
    if ids != state.active && state.running {
        seq![MeetingActionContent::StopRecorder]
    } else {
        Seq::empty()
    }
}

/// The state after the streams have been looked up: while the user records, a
/// segment runs whenever there is something to record.
pub open spec fn refreshed(state: MeetingState, ids: Seq<Seq<char>>, recording: bool) -> MeetingState {
    let next = retargeted(state, ids);
    if recording {
        segment_started(next)
    } else {
        next
    }
}

/// What is done after the streams have been looked up.
pub open spec fn refresh_actions(
    state: MeetingState,
    ids: Seq<Seq<char>>,
    recording: bool,
) -> Seq<MeetingActionContent> {
    retarget_actions(state, ids) + (if recording {
        start_actions(retargeted(state, ids))
    } else {
        Seq::empty()
    })
}

/// What the user is told of the recording.
pub open spec fn meeting_status(recording: bool, streams: nat) -> Seq<char> {
    if !recording {
        "ready; press r to record"@
    } else if streams == 0 {
        "recording; waiting for selected streams"@
    } else {
        streams_text("recording "@, streams)
    }
}

/// What comes next in a recording.
#[derive(Debug, Clone, Copy, PartialEq, Eq, Structural)]
pub enum MeetingStep {
    /// The recording is over, and there is none.
    Over,
    /// Stop recording and put the segments together.
    Finish,
    /// Go on.
    Watch,
}

/// What comes next: the user has stopped, the user has quit, or neither.
pub open spec fn next_step(state: MeetingState, recording: bool, quit: bool) -> MeetingStep {
    if state.finished {
        MeetingStep::Over
    } else if !recording && state.segments > 0 {
        MeetingStep::Finish
    } else if quit {
        if state.running || state.segments > 0 {
            MeetingStep::Finish
        } else {
            MeetingStep::Over
        }
    } else {
        MeetingStep::Watch
    }
}

impl MeetingCapture {
    /// A recording without segments.
    pub fn new() -> (capture: MeetingCapture)
        ensures
            capture@ == (MeetingState {
                active: Seq::empty(),
                running: false,
                segments: 0,
                finished: false,
            }),
    {
        let capture = MeetingCapture {
            active_ids: Vec::new(),
            recorder_running: false,
            segments: 0,
            finished: false,
        };
        proof {
            assert(capture@.active =~= Seq::<Seq<char>>::empty());
        }
        capture
    }

    /// The streams that are recorded.
    pub fn active_ids(&self) -> (ids: &Vec<String>)
        ensures
            views(ids@) == self@.active,
    {
        &self.active_ids
    }

    /// Whether the recorder runs.
    pub fn recorder_running(&self) -> (r: bool)
        ensures
            r == self@.running,
    {
        self.recorder_running
    }

    /// Whether the recording is over.
    pub fn is_finished(&self) -> (r: bool)
        ensures
            r == self@.finished,
    {
        self.finished
    }

    /// Says what comes next.
    pub fn step(&mut self, recording_requested: bool, quit_requested: bool) -> (step: MeetingStep)
        ensures
            step == next_step(old(self)@, recording_requested, quit_requested),
            final(self)@ == (MeetingState {
                finished: old(self)@.finished || step == MeetingStep::Over,
                ..old(self)@
            }),
    {
        if self.finished {
            return MeetingStep::Over;
        }
        if !recording_requested && self.segments > 0 {
            return MeetingStep::Finish;
        }
        if quit_requested {
            if self.recorder_running || self.segments > 0 {
                return MeetingStep::Finish;
            }
            self.finished = true;
            return MeetingStep::Over;
        }
        MeetingStep::Watch
    }

    fn start_segment(&mut self, actions: &mut Vec<MeetingAction>)
        requires
            old(self)@.segments < u64::MAX,
        ensures
            final(self)@ == segment_started(old(self)@),
            meeting_action_views(final(actions)@) == meeting_action_views(old(actions)@)
                + start_actions(old(self)@),
    {
        let ghost before = self@;
        let ghost earlier = meeting_action_views(actions@);
        if !self.recorder_running && self.active_ids.len() > 0 {
            let file = segment_file(self.segments);
            let text = say_streams("recording meeting from ", self.active_ids.len());
            actions.push(
                MeetingAction::StartRecorder { ids: copy_texts(&self.active_ids), file },
            );
            actions.push(MeetingAction::Log(text));
            self.recorder_running = true;
            self.segments = self.segments + 1;
        }
        proof {
            assert(self@ =~= segment_started(before));
            assert(meeting_action_views(actions@) =~= earlier + start_actions(before));
        }
    }

    /// Takes over the sources that are there now, and says what is to be done
    /// for the recording.
    pub fn refresh(&mut self, state: &mut AudioState, sources: Vec<AudioSource>) -> (actions: Vec<
        MeetingAction,
    >)
        requires
            old(state).wf(),
            old(self)@.segments < u64::MAX,
        ensures
            final(state).wf(),
            ({
                let found = adopted(old(state)@, source_views(sources@));
                let ids = selected_ids(found.sources, found.selected);
                let next = refreshed(old(self)@, ids, found.recording);
                &&& final(self)@ == next
                &&& meeting_action_views(actions@) == refresh_actions(
                    old(self)@,
                    ids,
                    found.recording,
                )
                &&& final(state)@ == (AudioContent {
                    active: next.active,
                    status: meeting_status(found.recording, next.active.len()),
                    ..found
                })
            }),
    {
        let ghost before = self@;
        state.adopt(sources);
        let ghost found = state@;
        let mut actions: Vec<MeetingAction> = Vec::new();
        let ids = active_streams(&state.sources, &state.selected_keys);
        let ghost wanted = views(ids@);
        if !same_texts(&ids, &self.active_ids) {
            if self.recorder_running {
                actions.push(MeetingAction::StopRecorder);
                self.recorder_running = false;
            }
            self.active_ids = ids;
        }
        proof {
            assert(self@ =~= retargeted(before, wanted));
            assert(meeting_action_views(actions@) =~= retarget_actions(before, wanted));
        }
        if state.recording_requested {
            self.start_segment(&mut actions);
        }
        proof {
            assert(self@ =~= refreshed(before, wanted, found.recording));
            assert(meeting_action_views(actions@) =~= refresh_actions(
                before,
                wanted,
                found.recording,
            ));
        }
        state.active_ids = copy_texts(&self.active_ids);
        state.capture_status =
        if !state.recording_requested {
            "ready; press r to record".to_owned()
        } else if self.active_ids.len() == 0 {
            "recording; waiting for selected streams".to_owned()
        } else {
            say_streams("recording ", self.active_ids.len())
        };
        proof {
            assert(state@ =~= AudioContent {
                active: self@.active,
                status: meeting_status(found.recording, self@.active.len()),
                ..found
            });
        }
        actions
    }

    /// Takes note that the recorder ended by itself, and says what is to be done:
    /// a new segment is started.
    pub fn recorder_exited(&mut self, reason: &str) -> (actions: Vec<MeetingAction>)
        requires
            old(self)@.segments < u64::MAX,
        ensures
            ({
                let stopped = MeetingState { running: false, ..old(self)@ };
                &&& final(self)@ == segment_started(stopped)
                &&& meeting_action_views(actions@) == seq![
                    MeetingActionContent::Log(
                        "meeting recorder exited unexpectedly ("@ + reason@ + ")"@,
                    ),
                ] + start_actions(stopped)
            }),
    {
        let mut text = "meeting recorder exited unexpectedly (".to_owned();
        text.append(reason);
        text.append(")");
        let mut actions: Vec<MeetingAction> = Vec::new();
        actions.push(MeetingAction::Log(text));
        proof {
            assert(meeting_action_views(actions@) =~= seq![MeetingActionContent::Log(text@)]);
        }
        self.recorder_running = false;
        self.start_segment(&mut actions);
        actions
    }

    /// Ends the recording: the recorder stops if it runs, and the segments are to
    /// be put together. The result says whether a recorder is to be stopped.
    pub fn finish(&mut self, state: &mut AudioState) -> (stop: bool)
        requires
            old(state).wf(),
        ensures
            final(state).wf(),
            stop == old(self)@.running,
            final(self)@ == (MeetingState { running: false, finished: true, ..old(self)@ }),
            final(state)@ == (AudioContent {
                active: Seq::empty(),
                status: "preparing full meeting upload"@,
                ..old(state)@
            }),
    {
        let stop = self.recorder_running;
        self.recorder_running = false;
        self.finished = true;
        state.capture_status = "preparing full meeting upload".to_owned();
        state.active_ids = Vec::new();
        proof {
            assert(state@.active =~= Seq::<Seq<char>>::empty());
        }
        stop
    }
}

/// Says that the recorder did not end with success.
pub fn finalized_text(status: &str) -> (text: String)
    ensures
        text@ == "meeting recorder finalized with "@ + status@,
{
    let mut text = "meeting recorder finalized with ".to_owned();
    text.append(status);
    text
}

/// Says where the recording was saved.
pub fn saved_text(path: &str) -> (text: String)
    ensures
        text@ == "saved recording to "@ + path@,
{
    let mut text = "saved recording to ".to_owned();
    text.append(path);
    text
}

/// Says how much is uploaded, in whole mebibytes.
pub fn uploading_text(bytes: usize) -> (text: String)
    ensures
        text@ == "uploading full meeting ("@ + decimal(bytes as nat / 1_048_576) + " MiB)"@,
{
    let mut text = "uploading full meeting (".to_owned();
    text.append(to_decimal(bytes as u64 / 1_048_576).as_str());
    text.append(" MiB)");
    text
}

// ---------------------------------------------------------------------------
// Laws
// ---------------------------------------------------------------------------

/// While the user records and there are streams, a recorder runs on exactly the
/// streams that are selected.
pub proof fn law_selected_streams_are_recorded(state: MeetingState, ids: Seq<Seq<char>>)
    requires
        ids.len() > 0,
    ensures
        refreshed(state, ids, true).running,
        refreshed(state, ids, true).active == ids,
{
}

/// When the streams change during a recording, the segment is finished and a new
/// one is started with the streams that are there now; the segments before it
/// are kept.
pub proof fn law_change_starts_a_segment(state: MeetingState, ids: Seq<Seq<char>>)
    requires
        state.running,
        ids != state.active,
        ids.len() > 0,
        state.segments < u64::MAX,
    ensures
        refreshed(state, ids, true).segments == state.segments + 1,
        refresh_actions(state, ids, true)[0] == MeetingActionContent::StopRecorder,
        refresh_actions(state, ids, true)[1] == (MeetingActionContent::StartRecorder {
            ids,
            file: segment_name(state.segments),
        }),
{
}

/// Whatever happens to the streams, no segment is lost: their number never
/// shrinks, and it grows exactly when a recorder is started.
pub proof fn law_segments_are_kept(state: MeetingState, ids: Seq<Seq<char>>, recording: bool)
    requires
        state.segments < u64::MAX,
    ensures
        refreshed(state, ids, recording).segments == state.segments || refreshed(
            state,
            ids,
            recording,
        ).segments == state.segments + 1,
        refreshed(state, ids, recording).segments > state.segments <==> exists|k: int|
            0 <= k < refresh_actions(state, ids, recording).len() && #[trigger] refresh_actions(
                state,
                ids,
                recording,
            )[k] is StartRecorder,
{
    let actions = refresh_actions(state, ids, recording);
    let first = retarget_actions(state, ids);
    if recording && can_start(retargeted(state, ids)) {
        assert(actions[first.len() as int] is StartRecorder);
    } else {
        assert(actions =~= first);
    }
}

/// A recording that has segments is never thrown away: when the user stops or
/// quits, it is finished.
pub proof fn law_recording_is_not_lost(state: MeetingState, recording: bool, quit: bool)
    requires
        !state.finished,
        state.segments > 0,
        quit || !recording,
    ensures
        next_step(state, recording, quit) == MeetingStep::Finish,
{
}

/// What comes next in a recording: it is over where it was finished before, or
/// where the user quits and there is nothing; it is finished where there is
/// something and the user stops or quits; otherwise it goes on.
pub proof fn law_steps(state: MeetingState, recording: bool, quit: bool)
    ensures
        next_step(state, recording, quit) is Finish <==> !state.finished && (state.segments > 0 && (
        !recording || quit) || quit && state.running),
        next_step(state, recording, quit) is Watch <==> !state.finished && !quit && (recording
            || state.segments == 0),
{
}

/// A recorder is started only while the user records, on the streams that are
/// selected, where there are any and it does not run on them already. Each segment
/// has a file of its own, by its number.
pub proof fn law_start_of_a_segment(
    state: MeetingState,
    ids: Seq<Seq<char>>,
    recording: bool,
    k: int,
)
    requires
        0 <= k < refresh_actions(state, ids, recording).len(),
        refresh_actions(state, ids, recording)[k] is StartRecorder,
    ensures
        recording,
        ids.len() > 0,
        !state.running || ids != state.active,
        refresh_actions(state, ids, recording)[k] == (MeetingActionContent::StartRecorder {
            ids,
            file: "meeting-"@ + padded(state.segments as nat, 5) + ".wav"@,
        }),
{
    let first = retarget_actions(state, ids);
    let actions = refresh_actions(state, ids, recording);
    if k < first.len() {
        assert(actions[k] == first[k]);
    } else {
        assert(actions[k] == start_actions(retargeted(state, ids))[k - first.len()]);
    }
}

/// A recorder is stopped exactly where it runs on other streams than those that are
/// selected; the streams that are recorded are always those.
pub proof fn law_end_of_a_segment(state: MeetingState, ids: Seq<Seq<char>>, recording: bool)
    ensures
        refresh_actions(state, ids, recording).contains(MeetingActionContent::StopRecorder)
            <==> state.running && ids != state.active,
        refreshed(state, ids, recording).active == ids,
        refreshed(state, ids, recording).finished == state.finished,
        refreshed(state, ids, recording).running <==> (state.running && ids == state.active) || (
        recording && ids.len() > 0),
{
    let first = retarget_actions(state, ids);
    let actions = refresh_actions(state, ids, recording);
    if state.running && ids != state.active {
        assert(actions[0] == MeetingActionContent::StopRecorder);
    }
    if actions.contains(MeetingActionContent::StopRecorder) {
        let k = actions.index_of(MeetingActionContent::StopRecorder);
        if k < first.len() {
            assert(actions[k] == first[k]);
        } else {
            assert(actions[k] == start_actions(retargeted(state, ids))[k - first.len()]);
        }
    }
}

/// The user is told whether the meeting is recorded and from how many streams.
pub proof fn law_words_of_a_meeting(recording: bool, streams: nat)
    ensures
        meeting_status(recording, streams) == (if !recording {
            "ready; press r to record"@
        } else if streams == 0 {
            "recording; waiting for selected streams"@
        } else {
            "recording "@ + decimal(streams) + " stream(s)"@
        }),
{
}

} // verus!
