//! The terminal of the client: what its keys do and what it shows.
use vstd::prelude::*;
use vstd::string::*;
use crate::audio_state::{AudioContent, AudioState};
use crate::config::CaptureMode;
use crate::sources::{
    deselected, is_selected_by, role_of, shares_key, source_views, switched, AudioSource,
    SourceContent,
};
use crate::text::{decimal, joined, opt_view, str_eq, to_decimal, views};
use crate::time::{duration_text, format_duration, SECOND};

verus! {

// ---------------------------------------------------------------------------
// The highlighted stream
// ---------------------------------------------------------------------------

/// The position that is highlighted; the first where none is.
pub open spec fn highlighted(selection: Option<usize>) -> usize {
    match selection {
        Some(at) => at,
        None => 0,
    }
}

/// The selection kept within a list of `len` streams.
pub open spec fn kept_in_list(selection: Option<usize>, len: nat) -> Option<usize> {
    if len > 0 && highlighted(selection) >= len {
        Some((len - 1) as usize)
    } else {
        selection
    }
}

/// Keeps the selection within a list of `len` streams.
pub fn keep_selection(selection: Option<usize>, len: usize) -> (r: Option<usize>)
    ensures
        r == kept_in_list(selection, len as nat),
{
    let current = match selection {
        Some(at) => at,
        None => 0,
    };
    if len > 0 && current >= len {
        Some(len - 1)
    } else {
        selection
    }
}

/// The selection moved by `delta`, but not beyond either end of the list.
pub open spec fn moved(selection: Option<usize>, len: nat, delta: int) -> Option<usize> {
    let wanted = highlighted(selection) + delta;
    if delta < 0 {
        if wanted >= 0 {
            Some(wanted as usize)
        } else {
            Some(0)
        }
    } else if len == 0 {
        Some(0)
    } else if wanted <= len - 1 {
        Some(wanted as usize)
    } else {
        Some((len - 1) as usize)
    }
}

/// Moves the selection.
pub fn move_selection(selection: Option<usize>, len: usize, delta: isize) -> (r: Option<usize>)
    requires
        delta >= 0 ==> highlighted(selection) + delta <= usize::MAX,
    ensures
        r == moved(selection, len as nat, delta as int),
{
    let current = match selection {
        Some(at) => at,
        None => 0,
    };
    let next = if delta < 0 {
        let back = (-(delta as i128)) as usize;
        if current >= back {
            current - back
        } else {
            0
        }
    } else {
        let wanted = current + delta as usize;
        let last = if len >= 1 {
            len - 1
        } else {
            0
        };
        if wanted <= last {
            wanted
        } else {
            last
        }
    };
    Some(next)
}

/// However it is moved, the selection stays within a list that is not empty.
pub proof fn law_selection_stays_in_list(selection: Option<usize>, len: nat, delta: int)
    requires
        0 < len <= usize::MAX,
    ensures
        highlighted(kept_in_list(selection, len)) < len,
        highlighted(moved(kept_in_list(selection, len), len, delta)) < len,
{
}

// ---------------------------------------------------------------------------
// Keys
// ---------------------------------------------------------------------------

/// A key that was pressed.
#[derive(Debug, Clone, Copy, PartialEq, Eq, Structural)]
pub enum Key {
    Char(char),
    Up,
    Down,
    Esc,
    Other,
}

/// What a key means.
#[derive(Debug, Clone, Copy, PartialEq, Eq, Structural)]
pub enum Command {
    Quit,
    Next,
    Previous,
    Toggle,
    ToggleAuto,
    ToggleRecording,
    Ignore,
}

/// What a key means; recording can be switched only for a meeting.
pub open spec fn command_of(key: Key, mode: CaptureMode) -> Command {
    match key {
        Key::Char(c) => if c == 'q' {
            Command::Quit
        } else if c == 'j' {
            Command::Next
        } else if c == 'k' {
            Command::Previous
        } else if c == ' ' {
            Command::Toggle
        } else if c == 'a' {
            Command::ToggleAuto
        } else if c == 'r' && mode == CaptureMode::Meeting {
            Command::ToggleRecording
        } else {
            Command::Ignore
        },
        Key::Up => Command::Previous,
        Key::Down => Command::Next,
        Key::Esc => Command::Quit,
        Key::Other => Command::Ignore,
    }
}

/// Says what a key means.
pub fn read_key(key: Key, mode: CaptureMode) -> (command: Command)
    ensures
        command == command_of(key, mode),
{
    match key {
        Key::Char(c) => if c == 'q' {
            Command::Quit
        } else if c == 'j' {
            Command::Next
        } else if c == 'k' {
            Command::Previous
        } else if c == ' ' {
            Command::Toggle
        } else if c == 'a' {
            Command::ToggleAuto
        } else if c == 'r' {
            match mode {
                CaptureMode::Meeting => Command::ToggleRecording,
                CaptureMode::Live => Command::Ignore,
            }
        } else {
            Command::Ignore
        },
        Key::Up => Command::Previous,
        Key::Down => Command::Next,
        Key::Esc => Command::Quit,
        Key::Other => Command::Ignore,
    }
}

/// `true` or `false`.
pub open spec fn flag_text(flag: bool) -> Seq<char> {
    if flag {
        "true"@
    } else {
        "false"@
    }
}

fn say_flag(flag: bool) -> (text: &'static str)
    ensures
        text@ == flag_text(flag),
{
    if flag {
        "true"
    } else {
        "false"
    }
}

/// The state, the selection and what is said, after a key. `shown` is the list
/// of streams as the user sees it.
pub open spec fn after_command(
    state: AudioContent,
    shown: Seq<SourceContent>,
    selection: Option<usize>,
    command: Command,
    now: u64,
) -> (AudioContent, Option<usize>, Option<Seq<char>>) {
    match command {
        Command::Quit => (AudioContent { quit: true, ..state }, selection, None),
        Command::Next => (state, moved(selection, shown.len(), 1), None),
        Command::Previous => (state, moved(selection, shown.len(), -1), None),
        Command::Toggle => if highlighted(selection) < shown.len() {
            let source = shown[highlighted(selection) as int];
            (
                AudioContent { selected: switched(state.selected, source, shown), ..state },
                selection,
                Some(
                    if is_selected_by(source, state.selected) {
                        "disabled "@ + source.description
                    } else {
                        "enabled "@ + source.description
                    },
                ),
            )
        } else {
            (state, selection, None)
        },
        Command::ToggleAuto => (
            AudioContent { auto_enable: !state.auto_enable, ..state },
            selection,
            Some("auto-enable new streams: "@ + flag_text(!state.auto_enable)),
        ),
        Command::ToggleRecording => if state.recording {
            (
                AudioContent {
                    recording: false,
                    started: None,
                    status: "finalizing meeting"@,
                    ..state
                },
                selection,
                Some("stopping recording; full transcription will start"@),
            )
        } else if state.selected != Set::<Seq<char>>::empty() {
            (
                AudioContent { recording: true, started: Some(now), ..state },
                selection,
                Some("meeting recording started"@),
            )
        } else {
            (state, selection, Some("select at least one audio stream before recording"@))
        },
        Command::Ignore => (state, selection, None),
    }
}

fn toggle_source(state: &mut AudioState, source: &AudioSource, shown: &Vec<AudioSource>) -> (note:
    String)
    requires
        old(state).wf(),
    ensures
        final(state).wf(),
        final(state)@ == (AudioContent {
            selected: switched(old(state)@.selected, source@, source_views(shown@)),
            ..old(state)@
        }),
        note@ == (if is_selected_by(source@, old(state)@.selected) {
            "disabled "@ + source@.description
        } else {
            "enabled "@ + source@.description
        }),
{
    let mut note = if state.is_selected(source) {
        state.selected_keys.deselect(source, shown);
        "disabled ".to_owned()
    } else {
        state.selected_keys.insert(source.identity_key());
        "enabled ".to_owned()
    };
    note.append(source.description.as_str());
    note
}

/// Does what a key means. `shown` is the list of streams as the user sees it,
/// and `now` is in nanoseconds on a clock that never goes back. The second result
/// is what is to be said.
pub fn apply_command(
    state: &mut AudioState,
    shown: &Vec<AudioSource>,
    selection: Option<usize>,
    command: Command,
    now: u64,
) -> (r: (Option<usize>, Option<String>))
    requires
        old(state).wf(),
        command == Command::Next ==> highlighted(selection) < usize::MAX,
    ensures
        final(state).wf(),
        (final(state)@, r.0, opt_view(r.1)) == after_command(
            old(state)@,
            source_views(shown@),
            selection,
            command,
            now,
        ),
{
    let ghost before = state@;
    match command {
        Command::Quit => {
            state.request_quit();
            (selection, None)
        },
        Command::Next => (move_selection(selection, shown.len(), 1), None),
        Command::Previous => (move_selection(selection, shown.len(), -1), None),
        Command::Toggle => {
            let at = match selection {
                Some(at) => at,
                None => 0,
            };
            if at < shown.len() {
                let note = toggle_source(state, &shown[at], shown);
                proof {
                    assert(source_views(shown@)[at as int] == shown@[at as int]@);
                }
                (selection, Some(note))
            } else {
                (selection, None)
            }
        },
        Command::ToggleAuto => {
            state.auto_enable_new_streams = !state.auto_enable_new_streams;
            let mut note = "auto-enable new streams: ".to_owned();
            note.append(say_flag(state.auto_enable_new_streams));
            (selection, Some(note))
        },
        Command::ToggleRecording => {
            if state.recording_requested {
                state.recording_requested = false;
                state.recording_started_at = None;
                state.capture_status = "finalizing meeting".to_owned();
                (selection, Some("stopping recording; full transcription will start".to_owned()))
            } else if !state.selected_keys.is_empty() {
                state.recording_requested = true;
                state.recording_started_at = Some(now);
                (selection, Some("meeting recording started".to_owned()))
            } else {
                (selection, Some("select at least one audio stream before recording".to_owned()))
            }
        },
        Command::Ignore => (selection, None),
    }
}

/// Space switches the highlighted stream: it is selected afterwards exactly where
/// it was not before, by whatever it was selected. Nothing else is changed.
pub proof fn law_space_switches_the_stream(
    state: AudioContent,
    shown: Seq<SourceContent>,
    selection: Option<usize>,
    now: u64,
)
    requires
        highlighted(selection) < shown.len(),
    ensures
        ({
            let source = shown[highlighted(selection) as int];
            let after = after_command(state, shown, selection, Command::Toggle, now);
            &&& is_selected_by(source, after.0.selected) == !is_selected_by(source, state.selected)
            &&& after.0 == (AudioContent { selected: after.0.selected, ..state })
            &&& after.1 == selection
        }),
{
    let source = shown[highlighted(selection) as int];
    let after = switched(state.selected, source, shown);
    if !is_selected_by(source, state.selected) {
        assert(after.contains(source.identity()) && source.is_meant(source.identity()));
    }
}

/// Space leaves the selection of a stream alone that is not highlighted, as long
/// as its identity does not mean the highlighted stream and it is not meant by
/// the identity of another one.
pub proof fn law_space_keeps_other_streams(
    state: AudioContent,
    shown: Seq<SourceContent>,
    selection: Option<usize>,
    now: u64,
    i: int,
)
    requires
        highlighted(selection) < shown.len(),
        0 <= i < shown.len(),
        i != highlighted(selection),
        !shown[highlighted(selection) as int].is_meant(shown[i].identity()),
        forall|j: int|
            0 <= j < shown.len() && j != i ==> !shown[i].is_meant(
                #[trigger] shown[j].identity(),
            ),
    ensures
        is_selected_by(
            shown[i],
            after_command(state, shown, selection, Command::Toggle, now).0.selected,
        ) == is_selected_by(shown[i], state.selected),
{
    let source = shown[highlighted(selection) as int];
    let other = shown[i];
    let keys = state.selected;
    let after = switched(keys, source, shown);
    if is_selected_by(other, keys) {
        let key = choose|key: Seq<char>| keys.contains(key) && other.is_meant(key);
        if is_selected_by(source, keys) && source.is_meant(key) {
            assert(shares_key(keys, source, other));
            assert(deselected(keys, source, shown).contains(shown[i].identity()));
            assert(after.contains(other.identity()) && other.is_meant(other.identity()));
        } else {
            assert(after.contains(key) && other.is_meant(key));
        }
    }
    if is_selected_by(other, after) {
        let key = choose|key: Seq<char>| after.contains(key) && other.is_meant(key);
        if !keys.contains(key) {
            if is_selected_by(source, keys) {
                let j = choose|j: int|
                    0 <= j < shown.len() && shares_key(keys, source, shown[j]) && key
                        == #[trigger] shown[j].identity();
                assert(j == i);
            } else {
                assert(key == shown[highlighted(selection) as int].identity());
            }
        }
    }
}

/// Whatever stream it is, also one that is not there, Space does not deselect it
/// where something selects it that does not mean the highlighted stream.
pub proof fn law_space_keeps_other_keys(
    state: AudioContent,
    shown: Seq<SourceContent>,
    selection: Option<usize>,
    now: u64,
    other: SourceContent,
    key: Seq<char>,
)
    requires
        highlighted(selection) < shown.len(),
        state.selected.contains(key),
        other.is_meant(key),
        !shown[highlighted(selection) as int].is_meant(key),
    ensures
        is_selected_by(
            other,
            after_command(state, shown, selection, Command::Toggle, now).0.selected,
        ),
{
    let after = after_command(state, shown, selection, Command::Toggle, now).0.selected;
    assert(after.contains(key) && other.is_meant(key));
}

/// Toggling the highlighted stream twice leaves it selected exactly where it was.
pub proof fn law_toggling_twice(
    state: AudioContent,
    shown: Seq<SourceContent>,
    selection: Option<usize>,
    now: u64,
    later: u64,
)
    requires
        highlighted(selection) < shown.len(),
    ensures
        ({
            let source = shown[highlighted(selection) as int];
            let once = after_command(state, shown, selection, Command::Toggle, now);
            is_selected_by(
                source,
                after_command(once.0, shown, once.1, Command::Toggle, later).0.selected,
            ) == is_selected_by(source, state.selected)
        }),
{
    let once = after_command(state, shown, selection, Command::Toggle, now);
    law_space_switches_the_stream(state, shown, selection, now);
    law_space_switches_the_stream(once.0, shown, once.1, later);
}

/// A recording is not started unless a stream is selected, and stopping one that
/// was started leaves the selection as it was.
pub proof fn law_recording_needs_a_stream(
    state: AudioContent,
    shown: Seq<SourceContent>,
    selection: Option<usize>,
    now: u64,
)
    requires
        !state.recording,
    ensures
        ({
            let next = after_command(state, shown, selection, Command::ToggleRecording, now).0;
            &&& next.recording == (state.selected != Set::<Seq<char>>::empty())
            &&& next.recording ==> !after_command(
                next,
                shown,
                selection,
                Command::ToggleRecording,
                now,
            ).0.recording
            &&& next.selected == state.selected
        }),
{
}

// ---------------------------------------------------------------------------
// What is shown
// ---------------------------------------------------------------------------

/// The line at the top.
pub open spec fn header_of(state: AudioContent, now: u64) -> Seq<char> {
    "Whisper Relay | "@ + state.status + " | active "@ + decimal(state.active.len())
        + " | auto-enable "@ + flag_text(state.auto_enable) + (match state.started {
        Some(started) => " | "@ + duration_text(
            if now >= started {
                ((now - started) / SECOND as int) as nat
            } else {
                0
            },
        ),
        None => Seq::empty(),
    })
}

/// Writes the line at the top. `now` is in nanoseconds on the clock on which the
/// recording was started.
pub fn header_line(state: &AudioState, now: u64) -> (line: String)
    ensures
        line@ == header_of(state@, now),
{
    let mut line = "Whisper Relay | ".to_owned();
    line.append(state.capture_status.as_str());
    line.append(" | active ");
    line.append(to_decimal(state.active_ids.len() as u64).as_str());
    line.append(" | auto-enable ");
    line.append(say_flag(state.auto_enable_new_streams));
    let ghost start = line@;
    match state.recording_started_at {
        Some(started) => {
            let elapsed = if now >= started {
                (now - started) / SECOND
            } else {
                0
            };
            let mut rest = " | ".to_owned();
            rest.append(format_duration(elapsed).as_str());
            line.append(rest.as_str());
        },
        None => {
            proof {
                assert(start + Seq::<char>::empty() =~= start);
            }
        },
    }
    line
}

/// How a stream is marked: captured, selected or neither.
pub open spec fn mark_of(selected: bool, active: bool) -> Seq<char> {
    if selected && active {
        "[*]"@
    } else if selected {
        "[x]"@
    } else {
        "[ ]"@
    }
}

/// A stream in the list: its mark, its description, and what else there is to
/// say of it.
#[derive(Debug)]
pub struct SourceEntry {
    pub mark: String,
    pub description: String,
    pub details: String,
}

fn holds(texts: &Vec<String>, text: &str) -> (r: bool)
    ensures
        r == views(texts@).contains(text@),
{
    for i in 0..texts.len()
        invariant
            forall|k: int| 0 <= k < i ==> #[trigger] views(texts@)[k] != text@,
    {
        if str_eq(texts[i].as_str(), text) {
            proof {
                assert(views(texts@)[i as int] == text@);
            }
            return true;
        }
    }
    false
}

/// Writes the entry of a stream.
pub fn source_entry(state: &AudioState, source: &AudioSource) -> (entry: SourceEntry)
    ensures
        entry.mark@ == mark_of(
            is_selected_by(source@, state@.selected),
            state@.active.contains(source@.id),
        ) + " "@,
        entry.description@ == source@.description,
        entry.details@ == "  "@ + role_of(source@.media_class) + "  "@ + joined(
            source@.details(),
            "  "@,
        ) + "  id="@ + source@.id,
{
    let selected = state.is_selected(source);
    let active = holds(&state.active_ids, source.id.as_str());
    let mut mark = if selected && active {
        "[*]".to_owned()
    } else if selected {
        "[x]".to_owned()
    } else {
        "[ ]".to_owned()
    };
    mark.append(" ");
    let mut details = "  ".to_owned();
    details.append(source.capture_role());
    details.append("  ");
    details.append(source.detail_label().as_str());
    details.append("  id=");
    details.append(source.id.as_str());
    SourceEntry { mark, description: source.description.clone(), details }
}

/// What the keys do.
pub open spec fn help_of(mode: CaptureMode) -> Seq<char> {
    match mode {
        CaptureMode::Meeting => "r starts/stops meeting  Space toggles stream  a toggles auto-enable  q/Esc stops and transcribes  App playback = people you hear  Microphone = you"@,
        CaptureMode::Live => "Space toggles stream  a toggles auto-enable  q/Esc quits  App playback = people you hear  Microphone = you"@,
    }
}

/// Says what the keys do.
pub fn help_text(mode: CaptureMode) -> (text: &'static str)
    ensures
        text@ == help_of(mode),
{
    match mode {
        CaptureMode::Meeting => "r starts/stops meeting  Space toggles stream  a toggles auto-enable  q/Esc stops and transcribes  App playback = people you hear  Microphone = you",
        CaptureMode::Live => "Space toggles stream  a toggles auto-enable  q/Esc quits  App playback = people you hear  Microphone = you",
    }
}

// ---------------------------------------------------------------------------
// Laws
// ---------------------------------------------------------------------------

/// What the keys are for: q and Esc quit, j and the arrow down go on, k and the
/// arrow up go back, Space and a switch, and r switches the recording of a
/// meeting. Every other key does nothing.
pub proof fn law_keys(key: Key, mode: CaptureMode)
    ensures
        command_of(key, mode) is Quit <==> key == Key::Char('q') || key == Key::Esc,
        command_of(key, mode) is Next <==> key == Key::Char('j') || key == Key::Down,
        command_of(key, mode) is Previous <==> key == Key::Char('k') || key == Key::Up,
        command_of(key, mode) is Toggle <==> key == Key::Char(' '),
        command_of(key, mode) is ToggleAuto <==> key == Key::Char('a'),
        command_of(key, mode) is ToggleRecording <==> key == Key::Char('r') && mode
            == CaptureMode::Meeting,
{
}

/// The highlight moves by one stream and stops at either end of the list.
pub proof fn law_highlight_moves_by_one(selection: Option<usize>, len: nat)
    requires
        highlighted(selection) < len <= usize::MAX,
    ensures
        highlighted(moved(selection, len, 1)) == (if highlighted(selection) + 1 < len {
            highlighted(selection) + 1
        } else {
            highlighted(selection) as int
        }),
        highlighted(moved(selection, len, -1)) == (if highlighted(selection) > 0 {
            highlighted(selection) - 1
        } else {
            0
        }),
{
}

/// A highlight that is in the list stays where it is, and one beyond its end goes
/// to the last stream.
pub proof fn law_highlight_is_kept(selection: Option<usize>, len: nat)
    requires
        0 < len <= usize::MAX,
    ensures
        highlighted(selection) < len ==> kept_in_list(selection, len) == selection,
        highlighted(selection) >= len ==> kept_in_list(selection, len) == Some((len - 1) as usize),
{
}

/// Each key changes what it is for and nothing else: quitting, the highlight, the
/// adoption of new streams, or the recording, which has its start while it runs.
pub proof fn law_commands_do_one_thing(
    state: AudioContent,
    shown: Seq<SourceContent>,
    selection: Option<usize>,
    command: Command,
    now: u64,
)
    ensures
        ({
            let (next, at, said) = after_command(state, shown, selection, command, now);
            &&& next.quit == (state.quit || command is Quit)
            &&& next.auto_enable == (state.auto_enable != command is ToggleAuto)
            &&& next.sources == state.sources
            &&& next.active == state.active
            &&& next.mode == state.mode
            &&& !(command is Toggle) ==> next.selected == state.selected
            &&& !(command is Next || command is Previous) ==> at == selection
            &&& command is Next ==> at == moved(selection, shown.len(), 1)
            &&& command is Previous ==> at == moved(selection, shown.len(), -1)
            &&& !(command is ToggleRecording) ==> {
                &&& next.recording == state.recording
                &&& next.started == state.started
                &&& next.status == state.status
            }
            &&& command is ToggleRecording && state.recording ==> !next.recording
                && next.started is None
            &&& command is ToggleRecording && !state.recording && next.recording ==> next.started
                == Some(now) && next.status == state.status
            &&& command is Quit || command is Next || command is Previous || command is Ignore
                ==> said is None
        }),
{
}

/// The user is told which stream was switched, and how.
pub proof fn law_switching_is_told(
    state: AudioContent,
    shown: Seq<SourceContent>,
    selection: Option<usize>,
    now: u64,
)
    requires
        highlighted(selection) < shown.len(),
    ensures
        ({
            let source = shown[highlighted(selection) as int];
            let (next, _, said) = after_command(state, shown, selection, Command::Toggle, now);
            if is_selected_by(source, next.selected) {
                said == Some("enabled "@ + source.description)
            } else {
                said == Some("disabled "@ + source.description)
            }
        }),
{
    law_space_switches_the_stream(state, shown, selection, now);
}

/// The line at the top tells the status, how many streams are captured, whether
/// new ones are adopted and, during a recording, for how long.
pub proof fn law_header(state: AudioContent, now: u64, seconds: nat)
    requires
        state.started matches Some(started) ==> started + seconds * 1_000_000_000 <= now < started + (
        seconds + 1) * 1_000_000_000,
    ensures
        header_of(state, now) == "Whisper Relay | "@ + state.status + " | active "@ + decimal(
            state.active.len(),
        ) + " | auto-enable "@ + (if state.auto_enable {
            "true"@
        } else {
            "false"@
        }) + (if state.started is Some {
            " | "@ + duration_text(seconds)
        } else {
            Seq::empty()
        }),
{
    if let Some(started) = state.started {
        assert((now - started) / 1_000_000_000 == seconds);
    }
}

/// A stream is marked by whether it is captured, only selected, or neither.
pub proof fn law_marks(selected: bool, active: bool)
    ensures
        mark_of(selected, active) == (if !selected {
            seq!['[', ' ', ']']
        } else if active {
            seq!['[', '*', ']']
        } else {
            seq!['[', 'x', ']']
        }),
{
    reveal_strlit("[*]");
    reveal_strlit("[x]");
    reveal_strlit("[ ]");
    assert("[*]"@ =~= seq!['[', '*', ']']);
    assert("[x]"@ =~= seq!['[', 'x', ']']);
    assert("[ ]"@ =~= seq!['[', ' ', ']']);
}

} // verus!
