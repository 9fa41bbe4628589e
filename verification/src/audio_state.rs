//! What the parts of the client share: the streams, which of them are selected
//! and captured, and what the user has asked for.
use vstd::prelude::*;
use vstd::string::*;
use crate::config::{CaptureMode, ClientConfig};
use crate::sources::{
    configured_keys, is_selected_by, resolve_configured_sources_from, source_views,
    unavailable_texts, AudioSource, KeySet, SourceContent,
};
use crate::text::views;

verus! {

/// The streams and what the user wants of them. `recording_started_at` is in
/// nanoseconds on a clock that never goes back.
#[derive(Debug, Clone)]
pub struct AudioState {
    pub sources: Vec<AudioSource>,
    pub selected_keys: KeySet,
    pub active_ids: Vec<String>,
    pub auto_enable_new_streams: bool,
    pub capture_status: String,
    pub capture_mode: CaptureMode,
    pub recording_requested: bool,
    pub recording_started_at: Option<u64>,
    pub quit_requested: bool,
}

/// What an `AudioState` says.
#[verifier::ext_equal]
pub struct AudioContent {
    pub sources: Seq<SourceContent>,
    pub selected: Set<Seq<char>>,
    pub active: Seq<Seq<char>>,
    pub auto_enable: bool,
    pub status: Seq<char>,
    pub mode: CaptureMode,
    pub recording: bool,
    pub started: Option<u64>,
    pub quit: bool,
}

impl View for AudioState {
    type V = AudioContent;

    open spec fn view(&self) -> AudioContent {
        AudioContent {
            sources: source_views(self.sources@),
            selected: self.selected_keys@,
            active: views(self.active_ids@),
            auto_enable: self.auto_enable_new_streams,
            status: self.capture_status@,
            mode: self.capture_mode,
            recording: self.recording_requested,
            started: self.recording_started_at,
            quit: self.quit_requested,
        }
    }
}

/// The set with the identities of the sources in it.
pub open spec fn with_identities(keys: Set<Seq<char>>, sources: Seq<SourceContent>) -> Set<
    Seq<char>,
>
    decreases sources.len(),
{
    if sources.len() == 0 {
        keys
    } else {
        with_identities(keys, sources.drop_last()).insert(sources.last().identity())
    }
}

/// The identities of the sources that are not in the set, each once, in order.
pub open spec fn new_identities(keys: Set<Seq<char>>, sources: Seq<SourceContent>) -> Seq<Seq<char>>
    decreases sources.len(),
{
    if sources.len() == 0 {
        Seq::empty()
    } else {
        let before = new_identities(keys, sources.drop_last());
        if with_identities(keys, sources.drop_last()).contains(sources.last().identity()) {
            before
        } else {
            before.push(sources.last().identity())
        }
    }
}

/// The state with the sources that are there now, and with all of them selected
/// where new ones are to be adopted.
pub open spec fn adopted(state: AudioContent, sources: Seq<SourceContent>) -> AudioContent {
    AudioContent {
        sources,
        selected: if state.auto_enable {
            with_identities(state.selected, sources)
        } else {
            state.selected
        },
        ..state
    }
}

/// The streams that are adopted.
pub open spec fn adopted_keys(state: AudioContent, sources: Seq<SourceContent>) -> Seq<Seq<char>> {
    if state.auto_enable {
        new_identities(state.selected, sources)
    } else {
        Seq::empty()
    }
}

/// How capture starts out: in live mode at once, for a meeting when the user
/// says so.
pub open spec fn initial_state(
    config: ClientConfig,
    sources: Seq<SourceContent>,
    selected: Set<Seq<char>>,
) -> AudioContent {
    AudioContent {
        sources,
        selected,
        active: Seq::empty(),
        auto_enable: config.auto_enable_new_streams,
        status: "starting"@,
        mode: config.capture_mode,
        recording: config.capture_mode == CaptureMode::Live,
        started: None,
        quit: false,
    }
}

impl AudioState {
    /// Whether the selection is a proper set.
    pub open spec fn wf(&self) -> bool {
        self.selected_keys.wf()
    }

    /// Whether the stream is selected.
    pub fn is_selected(&self, source: &AudioSource) -> (r: bool)
        ensures
            r == is_selected_by(source@, self@.selected),
    {
        self.selected_keys.selects(source)
    }

    /// Notes that the user wants to quit.
    pub fn request_quit(&mut self)
        requires
            old(self).wf(),
        ensures
            final(self).wf(),
            final(self)@ == (AudioContent { quit: true, ..old(self)@ }),
    {
        self.quit_requested = true;
    }

    /// Takes over the sources that are there now, and gives the identities of
    /// those that are adopted.
    pub fn adopt(&mut self, sources: Vec<AudioSource>) -> (enabled: Vec<String>)
        requires
            old(self).wf(),
        ensures
            final(self).wf(),
            final(self)@ == adopted(old(self)@, source_views(sources@)),
            views(enabled@) == adopted_keys(old(self)@, source_views(sources@)),
    {
        let ghost start = self.selected_keys@;
        let ghost all = source_views(sources@);
        let ghost rest = self@;
        let mut enabled: Vec<String> = Vec::new();
        self.sources = sources;
        if self.auto_enable_new_streams {
            let mut keys = KeySet::new();
            std::mem::swap(&mut keys, &mut self.selected_keys);
            proof {
                assert(views(enabled@) =~= new_identities(start, all.take(0)));
            }
            for i in 0..self.sources.len()
                invariant
                    all == source_views(self.sources@),
                    keys.wf(),
                    keys@ == with_identities(start, all.take(i as int)),
                    views(enabled@) == new_identities(start, all.take(i as int)),
            {
                let ghost earlier = enabled@;
                proof {
                    assert(all.take(i + 1).drop_last() =~= all.take(i as int));
                    assert(all.take(i + 1).last() == self.sources@[i as int]@);
                }
                let key = self.sources[i].identity_key();
                if keys.insert(key.clone()) {
                    enabled.push(key);
                    proof {
                        assert(views(enabled@) =~= views(earlier).push(key@));
                    }
                }
            }
            proof {
                assert(all.take(all.len() as int) =~= all);
            }
            self.selected_keys = keys;
        }
        proof {
            assert(self@ =~= adopted(rest, all));
            assert(views(enabled@) =~= adopted_keys(rest, all));
        }
        enabled
    }
}

/// Sets up the state, with the sources that are configured selected. The second
/// result is what is to be said of those that are not there.
pub fn build_audio_state(config: &ClientConfig, sources: Vec<AudioSource>) -> (r: (
    AudioState,
    Vec<String>,
))
    ensures
        r.0.wf(),
        r.0@ == initial_state(
            *config,
            source_views(sources@),
            configured_keys(source_views(sources@), views(config.source@)),
        ),
        views(r.1@) == unavailable_texts(source_views(sources@), views(config.source@)),
{
    let (selected_keys, notes) = resolve_configured_sources_from(&sources, &config.source);
    let recording_requested = match config.capture_mode {
        CaptureMode::Live => true,
        CaptureMode::Meeting => false,
    };
    let state = AudioState {
        sources,
        selected_keys,
        active_ids: Vec::new(),
        auto_enable_new_streams: config.auto_enable_new_streams,
        capture_status: "starting".to_owned(),
        capture_mode: config.capture_mode,
        recording_requested,
        recording_started_at: None,
        quit_requested: false,
    };
    proof {
        assert(state@.active =~= Seq::<Seq<char>>::empty());
    }
    (state, notes)
}

// ---------------------------------------------------------------------------
// Laws
// ---------------------------------------------------------------------------

proof fn lemma_identities(keys: Set<Seq<char>>, sources: Seq<SourceContent>, key: Seq<char>)
    ensures
        with_identities(keys, sources).contains(key) <==> keys.contains(key) || exists|i: int|
            0 <= i < sources.len() && (#[trigger] sources[i]).identity() == key,
    decreases sources.len(),
{
    if sources.len() > 0 {
        let first = sources.drop_last();
        lemma_identities(keys, first, key);
        if exists|i: int| 0 <= i < first.len() && (#[trigger] first[i]).identity() == key {
            let i = choose|i: int| 0 <= i < first.len() && (#[trigger] first[i]).identity() == key;
            assert(sources[i].identity() == key);
        }
        if exists|i: int| 0 <= i < sources.len() && (#[trigger] sources[i]).identity() == key {
            let i = choose|i: int|
                0 <= i < sources.len() && (#[trigger] sources[i]).identity() == key;
            if i < first.len() {
                assert(first[i].identity() == key);
            }
        }
        assert(sources[sources.len() - 1] == sources.last());
    }
}

/// When streams are looked up, those that are there take the place of those that
/// were. They are all selected where new streams are to be adopted, and otherwise
/// nothing is; what was selected stays so. Nothing else changes.
pub proof fn law_adoption(
    state: AudioContent,
    sources: Seq<SourceContent>,
    key: Seq<char>,
)
    ensures
        ({
            let next = adopted(state, sources);
            &&& next.sources == sources
            &&& next.selected.contains(key) <==> state.selected.contains(key) || (state.auto_enable
                && exists|i: int|
                0 <= i < sources.len() && (#[trigger] sources[i]).identity() == key)
            &&& next.active == state.active
            &&& next.auto_enable == state.auto_enable
            &&& next.status == state.status
            &&& next.mode == state.mode
            &&& next.recording == state.recording
            &&& next.started == state.started
            &&& next.quit == state.quit
        }),
{
    lemma_identities(state.selected, sources, key);
}

/// The streams that are told to be adopted are those that are selected now and
/// were not before, each once.
pub proof fn law_adopted_streams_are_told(
    state: AudioContent,
    sources: Seq<SourceContent>,
    key: Seq<char>,
)
    ensures
        adopted_keys(state, sources).contains(key) <==> adopted(state, sources).selected.contains(
            key,
        ) && !state.selected.contains(key),
        adopted_keys(state, sources).no_duplicates(),
{
    if state.auto_enable {
        lemma_new_identities(state.selected, sources);
        assert(new_identities(state.selected, sources).contains(key) <==> with_identities(
            state.selected,
            sources,
        ).contains(key) && !state.selected.contains(key));
    }
}

proof fn lemma_new_identities(keys: Set<Seq<char>>, sources: Seq<SourceContent>)
    ensures
        forall|key: Seq<char>| #[trigger]
            new_identities(keys, sources).contains(key) <==> with_identities(
                keys,
                sources,
            ).contains(key) && !keys.contains(key),
        new_identities(keys, sources).no_duplicates(),
    decreases sources.len(),
{
    if sources.len() > 0 {
        let first = sources.drop_last();
        lemma_new_identities(keys, first);
        let before = new_identities(keys, first);
        let all = new_identities(keys, sources);
        let id = sources.last().identity();
        lemma_identities(keys, first, id);
        assert forall|key: Seq<char>| #[trigger] all.contains(key) <==> with_identities(
            keys,
            sources,
        ).contains(key) && !keys.contains(key) by {
            if before.contains(key) {
                let i = before.index_of(key);
                assert(all[i] == key);
            }
            if all.contains(key) {
                let i = all.index_of(key);
                if i < before.len() {
                    assert(before[i] == key);
                    assert(before.contains(key));
                }
            }
            if all.len() > before.len() {
                assert(all[before.len() as int] == id);
            }
        }
        assert forall|i: int, j: int| 0 <= i < all.len() && 0 <= j < all.len() && i != j implies
            all[i] != all[j] by {
            if i == before.len() {
                assert(before.contains(before[j]));
            } else if j == before.len() {
                assert(before.contains(before[i]));
            }
        }
    }
}

/// At the start nothing is captured; live capture records at once, and a meeting
/// is recorded only when the user says so.
pub proof fn law_start(
    config: ClientConfig,
    sources: Seq<SourceContent>,
    selected: Set<Seq<char>>,
)
    ensures
        ({
            let state = initial_state(config, sources, selected);
            &&& state.sources == sources
            &&& state.selected == selected
            &&& state.active.len() == 0
            &&& state.auto_enable == config.auto_enable_new_streams
            &&& state.mode == config.capture_mode
            &&& state.recording <==> config.capture_mode == CaptureMode::Live
            &&& state.started is None
            &&& !state.quit
        }),
{
}

/// What is said of the state is what it holds.
pub proof fn law_content_of_the_state(state: AudioState, i: int)
    ensures
        state@.sources.len() == state.sources@.len(),
        0 <= i < state.sources@.len() ==> state@.sources[i] == state.sources@[i]@,
        state@.active.len() == state.active_ids@.len(),
        0 <= i < state.active_ids@.len() ==> state@.active[i] == state.active_ids@[i]@,
        state@.auto_enable == state.auto_enable_new_streams,
        state@.status == state.capture_status@,
        state@.mode == state.capture_mode,
        state@.recording == state.recording_requested,
        state@.started == state.recording_started_at,
        state@.quit == state.quit_requested,
{
}

} // verus!
