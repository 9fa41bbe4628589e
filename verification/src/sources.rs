//! The audio streams that can be captured, and which of them are.
use vstd::prelude::*;
use vstd::string::*;
use crate::text::{
    before, decimal, joined, lemma_text_order, lemma_text_transitive, opt_view, str_eq, text_before,
    to_decimal, views,
};

verus! {

// ---------------------------------------------------------------------------
// Sources
// ---------------------------------------------------------------------------

/// A stream that can be captured.
#[derive(Debug, Clone, PartialEq, Eq)]
pub struct AudioSource {
    pub id: String,
    pub name: String,
    pub description: String,
    pub media_class: String,
    pub application_name: Option<String>,
    pub binary_name: Option<String>,
}

/// What an `AudioSource` says.
#[verifier::ext_equal]
pub struct SourceContent {
    pub id: Seq<char>,
    pub name: Seq<char>,
    pub description: Seq<char>,
    pub media_class: Seq<char>,
    pub application_name: Option<Seq<char>>,
    pub binary_name: Option<Seq<char>>,
}

impl View for AudioSource {
    type V = SourceContent;

    open spec fn view(&self) -> SourceContent {
        SourceContent {
            id: self.id@,
            name: self.name@,
            description: self.description@,
            media_class: self.media_class@,
            application_name: opt_view(self.application_name),
            binary_name: opt_view(self.binary_name),
        }
    }
}

/// What a list of sources says.
pub open spec fn source_views(sources: Seq<AudioSource>) -> Seq<SourceContent> {
    sources.map_values(|s: AudioSource| s@)
}

/// What the class of a stream means to the user.
pub open spec fn role_of(media_class: Seq<char>) -> Seq<char> {
    if media_class == "Stream/Output/Audio"@ {
        "App playback"@
    } else if media_class == "Audio/Source"@ {
        "Microphone"@
    } else if media_class == "Audio/Sink"@ {
        "Speaker output"@
    } else if media_class == "Stream/Input/Audio"@ {
        "App mic input"@
    } else {
        "Audio"@
    }
}

/// What a stream of a class is good for.
pub open spec fn recommendation_of(media_class: Seq<char>) -> Seq<char> {
    if media_class == "Stream/Output/Audio"@ {
        "capture this for other people speaking in this app"@
    } else if media_class == "Audio/Source"@ {
        "capture this for your microphone"@
    } else if media_class == "Audio/Sink"@ {
        "capture this for everything routed to this output device"@
    } else if media_class == "Stream/Input/Audio"@ {
        "usually not needed; this is what the app captures from your mic"@
    } else {
        "audio stream"@
    }
}

/// How early a stream of a class is listed.
pub open spec fn rank_of(media_class: Seq<char>) -> u8 {
    if media_class == "Stream/Output/Audio"@ {
        0
    } else if media_class == "Audio/Source"@ {
        1
    } else if media_class == "Audio/Sink"@ {
        2
    } else if media_class == "Stream/Input/Audio"@ {
        3
    } else {
        4
    }
}

impl SourceContent {
    /// What identifies the stream over the times that it comes and goes.
    pub open spec fn identity(self) -> Seq<char> {
        self.media_class + ":"@ + self.name
    }

    /// Whether the user means this stream by `configured`.
    pub open spec fn is_meant(self, configured: Seq<char>) -> bool {
        ||| configured == self.id
        ||| configured == self.name
        ||| configured == self.description
        ||| configured == self.identity()
    }

    /// The parts of the description in detail.
    pub open spec fn details(self) -> Seq<Seq<char>> {
        let start = seq![self.media_class, self.name];
        let named = match self.application_name {
            Some(name) => if name != self.description {
                start.push("app="@ + name)
            } else {
                start
            },
            None => start,
        };
        match self.binary_name {
            Some(name) => named.push("bin="@ + name),
            None => named,
        }
    }
}

impl AudioSource {
    /// What identifies the stream over the times that it comes and goes.
    pub fn identity_key(&self) -> (key: String)
        ensures
            key@ == self@.identity(),
    {
        let mut key = self.media_class.clone();
        key.append(":");
        key.append(self.name.as_str());
        key
    }

    /// Whether the user means this stream by `configured`: its number, its name,
    /// its description or its identity.
    pub fn matches_configured(&self, configured: &str) -> (r: bool)
        ensures
            r == self@.is_meant(configured@),
    {
        str_eq(configured, self.id.as_str()) || str_eq(configured, self.name.as_str()) || str_eq(
            configured,
            self.description.as_str(),
        ) || str_eq(configured, self.identity_key().as_str())
    }

    /// What the stream means to the user.
    pub fn capture_role(&self) -> (role: &'static str)
        ensures
            role@ == role_of(self@.media_class),
    {
        let class = self.media_class.as_str();
        if str_eq(class, "Stream/Output/Audio") {
            "App playback"
        } else if str_eq(class, "Audio/Source") {
            "Microphone"
        } else if str_eq(class, "Audio/Sink") {
            "Speaker output"
        } else if str_eq(class, "Stream/Input/Audio") {
            "App mic input"
        } else {
            "Audio"
        }
    }

    /// What the stream is good for.
    pub fn recommendation(&self) -> (text: &'static str)
        ensures
            text@ == recommendation_of(self@.media_class),
    {
        let class = self.media_class.as_str();
        if str_eq(class, "Stream/Output/Audio") {
            "capture this for other people speaking in this app"
        } else if str_eq(class, "Audio/Source") {
            "capture this for your microphone"
        } else if str_eq(class, "Audio/Sink") {
            "capture this for everything routed to this output device"
        } else if str_eq(class, "Stream/Input/Audio") {
            "usually not needed; this is what the app captures from your mic"
        } else {
            "audio stream"
        }
    }

    /// The description in detail.
    pub fn detail_label(&self) -> (label: String)
        ensures
            label@ == joined(self@.details(), "  "@),
    {
        let mut label = self.media_class.clone();
        label.append("  ");
        label.append(self.name.as_str());
        let ghost start = seq![self@.media_class, self@.name];
        proof {
            assert(start.drop_last() =~= seq![self@.media_class]);
            assert(joined(start.drop_last(), "  "@) == self@.media_class);
            assert(joined(start, "  "@) =~= label@);
        }
        let ghost mut parts = start;
        if let Some(name) = &self.application_name {
            if !str_eq(name.as_str(), self.description.as_str()) {
                label.append("  ");
                label.append("app=");
                label.append(name.as_str());
                proof {
                    parts = start.push("app="@ + name@);
                    assert(parts.drop_last() =~= start);
                    assert(joined(parts, "  "@) =~= label@);
                }
            }
        }
        if let Some(name) = &self.binary_name {
            label.append("  ");
            label.append("bin=");
            label.append(name.as_str());
            proof {
                let longer = parts.push("bin="@ + name@);
                assert(longer.drop_last() =~= parts);
                assert(joined(longer, "  "@) =~= label@);
            }
        }
        label
    }

    /// How early the stream is listed.
    pub fn sort_rank(&self) -> (rank: u8)
        ensures
            rank == rank_of(self@.media_class),
    {
        let class = self.media_class.as_str();
        if str_eq(class, "Stream/Output/Audio") {
            0
        } else if str_eq(class, "Audio/Source") {
            1
        } else if str_eq(class, "Audio/Sink") {
            2
        } else if str_eq(class, "Stream/Input/Audio") {
            3
        } else {
            4
        }
    }

    /// The line that lists the stream, its fields separated by tabs.
    pub fn listing(&self) -> (line: String)
        ensures
            line@ == self@.id + "\t"@ + self@.identity() + "\t"@ + self@.media_class + "\t"@
                + role_of(self@.media_class) + "\t"@ + recommendation_of(self@.media_class)
                + "\t"@ + self@.name + "\t"@ + self@.description,
    {
        let mut line = self.id.clone();
        line.append("\t");
        line.append(self.identity_key().as_str());
        line.append("\t");
        line.append(self.media_class.as_str());
        line.append("\t");
        line.append(self.capture_role());
        line.append("\t");
        line.append(self.recommendation());
        line.append("\t");
        line.append(self.name.as_str());
        line.append("\t");
        line.append(self.description.as_str());
        line
    }
}

// ---------------------------------------------------------------------------
// Discovering sources
// ---------------------------------------------------------------------------

/// An object of the sound system, with those of its properties that matter.
#[derive(Debug)]
pub struct AudioNode {
    pub id: u64,
    pub media_class: Option<String>,
    pub name: Option<String>,
    pub description: Option<String>,
    pub application_name: Option<String>,
    pub binary_name: Option<String>,
}

/// Whether objects of a class can be captured.
pub open spec fn is_audio_class(media_class: Seq<char>) -> bool {
    ||| media_class == "Audio/Source"@
    ||| media_class == "Audio/Sink"@
    ||| media_class == "Stream/Output/Audio"@
    ||| media_class == "Stream/Input/Audio"@
}

/// The source that an object is, if it is one. Without a name it goes by its
/// number, and without a description by that of the application or by its name.
pub open spec fn source_of(node: AudioNode) -> Option<SourceContent> {
    match node.media_class {
        Some(media_class) => if is_audio_class(media_class@) {
            let name = match node.name {
                Some(name) => name@,
                None => decimal(node.id as nat),
            };
            Some(
                SourceContent {
                    id: decimal(node.id as nat),
                    name,
                    description: match (node.description, node.application_name) {
                        (Some(description), _) => description@,
                        (None, Some(application)) => application@,
                        (None, None) => name,
                    },
                    media_class: media_class@,
                    application_name: opt_view(node.application_name),
                    binary_name: opt_view(node.binary_name),
                },
            )
        } else {
            None
        },
        None => None,
    }
}

fn source_from(node: AudioNode) -> (source: Option<AudioSource>)
    ensures
        match source {
            Some(source) => source_of(node) == Some(source@),
            None => source_of(node) is None,
        },
{
    let media_class = match node.media_class {
        Some(media_class) => media_class,
        None => return None,
    };
    let class = media_class.as_str();
    if !(str_eq(class, "Audio/Source") || str_eq(class, "Audio/Sink") || str_eq(
        class,
        "Stream/Output/Audio",
    ) || str_eq(class, "Stream/Input/Audio")) {
        return None;
    }
    let id = to_decimal(node.id);
    let name = match node.name {
        Some(name) => name,
        None => id.clone(),
    };
    let description = match node.description {
        Some(description) => description,
        None => match &node.application_name {
            Some(application) => application.clone(),
            None => name.clone(),
        },
    };
    Some(
        AudioSource {
            id,
            name,
            description,
            media_class,
            application_name: node.application_name,
            binary_name: node.binary_name,
        },
    )
}

/// Whether `a` is listed before `b`: by class, then by description, then by
/// number.
pub open spec fn listed_before(a: SourceContent, b: SourceContent) -> bool {
    let ra = rank_of(a.media_class);
    let rb = rank_of(b.media_class);
    if ra != rb {
        ra < rb
    } else if a.description != b.description {
        text_before(a.description, b.description)
    } else {
        text_before(a.id, b.id)
    }
}

fn goes_before(a: &AudioSource, b: &AudioSource) -> (r: bool)
    ensures
        r == listed_before(a@, b@),
{
    let ra = a.sort_rank();
    let rb = b.sort_rank();
    if ra != rb {
        ra < rb
    } else if !str_eq(a.description.as_str(), b.description.as_str()) {
        before(a.description.as_str(), b.description.as_str())
    } else {
        before(a.id.as_str(), b.id.as_str())
    }
}

/// `list` with `source` put in behind those that are not listed after it.
pub open spec fn put_in_list(list: Seq<SourceContent>, source: SourceContent) -> Seq<SourceContent>
    decreases list.len(),
{
    if list.len() > 0 && listed_before(source, list.last()) {
        put_in_list(list.drop_last(), source).push(list.last())
    } else {
        list.push(source)
    }
}

/// The sources among the objects, in the order in which they are listed.
pub open spec fn sources_of(nodes: Seq<AudioNode>) -> Seq<SourceContent>
    decreases nodes.len(),
{
    if nodes.len() == 0 {
        Seq::empty()
    } else {
        match source_of(nodes.last()) {
            Some(source) => put_in_list(sources_of(nodes.drop_last()), source),
            None => sources_of(nodes.drop_last()),
        }
    }
}

proof fn lemma_put_in_list(list: Seq<SourceContent>, source: SourceContent, at: int)
    requires
        0 <= at <= list.len(),
        at > 0 ==> !listed_before(source, list[at - 1]),
        forall|k: int| at <= k < list.len() ==> listed_before(source, #[trigger] list[k]),
    ensures
        put_in_list(list, source) == list.insert(at, source),
    decreases list.len(),
{
    if list.len() > at {
        let first = list.drop_last();
        assert forall|k: int| at <= k < first.len() implies listed_before(
            source,
            #[trigger] first[k],
        ) by {
            assert(first[k] == list[k]);
        }
        lemma_put_in_list(first, source, at);
        assert(list[list.len() - 1] == list.last());
        assert(first.insert(at, source).push(list.last()) =~= list.insert(at, source));
    } else {
        assert(list.push(source) =~= list.insert(at, source));
    }
}

/// Finds the sources among the objects of the sound system and lists them.
pub fn list_sources(nodes: Vec<AudioNode>) -> (sources: Vec<AudioSource>)
    ensures
        source_views(sources@) == sources_of(nodes@),
{
    let ghost all = nodes@;
    let mut sources: Vec<AudioSource> = Vec::new();
    proof {
        assert(source_views(sources@) =~= sources_of(all.take(0)));
    }
    for node in it: nodes
        invariant
            it.seq() == all,
            source_views(sources@) == sources_of(all.take(it.index())),
    {
        let ghost i = it.index();
        let ghost list = source_views(sources@);
        proof {
            assert(all.take(i + 1).drop_last() =~= all.take(i));
            assert(all.take(i + 1).last() == node);
        }
        if let Some(source) = source_from(node) {
            let mut at: usize = sources.len();
            while at > 0 && goes_before(&source, &sources[at - 1])
                invariant
                    at <= sources@.len(),
                    list == source_views(sources@),
                    forall|k: int|
                        at <= k < list.len() ==> listed_before(source@, #[trigger] list[k]),
                decreases at,
            {
                proof {
                    assert(list[at - 1] == sources@[at - 1]@);
                }
                at = at - 1;
            }
            proof {
                if at > 0 {
                    assert(list[at - 1] == sources@[at - 1]@);
                }
                lemma_put_in_list(list, source@, at as int);
            }
            sources.insert(at, source);
            proof {
                assert(source_views(sources@) =~= list.insert(at as int, source@));
            }
        }
    }
    proof {
        assert(all.take(all.len() as int) =~= all);
    }
    sources
}

// ---------------------------------------------------------------------------
// Selected streams
// ---------------------------------------------------------------------------

/// A set of texts that each mean a stream.
#[derive(Debug, Clone)]
pub struct KeySet {
    keys: Vec<String>,
}

impl View for KeySet {
    type V = Set<Seq<char>>;

    closed spec fn view(&self) -> Set<Seq<char>> {
        views(self.keys@).to_set()
    }
}

impl KeySet {
    /// Whether no text is in the set twice.
    pub closed spec fn wf(&self) -> bool {
        views(self.keys@).no_duplicates()
    }

    /// The empty set.
    pub fn new() -> (set: KeySet)
        ensures
            set.wf(),
            set@ == Set::<Seq<char>>::empty(),
    {
        let set = KeySet { keys: Vec::new() };
        proof {
            assert(set@ =~= Set::<Seq<char>>::empty());
        }
        set
    }

    fn position(&self, key: &str) -> (at: usize)
        ensures
            at <= self.keys@.len(),
            at < self.keys@.len() ==> views(self.keys@)[at as int] == key@,
            at == self.keys@.len() ==> !self@.contains(key@),
    {
        for i in 0..self.keys.len()
            invariant
                forall|k: int| 0 <= k < i ==> #[trigger] views(self.keys@)[k] != key@,
        {
            if str_eq(self.keys[i].as_str(), key) {
                return i;
            }
        }
        self.keys.len()
    }

    /// Whether a text is in the set.
    pub fn contains(&self, key: &str) -> (r: bool)
        ensures
            r == self@.contains(key@),
    {
        let at = self.position(key);
        proof {
            if at < self.keys@.len() {
                assert(views(self.keys@).contains(key@));
            }
        }
        at < self.keys.len()
    }

    /// Whether the set is empty.
    pub fn is_empty(&self) -> (r: bool)
        ensures
            r == (self@ == Set::<Seq<char>>::empty()),
    {
        let r = self.keys.len() == 0;
        proof {
            if r {
                assert(self@ =~= Set::<Seq<char>>::empty());
            } else {
                assert(views(self.keys@).contains(views(self.keys@)[0]));
                assert(self@.contains(views(self.keys@)[0]));
            }
        }
        r
    }

    /// Puts a text into the set, and says whether it was not there yet.
    pub fn insert(&mut self, key: String) -> (new: bool)
        requires
            old(self).wf(),
        ensures
            final(self).wf(),
            final(self)@ == old(self)@.insert(key@),
            new == !old(self)@.contains(key@),
    {
        let ghost before = views(self.keys@);
        if self.contains(key.as_str()) {
            proof {
                assert(self@ =~= self@.insert(key@));
            }
            false
        } else {
            self.keys.push(key);
            proof {
                let after = views(self.keys@);
                assert(after =~= before.push(key@));
                assert forall|i: int, j: int|
                    0 <= i < after.len() && 0 <= j < after.len() && i != j implies after[i]
                    != after[j] by {
                    if i == before.len() {
                        assert(before.contains(before[j]));
                    } else if j == before.len() {
                        assert(before.contains(before[i]));
                    }
                }
                assert forall|k: Seq<char>| after.to_set().contains(k) == before.to_set().insert(
                    key@,
                ).contains(k) by {
                    if before.contains(k) {
                        let i = choose|i: int| 0 <= i < before.len() && before[i] == k;
                        assert(after[i] == k);
                    }
                    if k == key@ {
                        assert(after[before.len() as int] == k);
                    }
                }
                assert(self@ =~= old(self)@.insert(key@));
            }
            true
        }
    }

    /// Whether one of the texts means the source.
    pub fn selects(&self, source: &AudioSource) -> (r: bool)
        ensures
            r == is_selected_by(source@, self@),
    {
        for i in 0..self.keys.len()
            invariant
                forall|k: int|
                    0 <= k < i ==> !source@.is_meant(#[trigger] views(self.keys@)[k]),
        {
            if source.matches_configured(self.keys[i].as_str()) {
                proof {
                    let key = views(self.keys@)[i as int];
                    assert(views(self.keys@).contains(key));
                    assert(self@.contains(key));
                }
                return true;
            }
        }
        proof {
            assert forall|key: Seq<char>| self@.contains(key) implies !source@.is_meant(key) by {
                let k = choose|k: int| 0 <= k < self.keys@.len() && views(self.keys@)[k] == key;
                assert(views(self.keys@)[k] == key);
            }
        }
        false
    }

    /// Takes out the texts that mean a source. The other sources that are shown
    /// and that those texts meant are put in by their identities.
    pub fn deselect(&mut self, source: &AudioSource, shown: &Vec<AudioSource>)
        requires
            old(self).wf(),
        ensures
            final(self).wf(),
            final(self)@ == deselected(old(self)@, source@, source_views(shown@)),
    {
        let ghost before = self@;
        let ghost keys = views(self.keys@);
        let ghost all = source_views(shown@);
        let mut kept = KeySet::new();
        let mut removed: Vec<String> = Vec::new();
        for i in 0..self.keys.len()
            invariant
                keys == views(self.keys@),
                kept.wf(),
                forall|key: Seq<char>|
                    #[trigger] kept@.contains(key) <==> keys.take(i as int).contains(key)
                        && !source@.is_meant(key),
                forall|key: Seq<char>|
                    #[trigger] views(removed@).contains(key) <==> keys.take(i as int).contains(key)
                        && source@.is_meant(key),
        {
            let key = self.keys[i].clone();
            let ghost earlier = removed@;
            proof {
                lemma_taken(keys, i as int);
                assert(keys[i as int] == key@);
            }
            if source.matches_configured(key.as_str()) {
                removed.push(key);
                proof {
                    assert(views(removed@) =~= views(earlier).push(key@));
                    lemma_pushed(views(earlier), key@);
                }
            } else {
                kept.insert(key);
            }
        }
        proof {
            assert(keys.take(keys.len() as int) =~= keys);
            assert(kept@ =~= deselected(before, source@, all.take(0)));
        }
        for i in 0..shown.len()
            invariant
                all == source_views(shown@),
                kept.wf(),
                forall|key: Seq<char>|
                    #[trigger] views(removed@).contains(key) <==> before.contains(key)
                        && source@.is_meant(key),
                kept@ == deselected(before, source@, all.take(i as int)),
        {
            let other = &shown[i];
            let identity = other.identity_key();
            let ghost id = identity@;
            let shared = one_means(&removed, other);
            proof {
                assert(all[i as int] == other@);
                if shared {
                    let k = choose|k: int|
                        0 <= k < removed@.len() && other@.is_meant(#[trigger] views(removed@)[k]);
                    assert(views(removed@).contains(views(removed@)[k]));
                } else if shares_key(before, source@, other@) {
                    let key = choose|key: Seq<char>|
                        before.contains(key) && source@.is_meant(key)
                            && #[trigger] other@.is_meant(key);
                    assert(views(removed@).contains(key));
                    let k = choose|k: int| 0 <= k < removed@.len() && views(removed@)[k] == key;
                    assert(other@.is_meant(views(removed@)[k]));
                }
                assert(shared == shares_key(before, source@, other@));
                lemma_deselected_grows(before, source@, all, i as int);
            }
            if shared && !source.matches_configured(identity.as_str()) {
                kept.insert(identity);
            }
            proof {
                assert(kept@ =~= deselected(before, source@, all.take(i + 1)));
            }
        }
        proof {
            assert(all.take(all.len() as int) =~= all);
        }
        *self = kept;
    }
}

proof fn lemma_pushed(list: Seq<Seq<char>>, last: Seq<char>)
    ensures
        forall|key: Seq<char>|
            #[trigger] list.push(last).contains(key) <==> list.contains(key) || key == last,
{
    assert forall|key: Seq<char>|
        #[trigger] list.push(last).contains(key) <==> list.contains(key) || key == last by {
        if list.contains(key) {
            let k = choose|k: int| 0 <= k < list.len() && list[k] == key;
            assert(list.push(last)[k] == key);
        }
        assert(list.push(last)[list.len() as int] == last);
    }
}

proof fn lemma_taken(list: Seq<Seq<char>>, at: int)
    requires
        0 <= at < list.len(),
    ensures
        forall|key: Seq<char>|
            #[trigger] list.take(at + 1).contains(key) <==> list.take(at).contains(key) || key
                == list[at],
{
    assert(list.take(at + 1) =~= list.take(at).push(list[at]));
    lemma_pushed(list.take(at), list[at]);
}

proof fn lemma_deselected_grows(
    keys: Set<Seq<char>>,
    source: SourceContent,
    shown: Seq<SourceContent>,
    at: int,
)
    requires
        0 <= at < shown.len(),
    ensures
        deselected(keys, source, shown.take(at + 1)) == (if shares_key(keys, source, shown[at])
            && !source.is_meant(shown[at].identity()) {
            deselected(keys, source, shown.take(at)).insert(shown[at].identity())
        } else {
            deselected(keys, source, shown.take(at))
        }),
{
    let few = shown.take(at);
    let more = shown.take(at + 1);
    let wanted = if shares_key(keys, source, shown[at]) && !source.is_meant(shown[at].identity()) {
        deselected(keys, source, few).insert(shown[at].identity())
    } else {
        deselected(keys, source, few)
    };
    assert forall|key: Seq<char>| deselected(keys, source, more).contains(key) == wanted.contains(
        key,
    ) by {
        if deselected(keys, source, more).contains(key) && !keys.contains(key) {
            let i = choose|i: int|
                0 <= i < more.len() && shares_key(keys, source, more[i]) && key
                    == #[trigger] more[i].identity();
            if i < at {
                assert(few[i].identity() == key);
            }
        }
        if deselected(keys, source, few).contains(key) && !keys.contains(key) {
            let i = choose|i: int|
                0 <= i < few.len() && shares_key(keys, source, few[i]) && key
                    == #[trigger] few[i].identity();
            assert(more[i].identity() == key);
        }
        if key == shown[at].identity() {
            assert(more[at].identity() == key);
        }
    }
    assert(deselected(keys, source, more) =~= wanted);
}

/// Whether one of the texts in a list means the source.
fn one_means(keys: &Vec<String>, source: &AudioSource) -> (r: bool)
    ensures
        r == exists|k: int| 0 <= k < keys@.len() && source@.is_meant(#[trigger] views(keys@)[k]),
{
    for i in 0..keys.len()
        invariant
            forall|k: int| 0 <= k < i ==> !source@.is_meant(#[trigger] views(keys@)[k]),
    {
        if source.matches_configured(keys[i].as_str()) {
            proof {
                assert(source@.is_meant(views(keys@)[i as int]));
            }
            return true;
        }
    }
    false
}

/// Whether one of the texts means both sources.
pub open spec fn shares_key(
    keys: Set<Seq<char>>,
    source: SourceContent,
    other: SourceContent,
) -> bool {
    exists|key: Seq<char>|
        keys.contains(key) && source.is_meant(key) && #[trigger] other.is_meant(key)
}

/// The set without the texts that mean the source. In their place stand the
/// identities of the other sources that are shown and that those texts meant.
pub open spec fn deselected(
    keys: Set<Seq<char>>,
    source: SourceContent,
    shown: Seq<SourceContent>,
) -> Set<Seq<char>> {
    Set::new(
        |key: Seq<char>|
            {
                &&& !source.is_meant(key)
                &&& keys.contains(key) || exists|i: int|
                    0 <= i < shown.len() && shares_key(keys, source, shown[i]) && key
                        == #[trigger] shown[i].identity()
            },
    )
}

/// The set after the source is switched: it selects the source exactly where it
/// did not.
pub open spec fn switched(
    keys: Set<Seq<char>>,
    source: SourceContent,
    shown: Seq<SourceContent>,
) -> Set<Seq<char>> {
    if is_selected_by(source, keys) {
        deselected(keys, source, shown)
    } else {
        keys.insert(source.identity())
    }
}

/// Whether one of the texts means the source.
pub open spec fn is_selected_by(source: SourceContent, keys: Set<Seq<char>>) -> bool {
    exists|key: Seq<char>| keys.contains(key) && source.is_meant(key)
}

/// The numbers of the sources that are selected, in order.
pub open spec fn selected_ids(sources: Seq<SourceContent>, keys: Set<Seq<char>>) -> Seq<Seq<char>>
    decreases sources.len(),
{
    if sources.len() == 0 {
        Seq::empty()
    } else if is_selected_by(sources.last(), keys) {
        selected_ids(sources.drop_last(), keys).push(sources.last().id)
    } else {
        selected_ids(sources.drop_last(), keys)
    }
}

/// Says which streams are to be captured.
pub fn active_streams(sources: &Vec<AudioSource>, keys: &KeySet) -> (ids: Vec<String>)
    ensures
        views(ids@) == selected_ids(source_views(sources@), keys@),
{
    let ghost all = source_views(sources@);
    let mut ids: Vec<String> = Vec::new();
    proof {
        assert(views(ids@) =~= selected_ids(all.take(0), keys@));
    }
    for i in 0..sources.len()
        invariant
            all == source_views(sources@),
            views(ids@) == selected_ids(all.take(i as int), keys@),
    {
        let ghost earlier = ids@;
        proof {
            assert(all.take(i + 1).drop_last() =~= all.take(i as int));
            assert(all.take(i + 1).last() == sources@[i as int]@);
        }
        if keys.selects(&sources[i]) {
            ids.push(sources[i].id.clone());
            proof {
                assert(views(ids@) =~= views(earlier).push(sources@[i as int]@.id));
            }
        }
    }
    proof {
        assert(all.take(all.len() as int) =~= all);
    }
    ids
}

// ---------------------------------------------------------------------------
// Configured sources
// ---------------------------------------------------------------------------

/// The identities of the sources that the user means by `configured`.
pub open spec fn meant_identities(sources: Seq<SourceContent>, configured: Seq<char>) -> Set<
    Seq<char>,
> {
    Set::new(
        |key: Seq<char>|
            exists|i: int|
                0 <= i < sources.len() && sources[i].is_meant(configured) && key
                    == #[trigger] sources[i].identity(),
    )
}

/// Whether there is a source that the user means by `configured`.
pub open spec fn is_available(sources: Seq<SourceContent>, configured: Seq<char>) -> bool {
    exists|i: int| 0 <= i < sources.len() && (#[trigger] sources[i]).is_meant(configured)
}

/// What the configured sources select: the identities of those that are there,
/// and the others as they are configured.
pub open spec fn configured_keys(
    sources: Seq<SourceContent>,
    configured: Seq<Seq<char>>,
) -> Set<Seq<char>>
    decreases configured.len(),
{
    if configured.len() == 0 {
        Set::empty()
    } else {
        let before = configured_keys(sources, configured.drop_last());
        if is_available(sources, configured.last()) {
            before.union(meant_identities(sources, configured.last()))
        } else {
            before.insert(configured.last())
        }
    }
}

/// What is said of a configured source that is not there.
pub open spec fn unavailable_text(configured: Seq<char>) -> Seq<char> {
    "configured source not currently available: "@ + configured
}

/// What is said of the configured sources that are not there.
pub open spec fn unavailable_texts(
    sources: Seq<SourceContent>,
    configured: Seq<Seq<char>>,
) -> Seq<Seq<char>>
    decreases configured.len(),
{
    if configured.len() == 0 {
        Seq::empty()
    } else {
        let before = unavailable_texts(sources, configured.drop_last());
        if is_available(sources, configured.last()) {
            before
        } else {
            before.push(unavailable_text(configured.last()))
        }
    }
}

/// Puts the identities of the sources that the user means into the set, and says
/// whether there are any.
fn select_meant(keys: &mut KeySet, sources: &Vec<AudioSource>, configured: &str) -> (found: bool)
    requires
        old(keys).wf(),
    ensures
        final(keys).wf(),
        final(keys)@ == old(keys)@.union(meant_identities(source_views(sources@), configured@)),
        found == is_available(source_views(sources@), configured@),
{
    let ghost all = source_views(sources@);
    let ghost start = keys@;
    let mut found = false;
    proof {
        assert(keys@ =~= start.union(meant_identities(all.take(0), configured@)));
    }
    for i in 0..sources.len()
        invariant
            all == source_views(sources@),
            keys.wf(),
            keys@ == start.union(meant_identities(all.take(i as int), configured@)),
            found == is_available(all.take(i as int), configured@),
    {
        let ghost earlier = all.take(i as int);
        let ghost now = all.take(i + 1);
        proof {
            assert(all[i as int] == sources@[i as int]@);
            assert(now =~= earlier.push(all[i as int]));
            lemma_meant_grows(earlier, all[i as int], configured@);
        }
        if sources[i].matches_configured(configured) {
            keys.insert(sources[i].identity_key());
            found = true;
        }
        proof {
            assert(keys@ =~= start.union(meant_identities(now, configured@)));
        }
    }
    proof {
        assert(all.take(all.len() as int) =~= all);
    }
    found
}

proof fn lemma_meant_grows(
    sources: Seq<SourceContent>,
    source: SourceContent,
    configured: Seq<char>,
)
    ensures
        meant_identities(sources.push(source), configured) == (if source.is_meant(configured) {
            meant_identities(sources, configured).insert(source.identity())
        } else {
            meant_identities(sources, configured)
        }),
        is_available(sources.push(source), configured) == (is_available(sources, configured)
            || source.is_meant(configured)),
{
    let more = sources.push(source);
    let wanted = if source.is_meant(configured) {
        meant_identities(sources, configured).insert(source.identity())
    } else {
        meant_identities(sources, configured)
    };
    assert forall|key: Seq<char>| meant_identities(more, configured).contains(key)
        == wanted.contains(key) by {
        if meant_identities(more, configured).contains(key) {
            let i = choose|i: int|
                0 <= i < more.len() && more[i].is_meant(configured) && key
                    == #[trigger] more[i].identity();
            if i < sources.len() {
                assert(sources[i].identity() == key);
            }
        }
        if meant_identities(sources, configured).contains(key) {
            let i = choose|i: int|
                0 <= i < sources.len() && sources[i].is_meant(configured) && key
                    == #[trigger] sources[i].identity();
            assert(more[i].identity() == key);
        }
        if source.is_meant(configured) && key == source.identity() {
            assert(more[sources.len() as int].identity() == key);
        }
    }
    assert(meant_identities(more, configured) =~= wanted);
    if is_available(sources, configured) {
        let i = choose|i: int|
            0 <= i < sources.len() && (#[trigger] sources[i]).is_meant(configured);
        assert(more[i].is_meant(configured));
    }
    if source.is_meant(configured) {
        assert(more[sources.len() as int].is_meant(configured));
    }
    if is_available(more, configured) {
        let i = choose|i: int| 0 <= i < more.len() && (#[trigger] more[i]).is_meant(configured);
        if i < sources.len() {
            assert(sources[i].is_meant(configured));
        }
    }
}

/// Resolves the configured sources: what they select, and what is to be said of
/// those that are not there.
pub fn resolve_configured_sources_from(
    sources: &Vec<AudioSource>,
    configured_sources: &Vec<String>,
) -> (r: (KeySet, Vec<String>))
    ensures
        r.0.wf(),
        r.0@ == configured_keys(source_views(sources@), views(configured_sources@)),
        views(r.1@) == unavailable_texts(source_views(sources@), views(configured_sources@)),
{
    let ghost all = source_views(sources@);
    let ghost wanted = views(configured_sources@);
    let mut selected = KeySet::new();
    let mut notes: Vec<String> = Vec::new();
    proof {
        assert(views(notes@) =~= unavailable_texts(all, wanted.take(0)));
    }
    for i in 0..configured_sources.len()
        invariant
            all == source_views(sources@),
            wanted == views(configured_sources@),
            selected.wf(),
            selected@ == configured_keys(all, wanted.take(i as int)),
            views(notes@) == unavailable_texts(all, wanted.take(i as int)),
    {
        let configured = &configured_sources[i];
        let ghost earlier = notes@;
        let ghost keys = selected@;
        proof {
            assert(wanted.take(i + 1).drop_last() =~= wanted.take(i as int));
            assert(wanted.take(i + 1).last() == configured@);
        }
        let found = select_meant(&mut selected, sources, configured.as_str());
        if !found {
            proof {
                assert(meant_identities(all, configured@) =~= Set::<Seq<char>>::empty()) by {
                    assert forall|key: Seq<char>| !meant_identities(all, configured@).contains(
                        key,
                    ) by {
                        if meant_identities(all, configured@).contains(key) {
                            let k = choose|k: int|
                                0 <= k < all.len() && all[k].is_meant(configured@) && key
                                    == #[trigger] all[k].identity();
                            assert(all[k].is_meant(configured@));
                        }
                    }
                }
                assert(selected@ =~= keys);
            }
            let mut note = "configured source not currently available: ".to_owned();
            note.append(configured.as_str());
            notes.push(note);
            selected.insert(configured.clone());
            proof {
                assert(views(notes@) =~= views(earlier).push(unavailable_text(configured@)));
            }
        }
    }
    proof {
        assert(wanted.take(wanted.len() as int) =~= wanted);
    }
    (selected, notes)
}

// ---------------------------------------------------------------------------
// Laws
// ---------------------------------------------------------------------------

/// Whether no source comes before one that is listed before it.
pub open spec fn well_listed(list: Seq<SourceContent>) -> bool {
    forall|i: int, j: int|
        0 <= i < j < list.len() ==> !listed_before(#[trigger] list[j], #[trigger] list[i])
}

/// Two sources are not each listed before the other.
proof fn lemma_listed_once(a: SourceContent, b: SourceContent)
    requires
        listed_before(a, b),
    ensures
        !listed_before(b, a),
{
    lemma_text_order(a.description, b.description);
    lemma_text_order(a.id, b.id);
}

/// What is not listed before something is not listed before anything that comes
/// earlier.
proof fn lemma_not_listed(a: SourceContent, b: SourceContent, c: SourceContent)
    requires
        !listed_before(a, b),
        !listed_before(b, c),
    ensures
        !listed_before(a, c),
{
    lemma_text_order(a.description, b.description);
    lemma_text_order(b.description, c.description);
    lemma_text_order(a.description, c.description);
    lemma_text_order(a.id, b.id);
    lemma_text_order(b.id, c.id);
    lemma_text_order(a.id, c.id);
    if text_before(c.description, b.description) && text_before(b.description, a.description) {
        lemma_text_transitive(c.description, b.description, a.description);
    }
    if text_before(c.id, b.id) && text_before(b.id, a.id) {
        lemma_text_transitive(c.id, b.id, a.id);
    }
}

proof fn lemma_put_keeps_list(list: Seq<SourceContent>, source: SourceContent)
    requires
        well_listed(list),
    ensures
        well_listed(put_in_list(list, source)),
        put_in_list(list, source).len() == list.len() + 1,
        forall|k: int|
            0 <= k < put_in_list(list, source).len() ==> #[trigger] put_in_list(list, source)[k]
                == source || list.contains(put_in_list(list, source)[k]),
    decreases list.len(),
{
    let all = put_in_list(list, source);
    if list.len() > 0 && listed_before(source, list.last()) {
        let first = list.drop_last();
        let last = list.last();
        lemma_put_keeps_list(first, source);
        let kept = put_in_list(first, source);
        assert(all == kept.push(last));
        assert forall|k: int| 0 <= k < all.len() implies #[trigger] all[k] == source
            || list.contains(all[k]) by {
            if k < kept.len() {
                assert(all[k] == kept[k]);
                if first.contains(kept[k]) {
                    let m = choose|m: int| 0 <= m < first.len() && first[m] == kept[k];
                    assert(list[m] == kept[k]);
                }
            } else {
                assert(list[list.len() - 1] == all[k]);
            }
        }
        assert forall|i: int, j: int| 0 <= i < j < all.len() implies !listed_before(
            #[trigger] all[j],
            #[trigger] all[i],
        ) by {
            if j < kept.len() {
                assert(!listed_before(kept[j], kept[i]));
            } else {
                if kept[i] == source {
                    lemma_listed_once(source, last);
                } else {
                    let m = choose|m: int| 0 <= m < first.len() && first[m] == kept[i];
                    assert(!listed_before(list[list.len() - 1], list[m]));
                }
            }
        }
    } else {
        assert(all == list.push(source));
        assert forall|k: int| 0 <= k < all.len() implies #[trigger] all[k] == source
            || list.contains(all[k]) by {
            if k < list.len() {
                assert(list[k] == all[k]);
            }
        }
        assert forall|i: int, j: int| 0 <= i < j < all.len() implies !listed_before(
            #[trigger] all[j],
            #[trigger] all[i],
        ) by {
            if j < list.len() {
                assert(!listed_before(list[j], list[i]));
            } else if i < list.len() - 1 {
                assert(!listed_before(list[list.len() - 1], list[i]));
                lemma_not_listed(source, list.last(), list[i]);
            }
        }
    }
}

/// The sources are listed by class, then by description, then by number.
pub proof fn law_sources_are_listed_in_order(nodes: Seq<AudioNode>)
    ensures
        well_listed(sources_of(nodes)),
    decreases nodes.len(),
{
    if nodes.len() > 0 {
        law_sources_are_listed_in_order(nodes.drop_last());
        if let Some(source) = source_of(nodes.last()) {
            lemma_put_keeps_list(sources_of(nodes.drop_last()), source);
        }
    }
}

/// A configured source selects every stream that the user means by it as long as
/// the stream is there, and again when the stream comes back under the same
/// identity with another number.
pub proof fn law_selection_survives(
    sources: Seq<SourceContent>,
    configured: Seq<Seq<char>>,
    i: int,
    source: SourceContent,
    later: SourceContent,
)
    requires
        0 <= i < configured.len(),
        sources.contains(source),
        source.is_meant(configured[i]),
        later.identity() == source.identity(),
    ensures
        is_selected_by(source, configured_keys(sources, configured)),
        is_selected_by(later, configured_keys(sources, configured)),
    decreases configured.len(),
{
    let m = choose|m: int| 0 <= m < sources.len() && sources[m] == source;
    if i == configured.len() - 1 {
        assert(sources[m].is_meant(configured[i]));
        assert(meant_identities(sources, configured[i]).contains(sources[m].identity()));
        assert(configured_keys(sources, configured).contains(source.identity()));
        assert(source.is_meant(source.identity()));
        assert(later.is_meant(later.identity()));
    } else {
        let first = configured.drop_last();
        law_selection_survives(sources, first, i, source, later);
        let keys = configured_keys(sources, first);
        let all = configured_keys(sources, configured);
        assert(keys.subset_of(all));
        let a = choose|key: Seq<char>| keys.contains(key) && source.is_meant(key);
        let b = choose|key: Seq<char>| keys.contains(key) && later.is_meant(key);
        assert(all.contains(a) && all.contains(b));
    }
}

/// The user means a stream by its number, by its name, by its description or by
/// its class and its name with a colon between them, and by nothing else.
pub proof fn law_meaning(source: SourceContent, configured: Seq<char>)
    ensures
        source.identity() == source.media_class + seq![':'] + source.name,
        source.is_meant(configured) <==> configured == source.id || configured == source.name
            || configured == source.description || configured == source.media_class + seq![':']
            + source.name,
{
    reveal_strlit(":");
    assert(":"@ =~= seq![':']);
}

/// A stream is selected exactly where one of its four designations is in the
/// selection.
pub proof fn law_selection(source: SourceContent, keys: Set<Seq<char>>)
    ensures
        is_selected_by(source, keys) <==> keys.contains(source.id) || keys.contains(source.name)
            || keys.contains(source.description) || keys.contains(
            source.media_class + seq![':'] + source.name,
        ),
{
    law_meaning(source, source.id);
    law_meaning(source, source.name);
    law_meaning(source, source.description);
    law_meaning(source, source.media_class + seq![':'] + source.name);
    if is_selected_by(source, keys) {
        let key = choose|key: Seq<char>| keys.contains(key) && source.is_meant(key);
        law_meaning(source, key);
    }
}

/// The streams that are captured are those that are selected, in the order in
/// which they are listed, by their numbers.
pub proof fn law_selected_streams_are_captured(
    sources: Seq<SourceContent>,
    keys: Set<Seq<char>>,
)
    ensures
        selected_ids(sources, keys) == sources.filter(
            |s: SourceContent| is_selected_by(s, keys),
        ).map_values(|s: SourceContent| s.id),
    decreases sources.len(),
{
    let chosen = |s: SourceContent| is_selected_by(s, keys);
    let number = |s: SourceContent| s.id;
    reveal(Seq::filter);
    if sources.len() > 0 {
        let first = sources.drop_last();
        law_selected_streams_are_captured(first, keys);
        if chosen(sources.last()) {
            assert(first.filter(chosen).push(sources.last()).map_values(number) =~= first.filter(
                chosen,
            ).map_values(number).push(sources.last().id));
        }
    }
    assert(selected_ids(sources, keys) =~= sources.filter(chosen).map_values(number));
}

/// An object of the sound system is a stream exactly where it is a microphone, an
/// output, or the playback or the recording of an application. It keeps what it
/// says of itself; without a name it goes by its number, and without a description
/// by the application or by its name.
pub proof fn law_streams_among_objects(node: AudioNode)
    ensures
        ({
            let class = opt_view(node.media_class);
            &&& source_of(node) is Some <==> class == Some("Audio/Source"@) || class == Some(
                "Audio/Sink"@,
            ) || class == Some("Stream/Output/Audio"@) || class == Some("Stream/Input/Audio"@)
            &&& source_of(node) matches Some(source) ==> {
                &&& source.id == decimal(node.id as nat)
                &&& Some(source.media_class) == class
                &&& source.application_name == opt_view(node.application_name)
                &&& source.binary_name == opt_view(node.binary_name)
                &&& source.name == (match node.name {
                    Some(name) => name@,
                    None => source.id,
                })
                &&& source.description == (if node.description is Some {
                    node.description->0@
                } else if node.application_name is Some {
                    node.application_name->0@
                } else {
                    source.name
                })
            }
        }),
{
}

/// Every stream among the objects is listed once, and nothing else is.
pub proof fn law_every_stream_is_listed(nodes: Seq<AudioNode>)
    ensures
        sources_of(nodes).to_multiset() == nodes.filter_map(
            |node: AudioNode| source_of(node),
        ).to_multiset(),
    decreases nodes.len(),
{
    broadcast use vstd::seq_lib::group_to_multiset_ensures;

    let found = |node: AudioNode| source_of(node);
    if nodes.len() > 0 {
        let first = nodes.drop_last();
        law_every_stream_is_listed(first);
        assert(first.push(nodes.last()) =~= nodes);
        if let Some(source) = source_of(nodes.last()) {
            lemma_put_is_multiset(sources_of(first), source);
            assert(nodes.filter_map(found) == first.filter_map(found).push(source));
        } else {
            assert(nodes.filter_map(found) == first.filter_map(found));
        }
    } else {
        assert(sources_of(nodes) =~= nodes.filter_map(found));
    }
}

proof fn lemma_put_is_multiset(list: Seq<SourceContent>, source: SourceContent)
    ensures
        put_in_list(list, source).to_multiset() == list.to_multiset().insert(source),
    decreases list.len(),
{
    broadcast use vstd::seq_lib::group_to_multiset_ensures;

    if list.len() > 0 && listed_before(source, list.last()) {
        let first = list.drop_last();
        lemma_put_is_multiset(first, source);
        assert(first.push(list.last()) =~= list);
        assert(put_in_list(list, source).to_multiset() =~= list.to_multiset().insert(source));
    }
}

/// The place of a class in the list: playback of applications first, then
/// microphones, outputs and recordings of applications.
pub open spec fn place_of(media_class: Seq<char>) -> int {
    if media_class == "Stream/Output/Audio"@ {
        1
    } else if media_class == "Audio/Source"@ {
        2
    } else if media_class == "Audio/Sink"@ {
        3
    } else if media_class == "Stream/Input/Audio"@ {
        4
    } else {
        5
    }
}

/// Of two streams in the list the one that comes first is of the earlier class;
/// within one class it has the earlier description, and with the same description
/// the earlier number, as texts.
pub proof fn law_order_of_the_list(nodes: Seq<AudioNode>, i: int, j: int)
    requires
        0 <= i < j < sources_of(nodes).len(),
    ensures
        ({
            let a = sources_of(nodes)[i];
            let b = sources_of(nodes)[j];
            let pa = place_of(a.media_class);
            let pb = place_of(b.media_class);
            ||| pa < pb
            ||| pa == pb && text_before(a.description, b.description)
            ||| pa == pb && a.description == b.description && (a.id == b.id || text_before(
                a.id,
                b.id,
            ))
        }),
{
    law_sources_are_listed_in_order(nodes);
    let a = sources_of(nodes)[i];
    let b = sources_of(nodes)[j];
    assert(!listed_before(b, a));
    lemma_text_order(a.description, b.description);
    lemma_text_order(a.id, b.id);
}

/// A configured stream that is there is selected by its identity, and one that is
/// not by what it is configured as; nothing else is selected.
pub proof fn law_configured_selection(
    sources: Seq<SourceContent>,
    configured: Seq<Seq<char>>,
    key: Seq<char>,
)
    ensures
        configured_keys(sources, configured).contains(key) <==> exists|c: int|
            0 <= c < configured.len() && #[trigger] stands_for(sources, configured[c], key),
    decreases configured.len(),
{
    if configured.len() > 0 {
        let first = configured.drop_last();
        let last = configured.len() - 1;
        law_configured_selection(sources, first, key);
        if exists|c: int|
            0 <= c < first.len() && #[trigger] stands_for(sources, first[c], key) {
            let c = choose|c: int|
                0 <= c < first.len() && #[trigger] stands_for(sources, first[c], key);
            assert(stands_for(sources, configured[c], key));
        }
        if exists|c: int|
            0 <= c < configured.len() && #[trigger] stands_for(sources, configured[c], key) {
            let c = choose|c: int|
                0 <= c < configured.len() && #[trigger] stands_for(sources, configured[c], key);
            if c < last {
                assert(stands_for(sources, first[c], key));
            }
        }
        lemma_stands_for(sources, configured[last], key);
        if stands_for(sources, configured[last], key) {
            assert(configured_keys(sources, configured).contains(key));
        }
    }
}

/// Whether `key` is what a configured stream stands for: the identity of a stream
/// that is there and meant by it, or itself where there is none.
pub open spec fn stands_for(
    sources: Seq<SourceContent>,
    configured: Seq<char>,
    key: Seq<char>,
) -> bool {
    ||| exists|i: int|
        0 <= i < sources.len() && (#[trigger] sources[i]).is_meant(configured)
            && sources[i].identity() == key
    ||| key == configured && forall|i: int|
        0 <= i < sources.len() ==> !(#[trigger] sources[i]).is_meant(configured)
}

proof fn lemma_stands_for(
    sources: Seq<SourceContent>,
    configured: Seq<char>,
    key: Seq<char>,
)
    ensures
        stands_for(sources, configured, key) <==> if is_available(sources, configured) {
            meant_identities(sources, configured).contains(key)
        } else {
            key == configured
        },
{
    if is_available(sources, configured) {
        if meant_identities(sources, configured).contains(key) {
            let i = choose|i: int|
                0 <= i < sources.len() && sources[i].is_meant(configured) && key
                    == #[trigger] sources[i].identity();
            assert(sources[i].is_meant(configured));
        }
        if stands_for(sources, configured, key) {
            let i = choose|i: int|
                0 <= i < sources.len() && (#[trigger] sources[i]).is_meant(configured)
                    && sources[i].identity() == key;
            assert(key == sources[i].identity());
        }
    }
}

/// The user is told of every configured stream that is not there, in order, and of
/// no other.
pub proof fn law_missing_streams_are_told(
    sources: Seq<SourceContent>,
    configured: Seq<Seq<char>>,
)
    ensures
        unavailable_texts(sources, configured) == configured.filter(
            |c: Seq<char>|
                forall|i: int| 0 <= i < sources.len() ==> !(#[trigger] sources[i]).is_meant(c),
        ).map_values(|c: Seq<char>| "configured source not currently available: "@ + c),
    decreases configured.len(),
{
    let missing = |c: Seq<char>|
        forall|i: int| 0 <= i < sources.len() ==> !(#[trigger] sources[i]).is_meant(c);
    let told = |c: Seq<char>| "configured source not currently available: "@ + c;
    reveal(Seq::filter);
    if configured.len() > 0 {
        let first = configured.drop_last();
        law_missing_streams_are_told(sources, first);
        assert(missing(configured.last()) == !is_available(sources, configured.last()));
        if missing(configured.last()) {
            assert(first.filter(missing).push(configured.last()).map_values(told)
                =~= first.filter(missing).map_values(told).push(told(configured.last())));
        }
    }
    assert(unavailable_texts(sources, configured) =~= configured.filter(missing).map_values(told));
}

/// What is said of a stream is what it holds.
pub proof fn law_content_of_a_stream(source: AudioSource)
    ensures
        source@.id == source.id@,
        source@.name == source.name@,
        source@.description == source.description@,
        source@.media_class == source.media_class@,
        source@.application_name == opt_view(source.application_name),
        source@.binary_name == opt_view(source.binary_name),
{
}

/// The details of a stream are its class and its name, the application where it is
/// not the description already, and the program.
pub proof fn law_details(source: SourceContent, detail: Seq<char>)
    ensures
        source.details().len() >= 2,
        source.details()[0] == source.media_class,
        source.details()[1] == source.name,
        source.details().skip(2).contains(detail) <==> {
            ||| source.application_name is Some && source.application_name->0 != source.description
                && detail == "app="@ + source.application_name->0
            ||| source.binary_name is Some && detail == "bin="@ + source.binary_name->0
        },
{
    let more = source.details().skip(2);
    let named = source.application_name is Some && source.application_name->0
        != source.description;
    let at = if named {
        1int
    } else {
        0int
    };
    if named {
        assert(more[0] == "app="@ + source.application_name->0);
    }
    if source.binary_name is Some {
        assert(more[at] == "bin="@ + source.binary_name->0);
    }
    if more.contains(detail) {
        let i = more.index_of(detail);
        assert(more[i] == detail);
    }
}

/// What the user hears from an application, a microphone, an output and what an
/// application records are told apart by their roles.
pub proof fn law_roles(media_class: Seq<char>)
    ensures
        media_class == "Stream/Output/Audio"@ ==> role_of(media_class) == "App playback"@
            && recommendation_of(media_class)
            == "capture this for other people speaking in this app"@,
        media_class == "Audio/Source"@ ==> role_of(media_class) == "Microphone"@
            && recommendation_of(media_class) == "capture this for your microphone"@,
        media_class == "Audio/Sink"@ ==> role_of(media_class) == "Speaker output"@
            && recommendation_of(media_class)
            == "capture this for everything routed to this output device"@,
        media_class == "Stream/Input/Audio"@ ==> role_of(media_class) == "App mic input"@
            && recommendation_of(media_class)
            == "usually not needed; this is what the app captures from your mic"@,
{
    reveal_strlit("Stream/Output/Audio");
    reveal_strlit("Audio/Source");
    reveal_strlit("Audio/Sink");
    reveal_strlit("Stream/Input/Audio");
    assert("Stream/Output/Audio"@.len() == 19 && "Audio/Source"@.len() == 12);
    assert("Audio/Sink"@.len() == 10 && "Stream/Input/Audio"@.len() == 18);
}

} // verus!
