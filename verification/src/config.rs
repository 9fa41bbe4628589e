//! The configuration of the client: command line, configuration file, defaults.
use vstd::prelude::*;
use vstd::string::*;
use crate::paths::{
    config_location, default_config_path, default_token_cache_path, expand_home, expanded, extended,
    extension, file_stem, found_extension, found_stem, is_nameless, lemma_stem_has_no_slash,
    names_a_file, renamed, token_cache_location, with_extension, with_file_name,
};
use crate::protocol::{AudioCodec, AudioContainer, AudioFormat, DiarizationPreference};
use crate::text::{eq_ignore_ascii_case, opt_str_view, opt_view, same_ignoring_case};
use crate::time::{format_stamp, four_digit_year, is_stamp, stamp_text, Timestamp};

verus! {

/// What the user wants of speaker labels.
#[derive(Debug, Clone, Copy, PartialEq, Eq, Structural)]
pub enum DiarizationArg {
    Prefer,
    Require,
    Disable,
}

impl From<DiarizationArg> for DiarizationPreference {
    fn from(value: DiarizationArg) -> (r: Self) {
        match value {
            DiarizationArg::Prefer => DiarizationPreference::Prefer,
            DiarizationArg::Require => DiarizationPreference::Require,
            DiarizationArg::Disable => DiarizationPreference::Disable,
        }
    }
}

impl vstd::std_specs::convert::FromSpecImpl<DiarizationArg> for DiarizationPreference {
    open spec fn obeys_from_spec() -> bool {
        true
    }

    open spec fn from_spec(value: DiarizationArg) -> DiarizationPreference {
        match value {
            DiarizationArg::Prefer => DiarizationPreference::Prefer,
            DiarizationArg::Require => DiarizationPreference::Require,
            DiarizationArg::Disable => DiarizationPreference::Disable,
        }
    }
}

/// Whether a meeting is recorded as a whole or sent as it goes on.
#[derive(Debug, Clone, Copy, PartialEq, Eq, Structural)]
pub enum CaptureMode {
    Meeting,
    Live,
}

/// The options of the client.
#[derive(Debug)]
pub struct CliArgs {
    pub config: Option<String>,
    pub server_url: Option<String>,
    pub output: Option<String>,
    pub recording_output: Option<String>,
    pub events_output: Option<String>,
    pub oidc_issuer: Option<String>,
    pub oidc_client_id: Option<String>,
    pub token: Option<String>,
    pub token_cache: Option<String>,
    pub disable_token_cache: Option<bool>,
    pub insecure_no_auth: Option<bool>,
    pub diarization: Option<DiarizationArg>,
    pub audio_file: Option<String>,
    pub language: Option<String>,
    pub source: Vec<String>,
    pub list_sources: bool,
    pub chunk_seconds: Option<u64>,
    pub capture_mode: Option<CaptureMode>,
    pub auto_enable_new_streams: Option<bool>,
    pub audio_rescan_seconds: Option<u64>,
}

/// What the configuration file says.
#[derive(Debug)]
pub struct FileConfig {
    pub server_url: Option<String>,
    pub output: Option<String>,
    pub recording_output: Option<String>,
    pub events_output: Option<String>,
    pub oidc_issuer: Option<String>,
    pub oidc_client_id: Option<String>,
    pub token: Option<String>,
    pub token_cache: Option<String>,
    pub disable_token_cache: Option<bool>,
    pub insecure_no_auth: Option<bool>,
    pub diarization: Option<DiarizationArg>,
    pub audio_file: Option<String>,
    pub language: Option<String>,
    pub source: Vec<String>,
    pub chunk_seconds: Option<u64>,
    pub capture_mode: Option<CaptureMode>,
    pub auto_enable_new_streams: Option<bool>,
    pub audio_rescan_seconds: Option<u64>,
}

impl Default for FileConfig {
    /// A file that says nothing.
    fn default() -> (file: FileConfig)
        ensures
            file.server_url is None,
            file.output is None,
            file.recording_output is None,
            file.events_output is None,
            file.oidc_issuer is None,
            file.oidc_client_id is None,
            file.token is None,
            file.token_cache is None,
            file.disable_token_cache is None,
            file.insecure_no_auth is None,
            file.diarization is None,
            file.audio_file is None,
            file.language is None,
            file.source@.len() == 0,
            file.chunk_seconds is None,
            file.capture_mode is None,
            file.auto_enable_new_streams is None,
            file.audio_rescan_seconds is None,
    {
        FileConfig {
            server_url: None,
            output: None,
            recording_output: None,
            events_output: None,
            oidc_issuer: None,
            oidc_client_id: None,
            token: None,
            token_cache: None,
            disable_token_cache: None,
            insecure_no_auth: None,
            diarization: None,
            audio_file: None,
            language: None,
            source: Vec::new(),
            chunk_seconds: None,
            capture_mode: None,
            auto_enable_new_streams: None,
            audio_rescan_seconds: None,
        }
    }
}

/// What the environment says of the directories of the user.
#[derive(Debug, Clone)]
pub struct UserDirectories {
    pub home: Option<String>,
    pub config_home: Option<String>,
    pub cache_home: Option<String>,
}

/// The configuration of the client.
#[derive(Debug, Clone)]
pub struct ClientConfig {
    pub server_url: String,
    pub output: String,
    pub recording_output: Option<String>,
    pub events_output: String,
    pub oidc_issuer: Option<String>,
    pub oidc_client_id: Option<String>,
    pub token: Option<String>,
    pub token_cache: Option<String>,
    pub disable_token_cache: bool,
    pub insecure_no_auth: bool,
    pub diarization: DiarizationArg,
    pub audio_file: Option<String>,
    pub language: Option<String>,
    pub source: Vec<String>,
    pub chunk_seconds: u64,
    pub capture_mode: CaptureMode,
    pub auto_enable_new_streams: bool,
    pub audio_rescan_seconds: u64,
}

// ---------------------------------------------------------------------------
// Which of several values counts
// ---------------------------------------------------------------------------

/// The first value, or else the second.
pub open spec fn first_of<T>(first: Option<T>, second: Option<T>) -> Option<T> {
    if first is Some {
        first
    } else {
        second
    }
}

/// The first value, or else the second, or else the default.
pub open spec fn chosen<T>(first: Option<T>, second: Option<T>, default: T) -> T {
    match first_of(first, second) {
        Some(value) => value,
        None => default,
    }
}

/// The text of the first, or else of the second.
pub open spec fn chosen_text(first: Option<String>, second: Option<String>) -> Option<Seq<char>> {
    first_of(opt_view(first), opt_view(second))
}

/// The path of the first, or else of the second, with the home directory put in.
pub open spec fn chosen_path(
    first: Option<String>,
    second: Option<String>,
    home: Option<Seq<char>>,
) -> Option<Seq<char>> {
    match chosen_text(first, second) {
        Some(path) => Some(expanded(path, home)),
        None => None,
    }
}

fn either<T>(first: Option<T>, second: Option<T>) -> (r: Option<T>)
    ensures
        r == first_of(first, second),
{
    if first.is_some() {
        first
    } else {
        second
    }
}

fn either_path(first: Option<String>, second: Option<String>, home: Option<&str>) -> (r: Option<
    String,
>)
    ensures
        opt_view(r) == chosen_path(first, second, opt_str_view(home)),
{
    match either(first, second) {
        Some(path) => Some(expand_home(path, home)),
        None => None,
    }
}

fn borrowed(text: &Option<String>) -> (r: Option<&str>)
    ensures
        opt_str_view(r) == opt_view(*text),
{
    match text {
        Some(text) => Some(text.as_str()),
        None => None,
    }
}

/// Where the configuration file is: where the user says, or else at its usual
/// place.
pub fn config_path(given: Option<String>, directories: &UserDirectories) -> (path: Option<String>)
    ensures
        opt_view(path) == match given {
            Some(path) => Some(expanded(path@, opt_view(directories.home))),
            None => config_location(opt_view(directories.config_home), opt_view(directories.home)),
        },
{
    let home = borrowed(&directories.home);
    match given {
        Some(path) => Some(expand_home(path, home)),
        None => default_config_path(borrowed(&directories.config_home), home),
    }
}

// ---------------------------------------------------------------------------
// The configuration
// ---------------------------------------------------------------------------

/// Where the transcript goes.
pub open spec fn output_of(args: CliArgs, file: FileConfig, home: Option<Seq<char>>) -> Seq<char> {
    match chosen_path(args.output, file.output, home) {
        Some(path) => path,
        None => expanded("transcript.md"@, home),
    }
}

impl ClientConfig {
    /// Puts the configuration together: the command line comes before the file,
    /// and the file before the defaults.
    pub fn load(args: CliArgs, file: FileConfig, directories: &UserDirectories) -> (config: Self)
        ensures
            config.server_url@ == chosen(
                opt_view(args.server_url),
                opt_view(file.server_url),
                "ws://127.0.0.1:8080/v1/sessions/ws"@,
            ),
            config.output@ == output_of(args, file, opt_view(directories.home)),
            opt_view(config.recording_output) == chosen_path(
                args.recording_output,
                file.recording_output,
                opt_view(directories.home),
            ),
            config.events_output@ == match chosen_path(
                args.events_output,
                file.events_output,
                opt_view(directories.home),
            ) {
                Some(path) => path,
                None => extended(config.output@, "events.jsonl"@),
            },
            opt_view(config.oidc_issuer) == chosen_text(args.oidc_issuer, file.oidc_issuer),
            opt_view(config.oidc_client_id) == chosen_text(
                args.oidc_client_id,
                file.oidc_client_id,
            ),
            opt_view(config.token) == chosen_text(args.token, file.token),
            opt_view(config.token_cache) == first_of(
                chosen_path(args.token_cache, file.token_cache, opt_view(directories.home)),
                token_cache_location(opt_view(directories.cache_home), opt_view(directories.home)),
            ),
            config.disable_token_cache == chosen(
                args.disable_token_cache,
                file.disable_token_cache,
                false,
            ),
            config.insecure_no_auth == chosen(
                args.insecure_no_auth,
                file.insecure_no_auth,
                false,
            ),
            config.diarization == chosen(
                args.diarization,
                file.diarization,
                DiarizationArg::Prefer,
            ),
            opt_view(config.audio_file) == chosen_path(
                args.audio_file,
                file.audio_file,
                opt_view(directories.home),
            ),
            opt_view(config.language) == chosen_text(args.language, file.language),
            config.source@ == (if args.source@.len() == 0 {
                file.source@
            } else {
                args.source@
            }),
            config.chunk_seconds == chosen(args.chunk_seconds, file.chunk_seconds, 15),
            config.capture_mode == chosen(
                args.capture_mode,
                file.capture_mode,
                CaptureMode::Meeting,
            ),
            config.auto_enable_new_streams == chosen(
                args.auto_enable_new_streams,
                file.auto_enable_new_streams,
                false,
            ),
            config.audio_rescan_seconds == chosen(
                args.audio_rescan_seconds,
                file.audio_rescan_seconds,
                2,
            ),
    {
        proof {
            reveal_strlit("events.jsonl");
            assert("events.jsonl"@.len() > 0);
            assert(!"events.jsonl"@.contains('/'));
        }
        let home = borrowed(&directories.home);
        let output = match either(args.output, file.output) {
            Some(path) => expand_home(path, home),
            None => expand_home("transcript.md".to_owned(), home),
        };
        let events_output = match either_path(args.events_output, file.events_output, home) {
            Some(path) => path,
            None => with_extension(output.as_str(), "events.jsonl"),
        };
        let token_cache = match either_path(args.token_cache, file.token_cache, home) {
            Some(path) => Some(path),
            None => default_token_cache_path(borrowed(&directories.cache_home), home),
        };
        let server_url = match either(args.server_url, file.server_url) {
            Some(url) => url,
            None => "ws://127.0.0.1:8080/v1/sessions/ws".to_owned(),
        };
        ClientConfig {
            server_url,
            output,
            recording_output: either_path(args.recording_output, file.recording_output, home),
            events_output,
            oidc_issuer: either(args.oidc_issuer, file.oidc_issuer),
            oidc_client_id: either(args.oidc_client_id, file.oidc_client_id),
            token: either(args.token, file.token),
            token_cache,
            disable_token_cache: either(
                args.disable_token_cache,
                file.disable_token_cache,
            ).unwrap_or(false),
            insecure_no_auth: either(args.insecure_no_auth, file.insecure_no_auth).unwrap_or(false),
            diarization: either(args.diarization, file.diarization).unwrap_or(
                DiarizationArg::Prefer,
            ),
            audio_file: either_path(args.audio_file, file.audio_file, home),
            language: either(args.language, file.language),
            source: if args.source.len() == 0 {
                file.source
            } else {
                args.source
            },
            chunk_seconds: either(args.chunk_seconds, file.chunk_seconds).unwrap_or(15),
            capture_mode: either(args.capture_mode, file.capture_mode).unwrap_or(
                CaptureMode::Meeting,
            ),
            auto_enable_new_streams: either(
                args.auto_enable_new_streams,
                file.auto_enable_new_streams,
            ).unwrap_or(false),
            audio_rescan_seconds: either(
                args.audio_rescan_seconds,
                file.audio_rescan_seconds,
            ).unwrap_or(2),
        }
    }

    /// How the audio is encoded that the client sends: a file with the extension
    /// `ogg` as Opus, everything else as 16 kHz mono PCM.
    pub fn audio_format(&self) -> (format: AudioFormat)
        ensures
            format == format_of_extension(
                match self.audio_file {
                    Some(path) => found_extension(path@),
                    None => None,
                },
            ),
    {
        let found = match &self.audio_file {
            Some(path) => extension(path.as_str()),
            None => None,
        };
        format_for_extension(borrowed(&found))
    }
}

/// The encoding of a file with an extension.
pub open spec fn format_of_extension(extension: Option<Seq<char>>) -> AudioFormat {
    if extension matches Some(extension) && same_ignoring_case(extension, "ogg"@) {
        AudioFormat {
            codec: AudioCodec::Opus,
            container: AudioContainer::Ogg,
            sample_rate_hz: 48_000,
            channels: 1,
        }
    } else {
        AudioFormat {
            codec: AudioCodec::WavPcm16,
            container: AudioContainer::Wav,
            sample_rate_hz: 16_000,
            channels: 1,
        }
    }
}

/// Tells how a file with an extension is encoded.
pub fn format_for_extension(extension: Option<&str>) -> (format: AudioFormat)
    ensures
        format == format_of_extension(opt_str_view(extension)),
{
    if let Some(extension) = extension {
        if eq_ignore_ascii_case(extension, "ogg") {
            return AudioFormat {
                codec: AudioCodec::Opus,
                container: AudioContainer::Ogg,
                sample_rate_hz: 48_000,
                channels: 1,
            };
        }
    }
    AudioFormat {
        codec: AudioCodec::WavPcm16,
        container: AudioContainer::Wav,
        sample_rate_hz: 16_000,
        channels: 1,
    }
}

// ---------------------------------------------------------------------------
// The recording of a meeting
// ---------------------------------------------------------------------------

/// The name of the file for a recording: that of the transcript with the time in
/// it.
pub open spec fn recording_name_of(stem: Option<Seq<char>>, stamp: Seq<char>) -> Seq<char> {
    (match stem {
        Some(stem) => stem,
        None => "meeting"@,
    }) + "-"@ + stamp + ".wav"@
}

/// Names the file for a recording.
pub fn recording_name(stem: Option<&str>, stamp: &str) -> (name: String)
    ensures
        name@ == recording_name_of(opt_str_view(stem), stamp@),
{
    let mut name = match stem {
        Some(stem) => stem.to_owned(),
        None => "meeting".to_owned(),
    };
    name.append("-");
    name.append(stamp);
    name.append(".wav");
    name
}

/// Where the recording of a meeting goes: where the user says, or else beside
/// the transcript under a name with the time in it.
pub fn meeting_audio_path(config: &ClientConfig, now: Timestamp) -> (path: String)
    requires
        now.valid(),
    ensures
        path@ == match config.recording_output {
            Some(path) => path@,
            None => renamed(
                config.output@,
                recording_name_of(found_stem(config.output@), stamp_text(now)),
            ),
        },
        config.recording_output is None && four_digit_year(now) ==> is_stamp(
            stamp_text(now),
            now,
        ),
{
    match &config.recording_output {
        Some(path) => path.clone(),
        None => {
            let stem = file_stem(config.output.as_str());
            let stamp = format_stamp(now);
            let name = recording_name(borrowed(&stem), stamp.as_str());
            let path = with_file_name(config.output.as_str(), name.as_str());
            proof {
                lemma_stem_has_no_slash(config.output@);
                if names_a_file(config.output@) || is_nameless(config.output@) {
                    lemma_no_slash(opt_view(stem), stamp@);
                }
            }
            path
        },
    }
}

proof fn lemma_no_slash(stem: Option<Seq<char>>, stamp: Seq<char>)
    requires
        stem matches Some(stem) ==> !stem.contains('/'),
        forall|i: int|
            0 <= i < stamp.len() ==> '0' <= #[trigger] stamp[i] <= '9' || stamp[i] == '-'
                || stamp[i] == '+',
    ensures
        !recording_name_of(stem, stamp).contains('/'),
{
    reveal_strlit("-");
    reveal_strlit(".wav");
    reveal_strlit("meeting");
    let name = recording_name_of(stem, stamp);
    let stem = match stem {
        Some(stem) => stem,
        None => "meeting"@,
    };
    assert forall|i: int| 0 <= i < stem.len() implies stem[i] != '/' by {
        assert(stem.contains(stem[i]));
    }
    assert forall|i: int| 0 <= i < name.len() implies name[i] != '/' by {
        if i < stem.len() {
            assert(name[i] == stem[i]);
        } else if i < stem.len() + 1 {
            assert(name[i] == "-"@[0]);
        } else if i < stem.len() + 1 + stamp.len() {
            assert(name[i] == stamp[i - stem.len() - 1]);
        } else {
            assert(name[i] == ".wav"@[i - stem.len() - 1 - stamp.len()]);
        }
    }
}

// ---------------------------------------------------------------------------
// Laws
// ---------------------------------------------------------------------------

/// The command line comes before the file, and the file before the default.
pub proof fn law_precedence<T>(first: T, second: T, default: T, other: Option<T>)
    ensures
        chosen(Some(first), other, default) == first,
        chosen(None, Some(second), default) == second,
        chosen(None, None, default) == default,
        first_of(Some(first), other) == Some(first),
        first_of(None, other) == other,
{
}

/// A path comes from the command line, or else from the file, with the home
/// directory put in; a transcript without a path goes to `transcript.md`.
pub proof fn law_paths_by_precedence(
    args: CliArgs,
    file: FileConfig,
    home: Option<Seq<char>>,
)
    ensures
        output_of(args, file, home) == expanded(
            if args.output is Some {
                args.output->0@
            } else if file.output is Some {
                file.output->0@
            } else {
                "transcript.md"@
            },
            home,
        ),
        forall|first: Option<String>, second: Option<String>| #[trigger]
            chosen_path(first, second, home) == (if first is Some {
                Some(expanded(first->0@, home))
            } else if second is Some {
                Some(expanded(second->0@, home))
            } else {
                None
            }),
{
}

/// A file is Opus in an Ogg file exactly where its extension is `ogg`, whatever the
/// case of the letters; everything else is 16 kHz PCM in a WAVE file.
pub proof fn law_format_by_extension(extension: Option<Seq<char>>)
    ensures
        ({
            let format = format_of_extension(extension);
            let ogg = extension is Some && same_ignoring_case(extension->0, seq!['o', 'g', 'g']);
            &&& format.codec is Opus <==> ogg
            &&& format.codec is WavPcm16 <==> !ogg
            &&& format.container is Ogg <==> ogg
            &&& format.container is Wav <==> !ogg
            &&& format.sample_rate_hz == if ogg {
                48000u32
            } else {
                16000u32
            }
            &&& format.channels == 1
        }),
{
    reveal_strlit("ogg");
    assert("ogg"@ =~= seq!['o', 'g', 'g']);
}

/// The recording of a meeting is named after the transcript, with the time behind
/// a hyphen.
pub proof fn law_name_of_a_recording(stem: Seq<char>, stamp: Seq<char>)
    ensures
        recording_name_of(Some(stem), stamp) == stem + seq!['-'] + stamp + ".wav"@,
        recording_name_of(None, stamp) == "meeting"@ + seq!['-'] + stamp + ".wav"@,
{
    reveal_strlit("-");
    assert("-"@ =~= seq!['-']);
}

} // verus!
