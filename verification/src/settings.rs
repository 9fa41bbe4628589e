//! The settings of the server, from its command line to what it works with.
use vstd::prelude::*;
use vstd::string::*;
use crate::chunking::SmartChunkConfig;
use crate::request::TranscriptionClient;
use crate::session::SessionPolicy;
use crate::text::{law_trailing_is_dropped, opt_view, trim_trailing, without_trailing};

verus! {

/// The seconds of audio that a client should send at a time.
pub const DEFAULT_CHUNK_SECONDS: u64 = 15;

/// How long the backend may take for a request.
pub const DEFAULT_TRANSCRIPTION_TIMEOUT_SECONDS: u64 = 3600;

/// How much audio a client may upload.
pub const DEFAULT_MAX_AUDIO_MIB: usize = 512;

/// How many requests to the backend may be under way at a time.
pub const DEFAULT_ASR_CONCURRENCY: usize = 4;

/// The length up to which speech is packed into a chunk.
pub const DEFAULT_TARGET_CHUNK_SECONDS: u64 = 25;

/// The longest that a chunk may be.
pub const DEFAULT_MAX_CHUNK_SECONDS: u64 = 28;

/// The options of the server.
#[derive(Debug, Clone)]
pub struct ServerArgs {
    pub oidc_issuer: Option<String>,
    pub oidc_audience: Option<String>,
    pub insecure_no_auth: bool,
    pub transcription_base_url: String,
    pub transcription_api_key: Option<String>,
    pub transcription_model: String,
    pub diarization_base_url: Option<String>,
    pub diarization_api_key: Option<String>,
    pub diarization_model: Option<String>,
    pub diarization_response_format: String,
    pub language: Option<String>,
    pub prompt: Option<String>,
    pub chunk_seconds: u64,
    pub transcription_timeout_seconds: u64,
    pub max_audio_mib: usize,
    pub smart_chunking: bool,
    pub asr_concurrency: usize,
    pub target_chunk_seconds: u64,
    pub max_chunk_seconds: u64,
    pub backend_diarization: bool,
}

impl ServerArgs {
    /// The options where only the backend is given.
    pub fn new(transcription_base_url: String) -> (args: ServerArgs)
        ensures
            args.oidc_issuer is None,
            args.oidc_audience is None,
            !args.insecure_no_auth,
            args.transcription_base_url@ == transcription_base_url@,
            args.transcription_api_key is None,
            args.transcription_model@ == "whisper"@,
            args.diarization_base_url is None,
            args.diarization_api_key is None,
            args.diarization_model is None,
            args.diarization_response_format@ == "verbose_json"@,
            args.language is None,
            args.prompt is None,
            args.chunk_seconds == DEFAULT_CHUNK_SECONDS,
            args.transcription_timeout_seconds == DEFAULT_TRANSCRIPTION_TIMEOUT_SECONDS,
            args.max_audio_mib == DEFAULT_MAX_AUDIO_MIB,
            args.smart_chunking,
            args.asr_concurrency == DEFAULT_ASR_CONCURRENCY,
            args.target_chunk_seconds == DEFAULT_TARGET_CHUNK_SECONDS,
            args.max_chunk_seconds == DEFAULT_MAX_CHUNK_SECONDS,
            !args.backend_diarization,
    {
        ServerArgs {
            oidc_issuer: None,
            oidc_audience: None,
            insecure_no_auth: false,
            transcription_base_url,
            transcription_api_key: None,
            transcription_model: "whisper".to_owned(),
            diarization_base_url: None,
            diarization_api_key: None,
            diarization_model: None,
            diarization_response_format: "verbose_json".to_owned(),
            language: None,
            prompt: None,
            chunk_seconds: DEFAULT_CHUNK_SECONDS,
            transcription_timeout_seconds: DEFAULT_TRANSCRIPTION_TIMEOUT_SECONDS,
            max_audio_mib: DEFAULT_MAX_AUDIO_MIB,
            smart_chunking: true,
            asr_concurrency: DEFAULT_ASR_CONCURRENCY,
            target_chunk_seconds: DEFAULT_TARGET_CHUNK_SECONDS,
            max_chunk_seconds: DEFAULT_MAX_CHUNK_SECONDS,
            backend_diarization: false,
        }
    }
}

/// What the server works with.
#[derive(Debug, Clone)]
pub struct ServerSettings {
    pub transcription: TranscriptionClient,
    pub diarization: Option<TranscriptionClient>,
    pub policy: SessionPolicy,
    pub smart_chunking: SmartChunkConfig,
}

/// The larger of two numbers.
pub open spec fn larger(a: int, b: int) -> int {
    if a >= b {
        a
    } else {
        b
    }
}

fn larger_u64(a: u64, b: u64) -> (r: u64)
    ensures
        r == larger(a as int, b as int),
{
    if a >= b {
        a
    } else {
        b
    }
}

/// Whether `client` is the backend for plain transcription.
pub open spec fn is_plain_client(client: TranscriptionClient, args: ServerArgs) -> bool {
    &&& client.base_url@ == without_trailing(args.transcription_base_url@, '/')
    &&& opt_view(client.api_key) == opt_view(args.transcription_api_key)
    &&& client.model@ == args.transcription_model@
    &&& opt_view(client.language) == opt_view(args.language)
    &&& client.timeout_seconds == args.transcription_timeout_seconds
    &&& opt_view(client.prompt) == opt_view(args.prompt)
    &&& client.diarization_response_format is None
}

/// Whether `client` is the backend for speaker labels at `base_url`. It inherits
/// the key of the other backend where it has none of its own.
pub open spec fn is_diarized_client(
    client: TranscriptionClient,
    base_url: Seq<char>,
    args: ServerArgs,
) -> bool {
    &&& client.base_url@ == without_trailing(base_url, '/')
    &&& opt_view(client.api_key) == (if args.diarization_api_key is Some {
        opt_view(args.diarization_api_key)
    } else {
        opt_view(args.transcription_api_key)
    })
    &&& client.model@ == (match args.diarization_model {
        Some(model) => model@,
        None => "whisper-diarized"@,
    })
    &&& opt_view(client.language) == opt_view(args.language)
    &&& client.timeout_seconds == args.transcription_timeout_seconds
    &&& opt_view(client.prompt) == opt_view(args.prompt)
    &&& opt_view(client.diarization_response_format) == Some(args.diarization_response_format@)
}

/// How recordings are divided: at least one request at a time, chunks of at
/// least five seconds, and none longer than the longest.
pub open spec fn is_chunk_config(config: SmartChunkConfig, args: ServerArgs) -> bool {
    &&& config.enabled == args.smart_chunking
    &&& config.concurrency == larger(args.asr_concurrency as int, 1)
    &&& config.target_seconds == larger(args.target_chunk_seconds as int, 5)
    &&& config.max_seconds == larger(
        larger(args.max_chunk_seconds as int, args.target_chunk_seconds as int),
        5,
    )
}

/// Turns the options of the server into what it works with.
pub fn server_settings(args: &ServerArgs) -> (settings: ServerSettings)
    requires
        args.max_audio_mib * 1024 * 1024 <= usize::MAX,
    ensures
        is_plain_client(settings.transcription, *args),
        match (args.diarization_base_url, settings.diarization) {
            (Some(base_url), Some(client)) => is_diarized_client(client, base_url@, *args),
            (None, None) => true,
            _ => false,
        },
        settings.policy == (SessionPolicy {
            chunk_seconds: args.chunk_seconds,
            backend_diarization: args.backend_diarization,
            max_audio_bytes: (args.max_audio_mib * 1024 * 1024) as usize,
        }),
        is_chunk_config(settings.smart_chunking, *args),
        settings.smart_chunking.concurrency >= 1,
        5 <= settings.smart_chunking.target_seconds <= settings.smart_chunking.max_seconds,
{
    let transcription = TranscriptionClient {
        base_url: trim_trailing(args.transcription_base_url.as_str(), '/'),
        api_key: args.transcription_api_key.clone(),
        model: args.transcription_model.clone(),
        language: args.language.clone(),
        timeout_seconds: args.transcription_timeout_seconds,
        prompt: args.prompt.clone(),
        diarization_response_format: None,
    };
    let diarization = match &args.diarization_base_url {
        Some(base_url) => {
            let api_key = if args.diarization_api_key.is_some() {
                args.diarization_api_key.clone()
            } else {
                args.transcription_api_key.clone()
            };
            let model = match &args.diarization_model {
                Some(model) => model.clone(),
                None => "whisper-diarized".to_owned(),
            };
            Some(
                TranscriptionClient {
                    base_url: trim_trailing(base_url.as_str(), '/'),
                    api_key,
                    model,
                    language: args.language.clone(),
                    timeout_seconds: args.transcription_timeout_seconds,
                    prompt: args.prompt.clone(),
                    diarization_response_format: Some(args.diarization_response_format.clone()),
                },
            )
        },
        None => None,
    };
    let concurrency = if args.asr_concurrency >= 1 {
        args.asr_concurrency
    } else {
        1
    };
    ServerSettings {
        transcription,
        diarization,
        policy: SessionPolicy {
            chunk_seconds: args.chunk_seconds,
            backend_diarization: args.backend_diarization,
            max_audio_bytes: args.max_audio_mib * 1024 * 1024,
        },
        smart_chunking: SmartChunkConfig {
            enabled: args.smart_chunking,
            concurrency,
            target_seconds: larger_u64(args.target_chunk_seconds, 5),
            max_seconds: larger_u64(
                larger_u64(args.max_chunk_seconds, args.target_chunk_seconds),
                5,
            ),
        },
    }
}

/// Which keys the server has for its backends, as it says when it starts.
#[derive(Debug, Clone, Copy, PartialEq, Eq, Structural)]
pub struct BackendAuth {
    pub transcription_auth: bool,
    pub diarization_auth: bool,
    pub diarization_auth_inherited: bool,
}

/// Says which keys the server has for its backends.
pub fn backend_auth(args: &ServerArgs) -> (auth: BackendAuth)
    ensures
        auth.transcription_auth == (args.transcription_api_key is Some),
        auth.diarization_auth == (args.diarization_base_url is Some && (
        args.diarization_api_key is Some || args.transcription_api_key is Some)),
        auth.diarization_auth_inherited == (args.diarization_base_url is Some
            && args.diarization_api_key is None && args.transcription_api_key is Some),
{
    let plain = args.transcription_api_key.is_some();
    let own = args.diarization_api_key.is_some();
    let wanted = args.diarization_base_url.is_some();
    BackendAuth {
        transcription_auth: plain,
        diarization_auth: wanted && (own || plain),
        diarization_auth_inherited: !own && plain && wanted,
    }
}

// ---------------------------------------------------------------------------
// Laws
// ---------------------------------------------------------------------------

/// Chunking follows the options, but there is always one request at a time, a
/// chunk may be five seconds long, and the longest is not shorter than the target.
pub proof fn law_chunking_options(config: SmartChunkConfig, args: ServerArgs)
    requires
        is_chunk_config(config, args),
    ensures
        config.enabled <==> args.smart_chunking,
        args.asr_concurrency > 0 ==> config.concurrency == args.asr_concurrency,
        args.asr_concurrency == 0 ==> config.concurrency == 1,
        args.target_chunk_seconds >= 5 ==> config.target_seconds == args.target_chunk_seconds,
        args.target_chunk_seconds < 5 ==> config.target_seconds == 5,
        args.max_chunk_seconds >= config.target_seconds ==> config.max_seconds
            == args.max_chunk_seconds,
        args.max_chunk_seconds < config.target_seconds ==> config.max_seconds
            == config.target_seconds,
{
}

/// The backend for plain transcription is asked as the options say, and not for
/// speaker labels.
pub proof fn law_plain_backend(client: TranscriptionClient, args: ServerArgs)
    requires
        is_plain_client(client, args),
    ensures
        opt_view(client.api_key) == opt_view(args.transcription_api_key),
        client.model@ == args.transcription_model@,
        opt_view(client.language) == opt_view(args.language),
        opt_view(client.prompt) == opt_view(args.prompt),
        client.timeout_seconds == args.transcription_timeout_seconds,
        client.diarization_response_format is None,
        client.base_url@.len() > 0 ==> client.base_url@.last() != '/',
        client.base_url@ == args.transcription_base_url@.take(client.base_url@.len() as int),
        forall|i: int|
            client.base_url@.len() <= i < args.transcription_base_url@.len()
                ==> #[trigger] args.transcription_base_url@[i] == '/',
{
    law_trailing_is_dropped(args.transcription_base_url@, '/');
}

/// The backend for speaker labels has its own address, its own model and its own
/// key, or the key of the other backend where it has none. In all else it is asked
/// as the options say.
pub proof fn law_labelling_backend(
    client: TranscriptionClient,
    base_url: Seq<char>,
    args: ServerArgs,
)
    requires
        is_diarized_client(client, base_url, args),
    ensures
        args.diarization_api_key is Some ==> opt_view(client.api_key) == opt_view(
            args.diarization_api_key,
        ),
        args.diarization_api_key is None ==> opt_view(client.api_key) == opt_view(
            args.transcription_api_key,
        ),
        args.diarization_model is Some ==> client.model@ == args.diarization_model->0@,
        args.diarization_model is None ==> client.model@ == "whisper-diarized"@,
        opt_view(client.language) == opt_view(args.language),
        opt_view(client.prompt) == opt_view(args.prompt),
        client.timeout_seconds == args.transcription_timeout_seconds,
        opt_view(client.diarization_response_format) == Some(args.diarization_response_format@),
        client.base_url@.len() > 0 ==> client.base_url@.last() != '/',
        client.base_url@ == base_url.take(client.base_url@.len() as int),
        forall|i: int|
            client.base_url@.len() <= i < base_url.len() ==> #[trigger] base_url[i] == '/',
{
    law_trailing_is_dropped(base_url, '/');
}

} // verus!
