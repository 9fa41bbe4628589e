//! How the client gets its access token: from its configuration, from a cache,
//! by refreshing an old one, or by a login on another device.
use vstd::prelude::*;
use vstd::string::*;
use crate::config::ClientConfig;
use crate::text::{
    chars_of, copy_range, find_from, first_index, lemma_first_index, opt_view, str_eq, string_of,
};

verus! {

// ---------------------------------------------------------------------------
// Tokens
// ---------------------------------------------------------------------------

/// An answer of the token endpoint.
#[derive(Debug)]
pub struct TokenResponse {
    pub access_token: Option<String>,
    pub refresh_token: Option<String>,
    pub expires_in: Option<u64>,
    pub error: Option<String>,
    pub error_description: Option<String>,
}

/// A token that has been acquired; the time is in seconds since 1970.
#[derive(Debug)]
pub struct AcquiredToken {
    pub access_token: String,
    pub refresh_token: Option<String>,
    pub expires_at: Option<i64>,
}

/// A token as it is kept for the next time, and for whom.
#[derive(Debug)]
pub struct TokenCache {
    pub issuer: String,
    pub client_id: String,
    pub access_token: String,
    pub refresh_token: Option<String>,
    pub expires_at: i64,
}

/// When a token expires: after the time that the answer gives, or else when the
/// token itself says.
pub open spec fn expiry(expires_in: Option<u64>, now: i64, claimed: Option<i64>) -> Option<i64> {
    match expires_in {
        Some(seconds) => if seconds <= i64::MAX {
            Some((now + seconds) as i64)
        } else {
            claimed
        },
        None => claimed,
    }
}

/// Takes the token out of an answer. `now` is the present time, and `claimed` is
/// when the token itself says that it expires.
pub fn token_response_to_acquired(
    response: TokenResponse,
    now: i64,
    claimed: Option<i64>,
) -> (r: Result<AcquiredToken, &'static str>)
    requires
        response.expires_in matches Some(seconds) ==> seconds <= i64::MAX ==> now + seconds
            <= i64::MAX,
    ensures
        match (response.access_token, r) {
            (Some(access_token), Ok(token)) => {
                &&& token.access_token@ == access_token@
                &&& opt_view(token.refresh_token) == opt_view(response.refresh_token)
                &&& token.expires_at == expiry(response.expires_in, now, claimed)
            },
            (None, Err(message)) => message@ == "token response omitted access_token"@,
            _ => false,
        },
{
    match response.access_token {
        Some(access_token) => {
            let expires_at = match response.expires_in {
                Some(seconds) => if seconds <= 9_223_372_036_854_775_807 {
                    Some(now + seconds as i64)
                } else {
                    claimed
                },
                None => claimed,
            };
            Ok(AcquiredToken { access_token, refresh_token: response.refresh_token, expires_at })
        },
        None => Err("token response omitted access_token"),
    }
}

/// What is kept of a token: nothing where it is not known when it expires.
pub fn cache_entry(issuer: &str, client_id: &str, token: AcquiredToken) -> (entry: Option<
    TokenCache,
>)
    ensures
        match (token.expires_at, entry) {
            (Some(expires_at), Some(entry)) => {
                &&& entry.issuer@ == issuer@
                &&& entry.client_id@ == client_id@
                &&& entry.access_token@ == token.access_token@
                &&& opt_view(entry.refresh_token) == opt_view(token.refresh_token)
                &&& entry.expires_at == expires_at
            },
            (None, None) => true,
            _ => false,
        },
{
    match token.expires_at {
        Some(expires_at) => Some(
            TokenCache {
                issuer: issuer.to_owned(),
                client_id: client_id.to_owned(),
                access_token: token.access_token,
                refresh_token: token.refresh_token,
                expires_at,
            },
        ),
        None => None,
    }
}

/// The second of the parts of a text that periods separate.
pub open spec fn second_part(s: Seq<char>) -> Option<Seq<char>> {
    let at = first_index(s, '.') as int;
    if at < s.len() {
        let rest = s.skip(at + 1);
        Some(rest.take(first_index(rest, '.') as int))
    } else {
        None
    }
}

/// The bytes that a text stands for in base64 for URLs without padding, as
/// `base64::Engine::decode` has it.
pub uninterp spec fn base64url_decoded(text: Seq<char>) -> Option<Seq<u8>>;

/// `base64::Engine::decode` of the engine `URL_SAFE_NO_PAD` gives the bytes that
/// a text stands for in base64 with the alphabet for URLs and without padding,
/// or an error. The result is a function of the text.
#[verifier::external_body]
fn decode_base64url(text: &str) -> (r: Option<Vec<u8>>)
    ensures
        match r {
            Some(bytes) => base64url_decoded(text@) == Some(bytes@),
            None => base64url_decoded(text@) is None,
        },
{
    base64::Engine::decode(&base64::engine::general_purpose::URL_SAFE_NO_PAD, text).ok()
}

/// The second part of a token, still encoded.
pub fn encoded_payload(token: &str) -> (r: Option<String>)
    ensures
        opt_view(r) == second_part(token@),
{
    let chars = chars_of(token);
    proof {
        assert(token@.skip(0) =~= token@);
    }
    let at = find_from(&chars, '.', 0);
    if at == chars.len() {
        return None;
    }
    let end = find_from(&chars, '.', at + 1);
    let part = copy_range(&chars, at + 1, end);
    proof {
        let rest = token@.skip(at + 1);
        lemma_first_index(rest, '.');
        assert(part@ =~= rest.take(first_index(rest, '.') as int));
    }
    Some(string_of(&part))
}

/// The claims of a token as JSON: what its second part stands for.
pub fn jwt_payload(token: &str) -> (r: Option<Vec<u8>>)
    ensures
        match (second_part(token@), r) {
            (Some(part), Some(bytes)) => base64url_decoded(part) == Some(bytes@),
            (Some(part), None) => base64url_decoded(part) is None,
            (None, r) => r is None,
        },
{
    match encoded_payload(token) {
        Some(part) => decode_base64url(part.as_str()),
        None => None,
    }
}

// ---------------------------------------------------------------------------
// Acquiring a token
// ---------------------------------------------------------------------------

/// What the client is to do for its token.
#[derive(Debug)]
pub enum TokenStep {
    /// Go on with this token, or without one.
    Done(Option<String>),
    /// Look for a token in the cache at the path.
    ReadCache(String),
    /// Exchange the refresh token for a new token.
    Refresh(String),
    /// Have the user log in on another device.
    Login,
    /// Give up.
    Fail(&'static str),
}

/// What the client is to do for its token, with strings as sequences.
#[verifier::ext_equal]
pub enum StepContent {
    Done(Option<Seq<char>>),
    ReadCache(Seq<char>),
    Refresh(Seq<char>),
    Login,
    Fail(Seq<char>),
}

impl View for TokenStep {
    type V = StepContent;

    open spec fn view(&self) -> StepContent {
        match *self {
            TokenStep::Done(token) => StepContent::Done(opt_view(token)),
            TokenStep::ReadCache(path) => StepContent::ReadCache(path@),
            TokenStep::Refresh(token) => StepContent::Refresh(token@),
            TokenStep::Login => StepContent::Login,
            TokenStep::Fail(message) => StepContent::Fail(message@),
        }
    }
}

/// The cache that is used, where one is.
pub open spec fn cache_path_of(config: ClientConfig) -> Option<Seq<char>> {
    if config.disable_token_cache {
        None
    } else {
        opt_view(config.token_cache)
    }
}

/// The cache that is used, where one is.
pub fn token_cache_path(config: &ClientConfig) -> (path: Option<String>)
    ensures
        opt_view(path) == cache_path_of(*config),
{
    if config.disable_token_cache {
        None
    } else {
        config.token_cache.clone()
    }
}

/// What the client does first.
pub open spec fn first_step(config: ClientConfig) -> StepContent {
    if config.insecure_no_auth {
        StepContent::Done(None)
    } else if config.token is Some {
        StepContent::Done(opt_view(config.token))
    } else if config.oidc_issuer is None {
        StepContent::Fail(
            "--oidc-issuer or WHISPER_RELAY_OIDC_ISSUER is required unless --token or --insecure-no-auth is used"@,
        )
    } else if config.oidc_client_id is None {
        StepContent::Fail(
            "--oidc-client-id or WHISPER_RELAY_OIDC_CLIENT_ID is required for device login"@,
        )
    } else {
        match cache_path_of(config) {
            Some(path) => StepContent::ReadCache(path),
            None => StepContent::Login,
        }
    }
}

/// Says what the client does first for its token.
pub fn begin_token(config: &ClientConfig) -> (step: TokenStep)
    ensures
        step@ == first_step(*config),
{
    if config.insecure_no_auth {
        return TokenStep::Done(None);
    }
    if config.token.is_some() {
        return TokenStep::Done(config.token.clone());
    }
    if config.oidc_issuer.is_none() {
        return TokenStep::Fail(
            "--oidc-issuer or WHISPER_RELAY_OIDC_ISSUER is required unless --token or --insecure-no-auth is used",
        );
    }
    if config.oidc_client_id.is_none() {
        return TokenStep::Fail(
            "--oidc-client-id or WHISPER_RELAY_OIDC_CLIENT_ID is required for device login",
        );
    }
    match token_cache_path(config) {
        Some(path) => TokenStep::ReadCache(path),
        None => TokenStep::Login,
    }
}

/// What the client does with what it found in the cache: a token for the same
/// issuer and client that is good for more than a minute is used, an older one
/// is refreshed where that is possible.
pub open spec fn cache_step(
    issuer: Seq<char>,
    client_id: Seq<char>,
    cache: Option<TokenCache>,
    now: i64,
) -> StepContent {
    match cache {
        Some(cache) => if cache.issuer@ == issuer && cache.client_id@ == client_id {
            if cache.expires_at > now + 60 {
                StepContent::Done(Some(cache.access_token@))
            } else {
                match cache.refresh_token {
                    Some(token) => StepContent::Refresh(token@),
                    None => StepContent::Login,
                }
            }
        } else {
            StepContent::Login
        },
        None => StepContent::Login,
    }
}

/// Says what the client does with what it found in the cache.
pub fn after_cache(issuer: &str, client_id: &str, cache: Option<TokenCache>, now: i64) -> (step:
    TokenStep)
    requires
        now + 60 <= i64::MAX,
    ensures
        step@ == cache_step(issuer@, client_id@, cache, now),
{
    match cache {
        Some(cache) => if str_eq(cache.issuer.as_str(), issuer) && str_eq(
            cache.client_id.as_str(),
            client_id,
        ) {
            if cache.expires_at > now + 60 {
                TokenStep::Done(Some(cache.access_token))
            } else {
                match cache.refresh_token {
                    Some(token) => TokenStep::Refresh(token),
                    None => TokenStep::Login,
                }
            }
        } else {
            TokenStep::Login
        },
        None => TokenStep::Login,
    }
}

/// Says what the client does after it tried to refresh a token: it uses the new
/// one, and where there is none the user logs in.
pub fn after_refresh(refreshed: &Option<AcquiredToken>) -> (step: TokenStep)
    ensures
        step@ == match *refreshed {
            Some(token) => StepContent::Done(Some(token.access_token@)),
            None => StepContent::Login,
        },
{
    match refreshed {
        Some(token) => TokenStep::Done(Some(token.access_token.clone())),
        None => TokenStep::Login,
    }
}

// ---------------------------------------------------------------------------
// Logging in on another device
// ---------------------------------------------------------------------------

/// How a login on another device is to be made.
#[derive(Debug)]
pub struct DeviceAuthorization {
    pub device_code: String,
    pub user_code: String,
    pub verification_uri: Option<String>,
    pub verification_uri_complete: Option<String>,
    pub expires_in: u64,
    pub interval: u64,
    pub message: Option<String>,
}

/// The seconds between two questions whether the user has logged in, where the
/// issuer does not say.
pub fn default_poll_interval() -> (seconds: u64)
    ensures
        seconds == 5,
{
    5
}

/// What the user is told.
pub open spec fn login_prompt(device: DeviceAuthorization) -> Option<Seq<char>> {
    match (device.message, device.verification_uri_complete, device.verification_uri) {
        (Some(message), _, _) => Some(message@),
        (None, Some(uri), _) => Some("Open "@ + uri@),
        (None, None, Some(uri)) => Some(
            "Open "@ + uri@ + " and enter code "@ + device.user_code@,
        ),
        (None, None, None) => None,
    }
}

/// Says what the user is told.
pub fn device_prompt(device: &DeviceAuthorization) -> (prompt: Option<String>)
    ensures
        opt_view(prompt) == login_prompt(*device),
{
    if let Some(message) = &device.message {
        return Some(message.clone());
    }
    if let Some(uri) = &device.verification_uri_complete {
        let mut prompt = "Open ".to_owned();
        prompt.append(uri.as_str());
        return Some(prompt);
    }
    if let Some(uri) = &device.verification_uri {
        let mut prompt = "Open ".to_owned();
        prompt.append(uri.as_str());
        prompt.append(" and enter code ");
        prompt.append(device.user_code.as_str());
        return Some(prompt);
    }
    None
}

/// Whether the client may still ask for the token of a login that began
/// `elapsed_seconds` ago.
pub fn login_open(device: &DeviceAuthorization, elapsed_seconds: u64) -> (r: bool)
    ensures
        r == (elapsed_seconds < device.expires_in),
{
    elapsed_seconds < device.expires_in
}

/// What an answer to the question whether the user has logged in means.
#[derive(Debug)]
pub enum PollStep {
    /// The answer has the token.
    Acquired,
    /// Ask again later.
    Wait,
    /// Give up.
    Fail(String),
}

/// Whether an error only says that the user has not logged in yet.
pub open spec fn is_pending(error: Seq<char>) -> bool {
    error == "authorization_pending"@ || error == "slow_down"@
}

/// What is said of an error that ends a login.
pub open spec fn login_failure(error: Seq<char>, description: Option<Seq<char>>) -> Seq<char> {
    "device authorization failed: "@ + error + " ("@ + (match description {
        Some(description) => description,
        None => Seq::empty(),
    }) + ")"@
}

/// Says what an answer to the question whether the user has logged in means.
pub fn poll_step(response: &TokenResponse) -> (step: PollStep)
    ensures
        match (response.access_token, response.error) {
            (Some(_), _) => step is Acquired,
            (None, Some(error)) => if is_pending(error@) {
                step is Wait
            } else {
                step matches PollStep::Fail(message) && message@ == login_failure(
                    error@,
                    opt_view(response.error_description),
                )
            },
            (None, None) => step is Wait,
        },
{
    if response.access_token.is_some() {
        return PollStep::Acquired;
    }
    match &response.error {
        Some(error) => {
            if str_eq(error.as_str(), "authorization_pending") || str_eq(
                error.as_str(),
                "slow_down",
            ) {
                return PollStep::Wait;
            }
            let mut message = "device authorization failed: ".to_owned();
            message.append(error.as_str());
            message.append(" (");
            if let Some(description) = &response.error_description {
                message.append(description.as_str());
            }
            message.append(")");
            proof {
                assert(message@ =~= login_failure(error@, opt_view(response.error_description)));
            }
            PollStep::Fail(message)
        },
        None => PollStep::Wait,
    }
}

// ---------------------------------------------------------------------------
// Forms
// ---------------------------------------------------------------------------

/// What the fields of a form say.
pub open spec fn field_views(fields: Seq<(&'static str, String)>) -> Seq<(Seq<char>, Seq<char>)> {
    fields.map_values(|f: (&'static str, String)| (f.0@, f.1@))
}

/// The form that starts a login on another device.
pub fn device_form(client_id: &str) -> (fields: Vec<(&'static str, String)>)
    ensures
        field_views(fields@) == seq![
            ("client_id"@, client_id@),
            ("scope"@, "openid profile email"@),
        ],
{
    let mut fields: Vec<(&'static str, String)> = Vec::new();
    fields.push(("client_id", client_id.to_owned()));
    fields.push(("scope", "openid profile email".to_owned()));
    proof {
        assert(field_views(fields@) =~= seq![
            ("client_id"@, client_id@),
            ("scope"@, "openid profile email"@),
        ]);
    }
    fields
}

/// The form that asks for the token of a login on another device.
pub fn poll_form(device_code: &str, client_id: &str) -> (fields: Vec<(&'static str, String)>)
    ensures
        field_views(fields@) == seq![
            ("grant_type"@, "urn:ietf:params:oauth:grant-type:device_code"@),
            ("device_code"@, device_code@),
            ("client_id"@, client_id@),
        ],
{
    let mut fields: Vec<(&'static str, String)> = Vec::new();
    fields.push(("grant_type", "urn:ietf:params:oauth:grant-type:device_code".to_owned()));
    fields.push(("device_code", device_code.to_owned()));
    fields.push(("client_id", client_id.to_owned()));
    proof {
        assert(field_views(fields@) =~= seq![
            ("grant_type"@, "urn:ietf:params:oauth:grant-type:device_code"@),
            ("device_code"@, device_code@),
            ("client_id"@, client_id@),
        ]);
    }
    fields
}

/// The form that exchanges a refresh token for a new token.
pub fn refresh_form(refresh_token: &str, client_id: &str) -> (fields: Vec<(&'static str, String)>)
    ensures
        field_views(fields@) == seq![
            ("grant_type"@, "refresh_token"@),
            ("refresh_token"@, refresh_token@),
            ("client_id"@, client_id@),
        ],
{
    let mut fields: Vec<(&'static str, String)> = Vec::new();
    fields.push(("grant_type", "refresh_token".to_owned()));
    fields.push(("refresh_token", refresh_token.to_owned()));
    fields.push(("client_id", client_id.to_owned()));
    proof {
        assert(field_views(fields@) =~= seq![
            ("grant_type"@, "refresh_token"@),
            ("refresh_token"@, refresh_token@),
            ("client_id"@, client_id@),
        ]);
    }
    fields
}

// ---------------------------------------------------------------------------
// Laws
// ---------------------------------------------------------------------------

/// A token that has just been kept is used again as long as it is good for more
/// than a minute, by the same client with the same issuer.
pub proof fn law_kept_token_is_used(entry: TokenCache, now: i64)
    requires
        entry.expires_at > now + 60,
    ensures
        cache_step(entry.issuer@, entry.client_id@, Some(entry), now) == StepContent::Done(
            Some(entry.access_token@),
        ),
{
}

/// A token that was kept for another issuer or another client is never used, nor
/// refreshed.
pub proof fn law_foreign_token_is_not_used(
    issuer: Seq<char>,
    client_id: Seq<char>,
    entry: TokenCache,
    now: i64,
)
    requires
        entry.issuer@ != issuer || entry.client_id@ != client_id,
    ensures
        cache_step(issuer, client_id, Some(entry), now) == StepContent::Login,
{
}

/// A kept token is used exactly where it is for the same issuer and client and
/// good for more than a minute; where it is for them and not, it is refreshed if
/// there is something to refresh it with; in all other cases the user logs in.
pub proof fn law_use_of_the_cache(
    issuer: Seq<char>,
    client_id: Seq<char>,
    cache: Option<TokenCache>,
    now: i64,
)
    ensures
        ({
            let own = cache is Some && cache->0.issuer@ == issuer && cache->0.client_id@
                == client_id;
            let fresh = own && cache->0.expires_at - now > 60;
            match cache_step(issuer, client_id, cache, now) {
                StepContent::Done(token) => fresh && token == Some(cache->0.access_token@),
                StepContent::Refresh(token) => own && !fresh && opt_view(cache->0.refresh_token)
                    == Some(token),
                StepContent::Login => !fresh && (!own || cache->0.refresh_token is None),
                _ => false,
            }
        }),
{
}

/// The client goes on without a token only where it is told to, and with the one
/// that it is given where it is given one. Otherwise it needs an issuer and a name
/// with it, and looks into its cache unless that is switched off or there is none.
pub proof fn law_first_step(config: ClientConfig)
    ensures
        ({
            let needed = !config.insecure_no_auth && config.token is None;
            let known = config.oidc_issuer is Some && config.oidc_client_id is Some;
            let cached = !config.disable_token_cache && config.token_cache is Some;
            match first_step(config) {
                StepContent::Done(None) => config.insecure_no_auth,
                StepContent::Done(Some(token)) => !config.insecure_no_auth && opt_view(config.token)
                    == Some(token),
                StepContent::Fail(_) => needed && !known,
                StepContent::ReadCache(path) => needed && known && cached && opt_view(
                    config.token_cache,
                ) == Some(path),
                StepContent::Login => needed && known && !cached,
                StepContent::Refresh(_) => false,
            }
        }),
{
}

/// A token expires as many seconds from now as the answer says; where it does not
/// say, or the number is beyond all times, when the token itself says.
pub proof fn law_expiry(expires_in: Option<u64>, now: i64, claimed: Option<i64>)
    requires
        expires_in matches Some(seconds) ==> seconds <= i64::MAX ==> now + seconds <= i64::MAX,
    ensures
        match expires_in {
            Some(seconds) if seconds <= i64::MAX => expiry(expires_in, now, claimed) is Some
                && expiry(expires_in, now, claimed)->0 - now == seconds,
            _ => expiry(expires_in, now, claimed) == claimed,
        },
{
}

/// The payload of a token is what stands between its first period and the next, or
/// behind the first where there is no other. A text without a period has none.
pub proof fn law_payload_is_the_second_part(
    first: Seq<char>,
    payload: Seq<char>,
    rest: Seq<char>,
)
    requires
        !first.contains('.'),
        !payload.contains('.'),
    ensures
        second_part(first + seq!['.'] + payload + seq!['.'] + rest) == Some(payload),
        second_part(first + seq!['.'] + payload) == Some(payload),
        second_part(first) is None,
{
    lemma_first_index(first, '.');
    let n = first_index(first, '.') as int;
    assert(n == first.len()) by {
        if n < first.len() {
            assert(first[n] == '.');
        }
    }
    let at = payload.len() as int;
    let tail = payload + seq!['.'] + rest;
    assert(payload.take(at) =~= payload);
    assert(tail.take(at) =~= payload);
    lemma_second_part(first, payload, payload, at);
    lemma_second_part(first, tail, payload, at);
    assert(first + seq!['.'] + payload + seq!['.'] + rest =~= first + seq!['.'] + (payload
        + seq!['.'] + rest));
}

proof fn lemma_second_part(first: Seq<char>, tail: Seq<char>, payload: Seq<char>, at: int)
    requires
        !first.contains('.'),
        !payload.contains('.'),
        at == payload.len() <= tail.len(),
        tail.take(at) == payload,
        at < tail.len() ==> tail[at] == '.',
    ensures
        second_part(first + seq!['.'] + tail) == Some(payload),
{
    let all = first + seq!['.'] + tail;
    lemma_first_index(all, '.');
    let n = first_index(all, '.') as int;
    assert(all[first.len() as int] == '.');
    assert(n == first.len()) by {
        if n < first.len() {
            assert(all[n] == first[n]);
            assert(first.contains(first[n]));
        }
    }
    assert(all.skip(n + 1) =~= tail);
    lemma_first_index(tail, '.');
    let m = first_index(tail, '.') as int;
    assert(m == at) by {
        if m < at {
            assert(tail.take(at)[m] == tail[m]);
            assert(payload.contains(payload[m]));
        }
    }
}

/// The user is told what the issuer has to say; where it has nothing to say, where
/// to go, and the code to enter where the address does not hold it.
pub proof fn law_prompt(device: DeviceAuthorization)
    ensures
        match login_prompt(device) {
            None => device.message is None && device.verification_uri_complete is None
                && device.verification_uri is None,
            Some(prompt) => if device.message is Some {
                prompt == device.message->0@
            } else if device.verification_uri_complete is Some {
                prompt == "Open "@ + device.verification_uri_complete->0@
            } else {
                device.verification_uri is Some && prompt == "Open "@ + device.verification_uri->0@
                    + " and enter code "@ + device.user_code@
            },
        },
{
}

/// A login is waited for exactly as long as the issuer says that it is pending or
/// that it is asked too often.
pub proof fn law_pending(error: Seq<char>)
    ensures
        is_pending(error) <==> error == "authorization_pending"@ || error == "slow_down"@,
{
}

} // verus!
