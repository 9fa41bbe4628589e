//! Who may open a session: bearer tokens of an OpenID Connect issuer.
use vstd::prelude::*;
use vstd::string::*;
use crate::settings::ServerArgs;
use crate::text::{
    has_prefix, opt_str_view, opt_view, str_eq, strip_prefix, trim_trailing, without_trailing,
};

verus! {

// ---------------------------------------------------------------------------
// Setting up
// ---------------------------------------------------------------------------

/// Where an issuer describes itself.
pub open spec fn discovery_url_of(issuer: Seq<char>) -> Seq<char> {
    without_trailing(issuer, '/') + "/.well-known/openid-configuration"@
}

/// Says where an issuer describes itself.
pub fn discovery_url(issuer: &str) -> (url: String)
    ensures
        url@ == discovery_url_of(issuer@),
{
    let mut url = trim_trailing(issuer, '/');
    url.append("/.well-known/openid-configuration");
    url
}

/// How sessions are to be authorized.
#[derive(Debug)]
pub enum AuthPlan {
    /// Not at all.
    Disabled,
    /// By tokens of an issuer, whose keys are found through its description.
    Discover { issuer: String, audience: String, discovery_url: String },
}

/// How sessions are to be authorized, with strings as sequences.
#[verifier::ext_equal]
pub enum AuthPlanContent {
    Disabled,
    Discover { issuer: Seq<char>, audience: Seq<char>, discovery_url: Seq<char> },
}

impl View for AuthPlan {
    type V = AuthPlanContent;

    open spec fn view(&self) -> AuthPlanContent {
        match *self {
            AuthPlan::Disabled => AuthPlanContent::Disabled,
            AuthPlan::Discover { issuer, audience, discovery_url } => AuthPlanContent::Discover {
                issuer: issuer@,
                audience: audience@,
                discovery_url: discovery_url@,
            },
        }
    }
}

/// How the options want sessions to be authorized; an issuer and an audience are
/// needed unless authorization is switched off.
pub open spec fn wanted_auth(args: ServerArgs) -> Result<AuthPlanContent, Seq<char>> {
    if args.insecure_no_auth {
        Ok(AuthPlanContent::Disabled)
    } else {
        match (args.oidc_issuer, args.oidc_audience) {
            (None, _) => Err(
                "WHISPER_RELAY_OIDC_ISSUER is required unless insecure auth is enabled"@,
            ),
            (Some(_), None) => Err(
                "WHISPER_RELAY_OIDC_AUDIENCE is required unless insecure auth is enabled"@,
            ),
            (Some(issuer), Some(audience)) => Ok(
                AuthPlanContent::Discover {
                    issuer: issuer@,
                    audience: audience@,
                    discovery_url: discovery_url_of(issuer@),
                },
            ),
        }
    }
}

/// Says how the options want sessions to be authorized.
pub fn plan_auth(args: &ServerArgs) -> (r: Result<AuthPlan, &'static str>)
    ensures
        match r {
            Ok(plan) => wanted_auth(*args) == Ok::<AuthPlanContent, Seq<char>>(plan@),
            Err(message) => wanted_auth(*args) == Err::<AuthPlanContent, Seq<char>>(message@),
        },
{
    if args.insecure_no_auth {
        return Ok(AuthPlan::Disabled);
    }
    match (&args.oidc_issuer, &args.oidc_audience) {
        (None, _) => Err("WHISPER_RELAY_OIDC_ISSUER is required unless insecure auth is enabled"),
        (Some(_), None) => Err(
            "WHISPER_RELAY_OIDC_AUDIENCE is required unless insecure auth is enabled",
        ),
        (Some(issuer), Some(audience)) => Ok(
            AuthPlan::Discover {
                issuer: issuer.clone(),
                audience: audience.clone(),
                discovery_url: discovery_url(issuer.as_str()),
            },
        ),
    }
}

// ---------------------------------------------------------------------------
// Tokens
// ---------------------------------------------------------------------------

/// What the header of a token says: by which key and algorithm it is signed.
#[derive(Debug)]
struct TokenHeader {
    key_id: Option<String>,
    algorithm: String,
}

/// What `jsonwebtoken::decode_header` finds in a token: the key and the
/// algorithm, or what is wrong with it.
pub uninterp spec fn token_header(token: Seq<char>) -> Result<
    (Option<Seq<char>>, Seq<char>),
    Seq<char>,
>;

/// Why `serde_json::from_str` does not read a text as a JSON web key, if it does
/// not.
pub uninterp spec fn jwk_fault(jwk: Seq<char>) -> Option<Seq<char>>;

/// What `jsonwebtoken::DecodingKey::from_jwk` finds wrong with a JSON web key, if
/// anything.
pub uninterp spec fn key_fault(jwk: Seq<char>) -> Option<Seq<char>>;

/// `jsonwebtoken::decode_header` reads the header of a token, without checking
/// anything else. What it finds, the text of its error included, is a function
/// of the token.
#[verifier::external_body]
fn read_header(token: &str) -> (r: Result<TokenHeader, String>)
    ensures
        match r {
            Ok(header) => token_header(token@) == Ok::<
                (Option<Seq<char>>, Seq<char>),
                Seq<char>,
            >((opt_view(header.key_id), header.algorithm@)),
            Err(message) => token_header(token@) == Err::<
                (Option<Seq<char>>, Seq<char>),
                Seq<char>,
            >(message@),
        },
{
    match jsonwebtoken::decode_header(token) {
        Ok(header) => Ok(
            TokenHeader { key_id: header.kid, algorithm: format!("{:?}", header.alg) },
        ),
        Err(e) => Err(e.to_string()),
    }
}

/// `serde_json::from_str` reads a text as a `jsonwebtoken::jwk::Jwk`. Whether it
/// can, and the text of its error, is a function of the text.
#[verifier::external_body]
fn read_jwk(jwk: &str) -> (r: Result<(), String>)
    ensures
        match r {
            Ok(_) => jwk_fault(jwk@) is None,
            Err(message) => jwk_fault(jwk@) == Some(message@),
        },
{
    match serde_json::from_str::<jsonwebtoken::jwk::Jwk>(jwk) {
        Ok(_) => Ok(()),
        Err(e) => Err(e.to_string()),
    }
}

/// `jsonwebtoken::DecodingKey::from_jwk` makes a key to check signatures with
/// out of a JSON web key, given here as a text that can be read as one. Whether
/// there is a fault, and its text, is a function of the key.
#[verifier::external_body]
fn check_key(jwk: &str) -> (r: Result<(), String>)
    requires
        jwk_fault(jwk@) is None,
    ensures
        match r {
            Ok(_) => key_fault(jwk@) is None,
            Err(message) => key_fault(jwk@) == Some(message@),
        },
{
    let parsed: jsonwebtoken::jwk::Jwk = serde_json::from_str(jwk).unwrap();
    match jsonwebtoken::DecodingKey::from_jwk(&parsed) {
        Ok(_) => Ok(()),
        Err(e) => Err(e.to_string()),
    }
}

/// A key of the issuer: its name and the key itself as JSON.
#[derive(Debug, Clone)]
pub struct SigningKey {
    pub id: Option<String>,
    pub jwk: String,
}

/// How sessions are authorized.
#[derive(Debug, Clone)]
pub enum AuthConfig {
    Disabled,
    Oidc { issuer: String, audience: String, keys: Vec<SigningKey> },
}

/// The first key with the name given.
pub open spec fn key_named(keys: Seq<SigningKey>, id: Seq<char>) -> Option<SigningKey>
    decreases keys.len(),
{
    if keys.len() == 0 {
        None
    } else if opt_view(keys[0].id) == Some(id) {
        Some(keys[0])
    } else {
        key_named(keys.skip(1), id)
    }
}

fn find_key<'a>(keys: &'a Vec<SigningKey>, id: &str) -> (r: Option<&'a SigningKey>)
    ensures
        match r {
            Some(key) => key_named(keys@, id@) == Some(*key),
            None => key_named(keys@, id@) is None,
        },
{
    proof {
        assert(keys@.skip(0) =~= keys@);
    }
    for i in 0..keys.len()
        invariant
            key_named(keys@, id@) == key_named(keys@.skip(i as int), id@),
    {
        let key = &keys[i];
        if let Some(name) = &key.id {
            if str_eq(name.as_str(), id) {
                return Some(key);
            }
        }
        proof {
            assert(keys@.skip(i as int).skip(1) =~= keys@.skip(i + 1));
        }
    }
    None
}

/// What is left to check of a token: its signature by the key, the issuer, the
/// audience and the times in it.
#[derive(Debug)]
pub struct TokenCheck {
    pub token: String,
    pub jwk: String,
    pub algorithm: String,
    pub issuer: String,
    pub audience: String,
}

/// What is left to check of a token, with strings as sequences.
#[verifier::ext_equal]
pub struct CheckContent {
    pub token: Seq<char>,
    pub jwk: Seq<char>,
    pub algorithm: Seq<char>,
    pub issuer: Seq<char>,
    pub audience: Seq<char>,
}

impl View for TokenCheck {
    type V = CheckContent;

    open spec fn view(&self) -> CheckContent {
        CheckContent {
            token: self.token@,
            jwk: self.jwk@,
            algorithm: self.algorithm@,
            issuer: self.issuer@,
            audience: self.audience@,
        }
    }
}

/// What becomes of a token whose header has been read: what is left to check, or
/// why it is refused.
pub open spec fn header_verdict(
    token: Seq<char>,
    header: Result<(Option<Seq<char>>, Seq<char>), Seq<char>>,
    issuer: Seq<char>,
    audience: Seq<char>,
    keys: Seq<SigningKey>,
) -> Result<CheckContent, Seq<char>> {
    match header {
        Err(message) => Err("invalid token header: "@ + message),
        Ok((None, _)) => Err("token header missing kid"@),
        Ok((Some(id), algorithm)) => match key_named(keys, id) {
            None => Err("token kid not found in JWKS"@),
            Some(key) => Ok(
                CheckContent { token, jwk: key.jwk@, algorithm, issuer, audience },
            ),
        },
    }
}

/// What becomes of a request to open a session: nothing to check, something to
/// check, or why it is refused.
pub open spec fn admission(auth: AuthConfig, authorization: Option<Seq<char>>) -> Result<
    Option<CheckContent>,
    Seq<char>,
> {
    match auth {
        AuthConfig::Disabled => Ok(None),
        AuthConfig::Oidc { issuer, audience, keys } => match authorization {
            None => Err("missing Authorization header"@),
            Some(value) => if !has_prefix(value, "Bearer "@) {
                Err("Authorization must be Bearer token"@)
            } else {
                let token = value.skip("Bearer "@.len() as int);
                match header_verdict(token, token_header(token), issuer@, audience@, keys@) {
                    Err(message) => Err(message),
                    Ok(check) => match (jwk_fault(check.jwk), key_fault(check.jwk)) {
                        (Some(message), _) => Err("invalid jwk: "@ + message),
                        (None, Some(message)) => Err("invalid jwk: "@ + message),
                        (None, None) => Ok(Some(check)),
                    },
                }
            },
        },
    }
}

fn prefixed(start: &str, rest: &str) -> (out: String)
    ensures
        out@ == start@ + rest@,
{
    let mut out = start.to_owned();
    out.append(rest);
    out
}

/// Judges a token by its header: which key it is to be checked with.
pub fn judge_header(
    token: String,
    key_id: Option<String>,
    algorithm: String,
    issuer: &str,
    audience: &str,
    keys: &Vec<SigningKey>,
) -> (r: Result<TokenCheck, String>)
    ensures
        ({
            let verdict = header_verdict(
                token@,
                Ok((opt_view(key_id), algorithm@)),
                issuer@,
                audience@,
                keys@,
            );
            match r {
                Ok(check) => verdict == Ok::<CheckContent, Seq<char>>(check@),
                Err(message) => verdict == Err::<CheckContent, Seq<char>>(message@),
            }
        }),
{
    match key_id {
        None => Err("token header missing kid".to_owned()),
        Some(id) => match find_key(keys, id.as_str()) {
            None => Err("token kid not found in JWKS".to_owned()),
            Some(key) => Ok(
                TokenCheck {
                    token,
                    jwk: key.jwk.clone(),
                    algorithm,
                    issuer: issuer.to_owned(),
                    audience: audience.to_owned(),
                },
            ),
        },
    }
}

/// Looks at a request to open a session. `authorization` is the header of that
/// name, where there is one. Where a token is still to be checked, the result
/// says what with.
pub fn authorize(auth: &AuthConfig, authorization: Option<&str>) -> (r: Result<
    Option<TokenCheck>,
    String,
>)
    ensures
        ({
            let wanted = admission(*auth, opt_str_view(authorization));
            match r {
                Ok(None) => wanted == Ok::<Option<CheckContent>, Seq<char>>(None),
                Ok(Some(check)) => wanted == Ok::<Option<CheckContent>, Seq<char>>(Some(check@)),
                Err(message) => wanted == Err::<Option<CheckContent>, Seq<char>>(message@),
            }
        }),
{
    match auth {
        AuthConfig::Disabled => Ok(None),
        AuthConfig::Oidc { issuer, audience, keys } => {
            let value = match authorization {
                Some(value) => value,
                None => return Err("missing Authorization header".to_owned()),
            };
            let token = match strip_prefix(value, "Bearer ") {
                Some(token) => token,
                None => return Err("Authorization must be Bearer token".to_owned()),
            };
            let header = match read_header(token.as_str()) {
                Ok(header) => header,
                Err(message) => return Err(prefixed("invalid token header: ", message.as_str())),
            };
            let check = match judge_header(
                token,
                header.key_id,
                header.algorithm,
                issuer.as_str(),
                audience.as_str(),
                keys,
            ) {
                Ok(check) => check,
                Err(message) => return Err(message),
            };
            if let Err(message) = read_jwk(check.jwk.as_str()) {
                return Err(prefixed("invalid jwk: ", message.as_str()));
            }
            match check_key(check.jwk.as_str()) {
                Ok(_) => Ok(Some(check)),
                Err(message) => Err(prefixed("invalid jwk: ", message.as_str())),
            }
        },
    }
}

/// What becomes of a token that has been checked: the error says why it is
/// refused.
pub fn token_verdict(checked: Result<(), String>) -> (r: Result<(), String>)
    ensures
        match (checked, r) {
            (Ok(_), Ok(_)) => true,
            (Err(message), Err(verdict)) => verdict@ == "invalid token: "@ + message@,
            _ => false,
        },
{
    match checked {
        Ok(_) => Ok(()),
        Err(message) => Err(prefixed("invalid token: ", message.as_str())),
    }
}

/// What `authorize` found, with strings as sequences.
pub open spec fn asked_view(asked: Result<Option<TokenCheck>, String>) -> Result<
    Option<CheckContent>,
    Seq<char>,
> {
    match asked {
        Ok(Some(check)) => Ok(Some(check@)),
        Ok(None) => Ok(None),
        Err(message) => Err(message@),
    }
}

/// Whether a session may be opened: there is nothing to check, or the check has
/// succeeded. `checked` is the result of the check, where there is one.
pub open spec fn session_verdict(
    asked: Result<Option<CheckContent>, Seq<char>>,
    checked: Result<(), Seq<char>>,
) -> Result<(), Seq<char>> {
    match asked {
        Ok(None) => Ok(()),
        Ok(Some(_)) => match checked {
            Ok(_) => Ok(()),
            Err(message) => Err("invalid token: "@ + message),
        },
        Err(message) => Err(message),
    }
}

/// The result of a check, with its text as a sequence.
pub open spec fn checked_view(checked: Result<(), String>) -> Result<(), Seq<char>> {
    match checked {
        Ok(_) => Ok(()),
        Err(message) => Err(message@),
    }
}

/// Decides whether a session may be opened, after `authorize` has looked at the
/// request and what was left to check has been checked. `checked` counts only
/// where there was something to check.
pub fn open_session(
    asked: Result<Option<TokenCheck>, String>,
    checked: Result<(), String>,
) -> (r: Result<(), String>)
    ensures
        checked_view(r) == session_verdict(asked_view(asked), checked_view(checked)),
{
    match asked {
        Ok(None) => Ok(()),
        Ok(Some(_)) => token_verdict(checked),
        Err(message) => Err(message),
    }
}

// ---------------------------------------------------------------------------
// Laws
// ---------------------------------------------------------------------------

/// A session is opened only where authorization is off, or where the request has
/// a bearer token that has been checked with success.
pub proof fn law_session_needs_a_good_token(
    auth: AuthConfig,
    authorization: Option<Seq<char>>,
    checked: Result<(), Seq<char>>,
)
    requires
        session_verdict(admission(auth, authorization), checked) is Ok,
    ensures
        auth is Disabled || (checked is Ok && (authorization matches Some(value) && has_prefix(
            value,
            "Bearer "@,
        ))),
{
}

/// Where authorization is on, no request goes through unchecked: it is refused,
/// or it has a token that is to be checked for the issuer and the audience of the
/// server, with that key of the issuer which the header of the token names.
pub proof fn law_no_session_unchecked(
    issuer: String,
    audience: String,
    keys: Vec<SigningKey>,
    authorization: Option<Seq<char>>,
)
    ensures
        match admission(AuthConfig::Oidc { issuer, audience, keys }, authorization) {
            Ok(Some(check)) => {
                &&& check.issuer == issuer@
                &&& check.audience == audience@
                &&& authorization == Some("Bearer "@ + check.token)
                &&& token_header(check.token) matches Ok((Some(id), algorithm))
                &&& algorithm == check.algorithm
                &&& key_named(keys@, id) matches Some(key)
                &&& key.jwk@ == check.jwk
                &&& opt_view(key.id) == Some(id)
                &&& keys@.contains(key)
            },
            Ok(None) => false,
            Err(_) => true,
        },
{
    if let Some(value) = authorization {
        if has_prefix(value, "Bearer "@) {
            let token = value.skip("Bearer "@.len() as int);
            assert(value.subrange(0, "Bearer "@.len() as int) == "Bearer "@);
            assert("Bearer "@ + token =~= value);
            if let Ok((Some(id), _)) = token_header(token) {
                lemma_key_named(keys@, id);
            }
        }
    }
}

proof fn lemma_key_named(keys: Seq<SigningKey>, id: Seq<char>)
    ensures
        key_named(keys, id) matches Some(key) ==> keys.contains(key) && opt_view(key.id) == Some(
            id,
        ),
    decreases keys.len(),
{
    if keys.len() > 0 && opt_view(keys[0].id) != Some(id) {
        lemma_key_named(keys.skip(1), id);
        if let Some(key) = key_named(keys.skip(1), id) {
            let i = keys.skip(1).index_of(key);
            assert(keys[i + 1] == key);
        }
    }
}

/// A key is found by its name: it is the first of those with the name, and there
/// is none only where none has it.
pub proof fn law_keys_by_name(keys: Seq<SigningKey>, id: Seq<char>)
    ensures
        match key_named(keys, id) {
            Some(key) => exists|i: int|
                0 <= i < keys.len() && #[trigger] keys[i] == key && opt_view(key.id) == Some(id)
                    && forall|j: int|
                    0 <= j < i ==> opt_view((#[trigger] keys[j]).id) != Some(id),
            None => forall|j: int|
                0 <= j < keys.len() ==> opt_view((#[trigger] keys[j]).id) != Some(id),
        },
    decreases keys.len(),
{
    if keys.len() > 0 {
        if opt_view(keys[0].id) == Some(id) {
            assert(keys[0] == key_named(keys, id)->0);
        } else {
            let rest = keys.skip(1);
            law_keys_by_name(rest, id);
            assert(forall|j: int| 0 <= j < rest.len() ==> rest[j] == keys[j + 1]);
            match key_named(rest, id) {
                Some(key) => {
                    let i = choose|i: int|
                        0 <= i < rest.len() && #[trigger] rest[i] == key && opt_view(key.id)
                            == Some(id) && forall|j: int|
                            0 <= j < i ==> opt_view((#[trigger] rest[j]).id) != Some(id);
                    assert(keys[i + 1] == key);
                    assert forall|j: int| 0 <= j < i + 1 implies opt_view(
                        (#[trigger] keys[j]).id,
                    ) != Some(id) by {
                        if j > 0 {
                            assert(keys[j] == rest[j - 1]);
                        }
                    }
                },
                None => {
                    assert forall|j: int| 0 <= j < keys.len() implies opt_view(
                        (#[trigger] keys[j]).id,
                    ) != Some(id) by {
                        if j > 0 {
                            assert(keys[j] == rest[j - 1]);
                        }
                    }
                },
            }
        }
    }
}

/// A session is opened for every request where authorization is off, and where it
/// is on for one with a bearer token whose header can be read and names a usable
/// key of the issuer, once the check of the token succeeds. The check is for the
/// token, the algorithm of its header, that key, and the issuer and the audience of
/// the server.
pub proof fn law_good_token_opens_a_session(
    issuer: String,
    audience: String,
    keys: Vec<SigningKey>,
    token: Seq<char>,
    id: Seq<char>,
    algorithm: Seq<char>,
    key: SigningKey,
)
    requires
        token_header(token) == Ok::<(Option<Seq<char>>, Seq<char>), Seq<char>>(
            (Some(id), algorithm),
        ),
        key_named(keys@, id) == Some(key),
        jwk_fault(key.jwk@) is None,
        key_fault(key.jwk@) is None,
    ensures
        ({
            let auth = AuthConfig::Oidc { issuer, audience, keys };
            let asked = admission(auth, Some("Bearer "@ + token));
            &&& asked == Ok::<Option<CheckContent>, Seq<char>>(
                Some(
                    CheckContent {
                        token,
                        jwk: key.jwk@,
                        algorithm,
                        issuer: issuer@,
                        audience: audience@,
                    },
                ),
            )
            &&& session_verdict(asked, Ok(())) is Ok
        }),
        forall|authorization: Option<Seq<char>>, checked: Result<(), Seq<char>>| #[trigger]
            session_verdict(admission(AuthConfig::Disabled, authorization), checked) is Ok,
{
    let value = "Bearer "@ + token;
    let n = "Bearer "@.len() as int;
    assert(value.subrange(0, n) =~= "Bearer "@);
    assert(value.skip(n) =~= token);
}

/// A refusal keeps its reason: what was wrong with the request, or what the check
/// of the token found.
pub proof fn law_refusals_keep_their_reason(
    check: CheckContent,
    reason: Seq<char>,
    checked: Result<(), Seq<char>>,
)
    ensures
        session_verdict(Err(reason), checked) == Err::<(), Seq<char>>(reason),
        session_verdict(Ok(Some(check)), Err(reason)) == Err::<(), Seq<char>>(
            "invalid token: "@ + reason,
        ),
{
}

/// Sessions go unauthorized only where the options say so; otherwise an issuer and
/// an audience are needed, and the description of the issuer is looked for below
/// its address.
pub proof fn law_authorization_options(args: ServerArgs)
    ensures
        match wanted_auth(args) {
            Ok(AuthPlanContent::Disabled) => args.insecure_no_auth,
            Ok(AuthPlanContent::Discover { issuer, audience, discovery_url }) => {
                &&& !args.insecure_no_auth
                &&& opt_view(args.oidc_issuer) == Some(issuer)
                &&& opt_view(args.oidc_audience) == Some(audience)
                &&& discovery_url == without_trailing(issuer, '/')
                    + "/.well-known/openid-configuration"@
            },
            Err(_) => !args.insecure_no_auth && (args.oidc_issuer is None
                || args.oidc_audience is None),
        },
{
}

/// What is said of a check is what it holds.
pub proof fn law_content_of_a_check(check: TokenCheck)
    ensures
        check@.token == check.token@,
        check@.jwk == check.jwk@,
        check@.algorithm == check.algorithm@,
        check@.issuer == check.issuer@,
        check@.audience == check.audience@,
{
}

} // verus!
