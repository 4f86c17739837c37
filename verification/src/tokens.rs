//! Tokens that let a client listen to a session.

use vstd::prelude::*;

use crate::access::StreamClaims;
use crate::scalar::Scalar;
use crate::session::StreamSession;
use crate::streaming;
use crate::streaming::TokenError;

verus! {

/// The claims of a token that are looked at. A claim that is no text is none at
/// all; one that is missing is an empty text claim.
pub struct TokenFields {
    pub sub: Option<Option<String>>,
    pub sid: Option<Option<String>>,
    pub role: Option<Option<String>>,
    pub aud: Option<Option<String>>,
    pub exp: Option<u64>,
}

/// A text claim: none where it is no text, an empty one where it is missing.
pub open spec fn claim_text(c: Option<Option<String>>) -> Option<Option<Seq<char>>> {
    match c {
        None => None,
        Some(None) => Some(None),
        Some(Some(s)) => Some(Some(s@)),
    }
}

/// The subject, the session, the role, the audience and the expiry.
pub open spec fn fields_of(f: TokenFields) -> (
    Option<Option<Seq<char>>>,
    Option<Option<Seq<char>>>,
    Option<Option<Seq<char>>>,
    Option<Option<Seq<char>>>,
    Option<u64>,
) {
    (claim_text(f.sub), claim_text(f.sid), claim_text(f.role), claim_text(f.aud), f.exp)
}

/// What a token claims that is signed with the secret and is for the audience: its
/// subject, session, role, audience and expiry. None for a token that is refused at
/// any time.
pub uninterp spec fn signed_claims(token: Seq<char>, secret: Seq<char>, audience: Seq<char>) -> Option<
    (
        Option<Option<Seq<char>>>,
        Option<Option<Seq<char>>>,
        Option<Option<Seq<char>>>,
        Option<Option<Seq<char>>>,
        Option<u64>,
    ),
>;

/// A token that expires at `exp` is refused at `now`. It is good for a minute more
/// than it says.
pub open spec fn has_expired(exp: u64, now: u64) -> bool {
    exp + 60 < now
}

/// What decoding gives at `now` for a token with these claims. One whose expiry is
/// no whole number may be refused at any time.
pub open spec fn is_reply(
    claims: Option<
        (
            Option<Option<Seq<char>>>,
            Option<Option<Seq<char>>>,
            Option<Option<Seq<char>>>,
            Option<Option<Seq<char>>>,
            Option<u64>,
        ),
    >,
    now: u64,
    r: Result<TokenFields, String>,
) -> bool {
    match claims {
        None => r is Err,
        Some(c) => match c.4 {
            None => r matches Ok(f) ==> fields_of(f) == c,
            Some(exp) => if has_expired(exp, now) {
                r is Err
            } else {
                r matches Ok(f) && fields_of(f) == c
            },
        },
    }
}

/// An audience that is claimed is the one that is asked for.
pub open spec fn for_audience(f: TokenFields, audience: Seq<char>) -> bool {
    claim_text(f.aud) matches Some(Some(a)) ==> a == audience
}

/// Decodes a token with `jsonwebtoken::decode`, which checks that it is signed with
/// the secret by HS256, is for the audience, names an expiry and has not expired,
/// with a leeway of 60 seconds. All of this but the last depends on the arguments
/// alone and has a name: a token without named claims is refused, and one with them
/// gives them until it has expired at the time `now` that the clock shows. An
/// audience among them is the one that was asked for.
/// Left unsaid are the time itself, which is some time after the first minute of
/// 1970, the words of the errors, and when a token is refused whose expiry is no
/// whole number.
#[verifier::external_body]
fn decode_token(token: &str, secret: &str, audience: &str) -> (r: Result<TokenFields, String>)
    ensures
        exists|now: u64| #[trigger] is_reply(signed_claims(token@, secret@, audience@), now, r),
        r matches Ok(f) ==> for_audience(f, audience@),
{
    let mut validation = jsonwebtoken::Validation::new(jsonwebtoken::Algorithm::HS256);
    validation.set_audience(&[audience]);
    let key = jsonwebtoken::DecodingKey::from_secret(secret.as_bytes());
    let data = jsonwebtoken::decode::<serde_json::Value>(token, &key, &validation).map_err(|e| e.to_string())?;
    Ok(
        TokenFields {
            sub: serde_json::from_value(data.claims["sub"].clone()).ok(),
            sid: serde_json::from_value(data.claims["sid"].clone()).ok(),
            role: serde_json::from_value(data.claims["role"].clone()).ok(),
            aud: serde_json::from_value(data.claims["aud"].clone()).ok(),
            exp: serde_json::from_value(data.claims["exp"].clone()).ok(),
        },
    )
}

/// The session, the role and the expiry that a token claims, if each of its claims
/// is of the right kind.
pub open spec fn stream_claims_of(
    f: (
        Option<Option<Seq<char>>>,
        Option<Option<Seq<char>>>,
        Option<Option<Seq<char>>>,
        Option<Option<Seq<char>>>,
        Option<u64>,
    ),
) -> Option<(Option<Seq<char>>, Option<Seq<char>>, u64)> {
    match f {
        (Some(_), Some(sid), Some(role), Some(_), Some(exp)) => Some((sid, role, exp)),
        _ => None,
    }
}

pub open spec fn opt_view(t: Option<String>) -> Option<Seq<char>> {
    match t {
        Some(s) => Some(s@),
        None => None,
    }
}

pub open spec fn claims_view(c: StreamClaims) -> (Option<Seq<char>>, Option<Seq<char>>, u64) {
    (opt_view(c.sid), opt_view(c.role), c.exp)
}

/// Reads the claims that count.
pub fn read_claims(f: TokenFields) -> (r: Option<StreamClaims>)
    ensures
        match r {
            None => stream_claims_of(fields_of(f)) is None,
            Some(c) => stream_claims_of(fields_of(f)) == Some(claims_view(c)),
        },
{
    match (f.sub, f.sid, f.role, f.aud, f.exp) {
        (Some(_), Some(sid), Some(role), Some(_), Some(exp)) => Some(StreamClaims { sid, role, exp }),
        _ => None,
    }
}

/// What is read off the outcome of decoding. Claims of the wrong kind are refused.
pub fn settle_claims(reply: Result<TokenFields, String>) -> (r: Result<StreamClaims, String>)
    ensures
        match reply {
            Err(e) => r == Err::<StreamClaims, String>(e),
            Ok(f) => match stream_claims_of(fields_of(f)) {
                None => r matches Err(e) && e@ == "JSON error: invalid claims"@,
                Some(k) => r matches Ok(c) && claims_view(c) == k,
            },
        },
{
    match reply {
        Err(e) => Err(e),
        Ok(f) => match read_claims(f) {
            Some(c) => Ok(c),
            None => Err("JSON error: invalid claims".to_owned()),
        },
    }
}

/// The session, the role and the expiry that a token with these claims is accepted
/// for at `now`.
pub open spec fn accepted_at(
    claims: Option<
        (
            Option<Option<Seq<char>>>,
            Option<Option<Seq<char>>>,
            Option<Option<Seq<char>>>,
            Option<Option<Seq<char>>>,
            Option<u64>,
        ),
    >,
    now: u64,
) -> Option<(Option<Seq<char>>, Option<Seq<char>>, u64)> {
    match claims {
        None => None,
        Some(c) => match stream_claims_of(c) {
            None => None,
            Some(k) => if has_expired(k.2, now) {
                None
            } else {
                Some(k)
            },
        },
    }
}

/// Decodes a token. At the time `now` that the clock shows, a token is accepted
/// exactly if it is signed with the secret, is for the audience, has claims of the
/// right kinds and has not expired; then its claims are given.
pub fn decode_claims(token: &str, secret: &str, audience: &str) -> (r: Result<StreamClaims, String>)
    ensures
        exists|now: u64|
            match #[trigger] accepted_at(signed_claims(token@, secret@, audience@), now) {
                None => r is Err,
                Some(k) => r matches Ok(c) && claims_view(c) == k,
            },
{
    let reply = decode_token(token, secret, audience);
    let ghost claims = signed_claims(token@, secret@, audience@);
    let ghost now = choose|now: u64| is_reply(claims, now, reply);
    let r = settle_claims(reply);
    assert(match accepted_at(claims, now) {
        None => r is Err,
        Some(k) => r matches Ok(c) && claims_view(c) == k,
    });
    r
}

/// Why a token for a session is refused.
pub enum RefreshError {
    Refused(TokenError),
    /// It could not be decoded.
    Invalid(String),
}

/// The claims are for this session and for its administrator.
pub open spec fn admits(claims: (Option<Seq<char>>, Option<Seq<char>>, u64), session_id: Seq<char>) -> Option<TokenError> {
    if claims.0 != Some(session_id) {
        Some(TokenError::SidMismatch)
    } else if claims.1 != Some("admin"@) {
        Some(TokenError::AdminRequired)
    } else {
        None
    }
}

impl<S: Scalar> StreamSession<S> {
    /// Takes the claims of a decoded token: the session may go on until it expires.
    pub fn apply_claims(&mut self, c: &StreamClaims) -> (r: Result<u64, TokenError>)
        ensures
            match admits(claims_view(*c), old(self).id@) {
                Some(e) => r == Err::<u64, TokenError>(e) && *final(self) == *old(self),
                None => r == Ok::<u64, TokenError>(c.exp) && *final(self) == (StreamSession {
                    auth_expires_unix_s: c.exp,
                    ..*old(self)
                }),
            },
    {
        let sid: Option<&str> = match &c.sid {
            Some(s) => Some(s.as_str()),
            None => None,
        };
        let role: Option<&str> = match &c.role {
            Some(s) => Some(s.as_str()),
            None => None,
        };
        match streaming::check_token_claims(sid, role, self.id.as_str()) {
            Some(e) => Err(e),
            None => {
                self.set_auth_expiry_unix_s(c.exp);
                Ok(c.exp)
            },
        }
    }

    /// Takes a new token. At the time `now` that the clock shows, it prolongs the
    /// session exactly if it was signed with the secret, has not expired, is for this
    /// session and for its administrator; one that is refused changes nothing.
    pub fn validate_and_apply_stream_token(&mut self, token: &str, secret: &str, audience: &str) -> (r: Result<
        u64,
        RefreshError,
    >)
        ensures
            crate::chars::trimmed(token@).len() == 0 ==> (r matches Err(RefreshError::Refused(TokenError::Missing))),
            crate::chars::trimmed(token@).len() > 0 && crate::chars::trimmed(secret@).len() == 0 ==> (r matches Err(
                RefreshError::Refused(TokenError::NotConfigured),
            )),
            r is Err ==> *final(self) == *old(self),
            crate::chars::trimmed(token@).len() > 0 && crate::chars::trimmed(secret@).len() > 0 ==> exists|now: u64|
                match #[trigger] accepted_at(signed_claims(token@, secret@, audience@), now) {
                    None => r matches Err(RefreshError::Invalid(_)),
                    Some(c) => match admits(c, old(self).id@) {
                        Some(e) => r == Err::<u64, RefreshError>(RefreshError::Refused(e)),
                        None => r == Ok::<u64, RefreshError>(c.2) && *final(self) == (StreamSession {
                            auth_expires_unix_s: c.2,
                            ..*old(self)
                        }),
                    },
                },
    {
        match streaming::check_token_setup(token, secret) {
            Some(e) => return Err(RefreshError::Refused(e)),
            None => {},
        }
        match decode_claims(token, secret, audience) {
            Err(e) => Err(RefreshError::Invalid(e)),
            Ok(c) => match self.apply_claims(&c) {
                Ok(exp) => Ok(exp),
                Err(e) => Err(RefreshError::Refused(e)),
            },
        }
    }
}

/// A token is accepted up to a minute behind its end and not later, and only if it makes
/// all its claims.
pub proof fn law_tokens_end(
    sub: Option<Option<Seq<char>>>,
    sid: Option<Option<Seq<char>>>,
    role: Option<Option<Seq<char>>>,
    aud: Option<Option<Seq<char>>>,
    exp: Option<u64>,
    now: u64,
)
    ensures
        ({
            let whole = sub is Some && sid is Some && role is Some && aud is Some && exp is Some;
            let r = accepted_at(Some((sub, sid, role, aud, exp)), now);
            &&& r is Some <==> whole && now <= exp->0 + 60
            &&& r matches Some(k) ==> k.0 == sid->0 && k.1 == role->0 && k.2 == exp->0
        }),
        accepted_at(None, now) is None,
{
}

/// Claims admit an admin to the session that they name, and to no other.
pub proof fn law_claims_admit_admins(sid: Option<Seq<char>>, role: Option<Seq<char>>, exp: u64, session_id: Seq<char>)
    ensures
        admits((sid, role, exp), session_id) is None <==> sid == Some(session_id) && role == Some("admin"@),
        sid != Some(session_id) ==> admits((sid, role, exp), session_id) == Some(TokenError::SidMismatch),
        sid == Some(session_id) && role != Some("admin"@) ==> admits((sid, role, exp), session_id) == Some(
            TokenError::AdminRequired,
        ),
{
}

} // verus!
