//! Who may use the service.

use vstd::prelude::*;

use crate::chars;
use crate::config;
use crate::config::Settings;
use crate::net::{Address, Cidr};
use crate::scalar::Scalar;
use crate::streaming;
use crate::tokens;

verus! {

/// How a request is refused.
#[derive(Clone, Copy, Debug, PartialEq, Eq, Structural)]
pub enum Denied {
    Unauthorized,
    Forbidden,
    NotFound,
}

/// `s` without `prefix` in front, if it stands there.
pub open spec fn stripped_prefix(s: Seq<char>, prefix: Seq<char>) -> Option<Seq<char>> {
    if chars::starts_with(s, prefix) {
        Some(s.skip(prefix.len() as int))
    } else {
        None
    }
}

pub fn strip_prefix(s: &str, prefix: &str) -> (r: Option<String>)
    ensures
        match r {
            None => stripped_prefix(s@, prefix@) is None,
            Some(t) => stripped_prefix(s@, prefix@) == Some(t@),
        },
{
    let cs = chars::to_chars(s);
    let ps = chars::to_chars(prefix);
    assert(cs@.skip(0) =~= cs@);
    if chars::text_at(&cs, 0, &ps) {
        let t = chars::from_chars(&cs, ps.len(), cs.len());
        assert(t@ =~= s@.skip(prefix@.len() as int));
        Some(t)
    } else {
        None
    }
}

/// The text of an optional header, empty if there is none.
pub open spec fn header_text(h: Option<&str>) -> Seq<char> {
    match h {
        Some(s) => s@,
        None => Seq::empty(),
    }
}

/// The token of an authorization header.
pub open spec fn bearer_of(header: Seq<char>) -> Option<Seq<char>> {
    match stripped_prefix(header, "Bearer "@) {
        Some(t) => Some(t),
        None => stripped_prefix(header, "bearer "@),
    }
}

pub fn bearer_token(header: &str) -> (r: Option<String>)
    ensures
        match r {
            None => bearer_of(header@) is None,
            Some(t) => bearer_of(header@) == Some(t@),
        },
{
    match strip_prefix(header, "Bearer ") {
        Some(t) => Some(t),
        None => strip_prefix(header, "bearer "),
    }
}

/// Some range covers the address.
pub open spec fn is_covered(nets: Seq<Cidr>, ip: Address) -> bool {
    exists|i: int| 0 <= i < nets.len() && (#[trigger] nets[i]).covers(ip)
}

/// The bits of an address fit its kind.
pub open spec fn is_address(ip: Option<Address>) -> bool {
    ip matches Some(a) ==> (!a.v6 ==> a.bits <= u32::MAX)
}

/// Only known addresses, and only those of the ranges, if there are any.
pub open spec fn by_address(ip: Option<Address>, nets: Seq<Cidr>) -> Result<(), Denied> {
    match ip {
        None => Err(Denied::Forbidden),
        Some(a) => if nets.len() == 0 || is_covered(nets, a) {
            Ok(())
        } else {
            Err(Denied::Forbidden)
        },
    }
}

pub fn require_allow_cidrs(remote_ip: Option<Address>, allow_cidrs: &[Cidr]) -> (r: Result<(), Denied>)
    requires
        is_address(remote_ip),
        config::all_nets_wf(allow_cidrs@),
    ensures
        r == by_address(remote_ip, allow_cidrs@),
{
    let ip = match remote_ip {
        Some(a) => a,
        None => return Err(Denied::Forbidden),
    };
    if allow_cidrs.len() == 0 {
        return Ok(());
    }
    let mut i: usize = 0;
    while i < allow_cidrs.len()
        invariant
            i <= allow_cidrs@.len(),
            !ip.v6 ==> ip.bits <= u32::MAX,
            config::all_nets_wf(allow_cidrs@),
            remote_ip == Some(ip),
            forall|j: int| 0 <= j < i ==> !(#[trigger] allow_cidrs@[j]).covers(ip),
        decreases allow_cidrs@.len() - i,
    {
        if allow_cidrs[i].contains(ip) {
            return Ok(());
        }
        i = i + 1;
    }
    Err(Denied::Forbidden)
}

/// With a key, the key opens; without one, or where both are asked for, the
/// address must be allowed.
pub open spec fn internal_access(
    authorization: Seq<char>,
    ip: Option<Address>,
    api_key: Seq<char>,
    both: bool,
    nets: Seq<Cidr>,
) -> Result<(), Denied> {
    if api_key.len() > 0 && !(bearer_of(authorization) matches Some(t) && chars::trimmed(t) == api_key) {
        Err(Denied::Unauthorized)
    } else if api_key.len() > 0 && !both {
        Ok(())
    } else {
        by_address(ip, nets)
    }
}

pub fn require_internal_access<S: Scalar>(
    authorization: Option<&str>,
    remote_ip: Option<Address>,
    settings: &Settings<S>,
) -> (r: Result<(), Denied>)
    requires
        is_address(remote_ip),
        config::all_nets_wf(settings.allow_cidrs@),
    ensures
        r == internal_access(
            header_text(authorization),
            remote_ip,
            settings.api_key@,
            settings.enforce_allow_cidrs_with_api_key,
            settings.allow_cidrs@,
        ),
{
    if !settings.api_key.as_str().is_empty() {
        proof {
            reveal_strlit("");
            assert(""@ =~= Seq::<char>::empty());
        }
        let header: &str = match authorization {
            Some(h) => h,
            None => "",
        };
        let known: bool = match bearer_token(header) {
            Some(t) => chars::same_text(chars::trim(t.as_str()).as_str(), settings.api_key.as_str()),
            None => false,
        };
        if !known {
            return Err(Denied::Unauthorized);
        }
        if !settings.enforce_allow_cidrs_with_api_key {
            return Ok(());
        }
    }
    require_allow_cidrs(remote_ip, &settings.allow_cidrs)
}

/// Where a key is set, a request without it is refused, wherever it comes from.
pub proof fn law_wrong_key_is_refused(
    authorization: Seq<char>,
    ip: Option<Address>,
    api_key: Seq<char>,
    both: bool,
    nets: Seq<Cidr>,
)
    requires
        api_key.len() > 0,
        !(bearer_of(authorization) matches Some(t) && chars::trimmed(t) == api_key),
    ensures
        internal_access(authorization, ip, api_key, both, nets) == Err::<(), Denied>(Denied::Unauthorized),
{
}

/// Where no key is set, or both are asked for, a request from outside the ranges
/// does not get in.
pub proof fn law_outsiders_do_not_get_in(
    authorization: Seq<char>,
    ip: Address,
    api_key: Seq<char>,
    both: bool,
    nets: Seq<Cidr>,
)
    requires
        api_key.len() == 0 || both,
        nets.len() > 0,
        !is_covered(nets, ip),
    ensures
        internal_access(authorization, Some(ip), api_key, both, nets) is Err,
{
}

/// The test page: it must be switched on, the address allowed, and the key right.
pub open spec fn test_access(
    key: Option<&str>,
    ip: Option<Address>,
    enabled: bool,
    wanted: Seq<char>,
    nets: Seq<Cidr>,
) -> Result<(), Denied> {
    if !enabled {
        Err(Denied::NotFound)
    } else if by_address(ip, nets) is Err {
        by_address(ip, nets)
    } else if chars::trimmed(header_text(key)).len() == 0 || chars::trimmed(wanted).len() == 0 || chars::trimmed(
        header_text(key),
    ) != wanted {
        Err(Denied::Unauthorized)
    } else {
        Ok(())
    }
}

pub fn require_internal_streaming_test<S: Scalar>(
    key: Option<&str>,
    remote_ip: Option<Address>,
    settings: &Settings<S>,
) -> (r: Result<(), Denied>)
    requires
        is_address(remote_ip),
        config::all_nets_wf(settings.allow_cidrs@),
    ensures
        r == test_access(
            key,
            remote_ip,
            settings.internal_streaming_test_enabled,
            settings.internal_streaming_test_key@,
            settings.allow_cidrs@,
        ),
{
    if !settings.internal_streaming_test_enabled {
        return Err(Denied::NotFound);
    }
    match require_allow_cidrs(remote_ip, &settings.allow_cidrs) {
        Ok(_) => {},
        Err(e) => return Err(e),
    }
    let got = match key {
        Some(k) => chars::trim(k),
        None => {
            assert(chars::trimmed(Seq::<char>::empty()) =~= Seq::<char>::empty());
            return Err(Denied::Unauthorized);
        },
    };
    if got.as_str().is_empty() {
        return Err(Denied::Unauthorized);
    }
    if chars::trim(settings.internal_streaming_test_key.as_str()).as_str().is_empty() || !chars::same_text(
        got.as_str(),
        settings.internal_streaming_test_key.as_str(),
    ) {
        return Err(Denied::Unauthorized);
    }
    Ok(())
}

/// What a decoded token claims.
pub struct StreamClaims {
    pub sid: Option<String>,
    pub role: Option<String>,
    pub exp: u64,
}

pub open spec fn claim_is(claim: Option<String>, t: Seq<char>) -> bool {
    claim matches Some(s) && s@ == t
}

/// The token is for this session and for its administrator.
pub open spec fn claims_session(c: StreamClaims, session_id: Seq<char>) -> bool {
    claim_is(c.sid, session_id) && claim_is(c.role, "admin"@)
}

/// The token to decode: that of the header, without white space around it, if it
/// is not empty and there is a secret to decode it with.
pub open spec fn stream_token_of(authorization: Option<&str>, secret: Seq<char>) -> Option<Seq<char>> {
    match authorization {
        None => None,
        Some(h) => match bearer_of(h@) {
            None => None,
            Some(t) => if secret.len() == 0 || chars::trimmed(t).len() == 0 {
                None
            } else {
                Some(chars::trimmed(t))
            },
        },
    }
}

pub fn stream_token(authorization: Option<&str>, secret: &str) -> (r: Option<String>)
    ensures
        match r {
            None => stream_token_of(authorization, secret@) is None,
            Some(t) => stream_token_of(authorization, secret@) == Some(t@),
        },
{
    if secret.is_empty() {
        return None;
    }
    let header = match authorization {
        Some(h) => h,
        None => return None,
    };
    match bearer_token(header) {
        None => None,
        Some(t) => {
            let t = chars::trim(t.as_str());
            if t.as_str().is_empty() {
                None
            } else {
                Some(t)
            }
        },
    }
}

/// Who may listen to a session: the holder of its token, until the token expires;
/// users of the test page; and others with access.
pub open spec fn stream_access<S: Scalar>(
    claims: Option<StreamClaims>,
    session_id: Seq<char>,
    key: Option<&str>,
    authorization: Seq<char>,
    ip: Option<Address>,
    settings: Settings<S>,
) -> Result<Option<u64>, Denied> {
    if claims matches Some(c) && claims_session(c, session_id) {
        Ok(Some(claims->0.exp))
    } else if test_access(
        key,
        ip,
        settings.internal_streaming_test_enabled,
        settings.internal_streaming_test_key@,
        settings.allow_cidrs@,
    ) is Ok {
        Ok(None)
    } else {
        match internal_access(
            authorization,
            ip,
            settings.api_key@,
            settings.enforce_allow_cidrs_with_api_key,
            settings.allow_cidrs@,
        ) {
            Ok(_) => Ok(None),
            Err(e) => Err(e),
        }
    }
}

/// Whether a client may listen to a session, and until when if a token says so.
pub fn require_stream_access<S: Scalar>(
    claims: Option<&StreamClaims>,
    session_id: &str,
    key: Option<&str>,
    authorization: Option<&str>,
    remote_ip: Option<Address>,
    settings: &Settings<S>,
) -> (r: Result<Option<u64>, Denied>)
    requires
        is_address(remote_ip),
        config::all_nets_wf(settings.allow_cidrs@),
    ensures
        r == stream_access(
            match claims {
                None => None,
                Some(c) => Some(*c),
            },
            session_id@,
            key,
            header_text(authorization),
            remote_ip,
            *settings,
        ),
{
    match claims {
        Some(c) => {
            let sid: Option<&str> = match &c.sid {
                Some(s) => Some(s.as_str()),
                None => None,
            };
            let role: Option<&str> = match &c.role {
                Some(s) => Some(s.as_str()),
                None => None,
            };
            if streaming::check_token_claims(sid, role, session_id).is_none() {
                return Ok(Some(c.exp));
            }
        },
        None => {},
    }
    if require_internal_streaming_test(key, remote_ip, settings).is_ok() {
        return Ok(None);
    }
    match require_internal_access(authorization, remote_ip, settings) {
        Ok(_) => Ok(None),
        Err(e) => Err(e),
    }
}

/// Whether a client may listen to a session: by the token in its header, or else as
/// anyone without one. At the time `now` that the clock shows, a token lets it in
/// exactly if it was signed with the secret of the service, has not expired, is for
/// this session and for its administrator.
pub fn authorize_stream<S: Scalar>(
    authorization: Option<&str>,
    session_id: &str,
    key: Option<&str>,
    remote_ip: Option<Address>,
    settings: &Settings<S>,
) -> (r: Result<Option<u64>, Denied>)
    requires
        is_address(remote_ip),
        config::all_nets_wf(settings.allow_cidrs@),
    ensures
        ({
            let plain = stream_access(None, session_id@, key, header_text(authorization), remote_ip, *settings);
            match stream_token_of(authorization, settings.stream_jwt_secret@) {
                None => r == plain,
                Some(t) => exists|now: u64|
                    match #[trigger] tokens::accepted_at(
                        tokens::signed_claims(t, settings.stream_jwt_secret@, settings.stream_jwt_audience@),
                        now,
                    ) {
                        None => r == plain,
                        Some(c) => if tokens::admits(c, session_id@) is None {
                            r == Ok::<Option<u64>, Denied>(Some(c.2))
                        } else {
                            r == plain
                        },
                    },
            }
        }),
{
    let claims: Option<StreamClaims> = match stream_token(authorization, settings.stream_jwt_secret.as_str()) {
        None => None,
        Some(t) => match tokens::decode_claims(
            t.as_str(),
            settings.stream_jwt_secret.as_str(),
            settings.stream_jwt_audience.as_str(),
        ) {
            Ok(c) => Some(c),
            Err(_) => None,
        },
    };
    require_stream_access(claims.as_ref(), session_id, key, authorization, remote_ip, settings)
}

// ---------------------------------------------------------------------------
// Requests

/// Whether a request says that its body is JSON.
pub fn content_type_is_json(content_type: Option<&str>) -> (r: bool)
    ensures
        r == (content_type matches Some(s) && chars::starts_with(chars::lowercase(s@), "application/json"@)),
{
    match content_type {
        Some(s) => {
            let low = chars::to_lower(s);
            strip_prefix(low.as_str(), "application/json").is_some()
        },
        None => false,
    }
}

/// A rule is a host name, or `*.` and a name for it and all names below it.
pub open spec fn rule_allows(rule: Seq<char>, host: Seq<char>) -> bool {
    rule.len() > 0 && (rule == host || (stripped_prefix(rule, "*."@) matches Some(suffix) && (host == suffix
        || chars::ends_with(host, seq!['.'] + suffix))))
}

/// Both in lower case and without white space around them.
pub open spec fn plain_host(s: Seq<char>) -> Seq<char> {
    chars::lowercase(chars::trimmed(s))
}

/// Without rules all hosts are allowed; with rules, those that some rule allows.
pub open spec fn is_host_allowed(host: Seq<char>, allow: Seq<Seq<char>>) -> bool {
    allow.len() == 0 || (plain_host(host).len() > 0 && exists|i: int|
        0 <= i < allow.len() && rule_allows(plain_host(#[trigger] allow[i]), plain_host(host)))
}

fn rule_lets(rule: &str, host: &str) -> (r: bool)
    ensures
        r == rule_allows(rule@, host@),
{
    if rule.is_empty() {
        return false;
    }
    if chars::same_text(rule, host) {
        return true;
    }
    match strip_prefix(rule, "*.") {
        Some(suffix) => {
            if chars::same_text(host, suffix.as_str()) {
                return true;
            }
            let mut dotted = String::new();
            dotted.push('.');
            dotted.append(suffix.as_str());
            assert(dotted@ =~= seq!['.'] + suffix@);
            ends_in(host, dotted.as_str())
        },
        None => false,
    }
}

fn ends_in(s: &str, t: &str) -> (r: bool)
    ensures
        r == chars::ends_with(s@, t@),
{
    let cs = chars::to_chars(s);
    let ts = chars::to_chars(t);
    if cs.len() < ts.len() {
        return false;
    }
    let at: usize = cs.len() - ts.len();
    assert(cs@.skip(at as int).take(ts@.len() as int) =~= cs@.skip(at as int));
    chars::text_at(&cs, at, &ts)
}

pub fn host_allowed(host: &str, allow: &[String]) -> (r: bool)
    ensures
        r == is_host_allowed(host@, chars::views(allow@)),
{
    if allow.len() == 0 {
        return true;
    }
    let ghost rules = chars::views(allow@);
    let h = chars::to_lower(chars::trim(host).as_str());
    if h.as_str().is_empty() {
        return false;
    }
    let mut i: usize = 0;
    while i < allow.len()
        invariant
            i <= allow@.len(),
            rules == chars::views(allow@),
            h@ == plain_host(host@),
            h@.len() > 0,
            forall|j: int| 0 <= j < i ==> !rule_allows(plain_host(#[trigger] rules[j]), h@),
        decreases allow@.len() - i,
    {
        let rule = chars::to_lower(chars::trim(allow[i].as_str()).as_str());
        assert(rules[i as int] == allow@[i as int]@);
        if rule_lets(rule.as_str(), h.as_str()) {
            return true;
        }
        i = i + 1;
    }
    false
}

/// The host that an address names: none where the text is no address, an empty one
/// where the address names none.
pub uninterp spec fn url_host(s: Seq<char>) -> Option<Option<Seq<char>>>;

pub open spec fn host_in(h: Option<Option<String>>) -> Option<Option<Seq<char>>> {
    match h {
        None => None,
        Some(None) => Some(None),
        Some(Some(t)) => Some(Some(t@)),
    }
}

/// Reads an address with `reqwest::Url::parse` and gives its host, as `host_str`
/// does. The result has a name.
#[verifier::external_body]
fn parse_url_host(s: &str) -> (r: Option<Option<String>>)
    ensures
        host_in(r) == url_host(s@),
{
    reqwest::Url::parse(s).ok().map(|u| u.host_str().map(|h| h.to_string()))
}

/// Whether audio may be fetched from an address.
#[derive(Clone, Copy, Debug, PartialEq, Eq, Structural)]
pub enum SourceCheck {
    Allowed,
    /// The text is no address.
    Invalid,
    HostNotAllowed,
}

/// An address without a host counts as one with an empty name.
pub open spec fn source_check(host: Option<Option<Seq<char>>>, allow: Seq<Seq<char>>) -> SourceCheck {
    match host {
        None => SourceCheck::Invalid,
        Some(h) => {
            let name = match h {
                Some(t) => t,
                None => Seq::empty(),
            };
            if is_host_allowed(name, allow) {
                SourceCheck::Allowed
            } else {
                SourceCheck::HostNotAllowed
            }
        },
    }
}

/// Whether audio may be fetched from an address whose host is known.
pub fn check_source_host(host: &Option<Option<String>>, allow: &[String]) -> (r: SourceCheck)
    ensures
        r == source_check(host_in(*host), chars::views(allow@)),
{
    match host {
        None => SourceCheck::Invalid,
        Some(h) => {
            let name: &str = match h {
                Some(t) => t.as_str(),
                None => "",
            };
            proof {
                reveal_strlit("");
                assert(""@ =~= Seq::<char>::empty());
            }
            if host_allowed(name, allow) {
                SourceCheck::Allowed
            } else {
                SourceCheck::HostNotAllowed
            }
        },
    }
}

/// Whether audio may be fetched from an address: its host must be allowed.
pub fn check_source_url(source_url: &str, allow: &[String]) -> (r: SourceCheck)
    ensures
        r == source_check(url_host(source_url@), chars::views(allow@)),
{
    check_source_host(&parse_url_host(source_url), allow)
}

/// What follows `Bearer ` or `bearer ` is the token; a header without either has none.
pub proof fn law_bearer_tokens_are_read(t: Seq<char>)
    ensures
        bearer_of("Bearer "@ + t) == Some(t),
        bearer_of("bearer "@ + t) == Some(t),
        bearer_of(t) matches Some(rest) ==> t == "Bearer "@ + rest || t == "bearer "@ + rest,
{
    reveal_strlit("Bearer ");
    reveal_strlit("bearer ");
    let a = "Bearer "@ + t;
    let b = "bearer "@ + t;
    assert(a.take(7) =~= "Bearer "@);
    assert(a.skip(7) =~= t);
    assert(b.take(7) =~= "bearer "@);
    assert(b.skip(7) =~= t);
    assert(b[0] == 'b' && "Bearer "@[0] == 'B');
    assert(b.take(7)[0] != "Bearer "@[0]);
    assert(t.len() >= 7 ==> t =~= t.take(7) + t.skip(7));
}

/// Who brings the key gets in from anywhere, unless the address counts too. Without a
/// key to bring, the address decides.
pub proof fn law_right_key_gets_in(key: Seq<char>, authorization: Seq<char>, ip: Option<Address>, nets: Seq<Cidr>)
    requires
        key.len() > 0,
        chars::trimmed(key) == key,
    ensures
        internal_access("Bearer "@ + key, ip, key, false, nets) == Ok::<(), Denied>(()),
        internal_access("Bearer "@ + key, ip, key, true, nets) is Ok <==> (ip matches Some(a) && (nets.len() == 0
            || exists|i: int| 0 <= i < nets.len() && (#[trigger] nets[i]).covers(a))),
        internal_access(authorization, ip, Seq::empty(), false, nets) is Ok <==> (ip matches Some(a) && (nets.len() == 0
            || exists|i: int| 0 <= i < nets.len() && (#[trigger] nets[i]).covers(a))),
        internal_access(authorization, ip, Seq::empty(), true, nets) == internal_access(
            authorization,
            ip,
            Seq::empty(),
            false,
            nets,
        ),
{
    law_bearer_tokens_are_read(key);
}

/// The test entrance is found only where it is enabled, and admits only who comes from an
/// allowed address with the key.
pub proof fn law_test_entrance_needs_its_key(
    key: Option<&str>,
    ip: Option<Address>,
    enabled: bool,
    wanted: Seq<char>,
    nets: Seq<Cidr>,
)
    ensures
        ({
            let r = test_access(key, ip, enabled, wanted, nets);
            &&& !enabled <==> r == Err::<(), Denied>(Denied::NotFound)
            &&& r is Ok <==> {
                &&& enabled
                &&& ip matches Some(a) && (nets.len() == 0 || exists|i: int|
                    0 <= i < nets.len() && (#[trigger] nets[i]).covers(a))
                &&& key matches Some(k) && chars::trimmed(k@) == wanted
                &&& chars::trimmed(wanted).len() > 0 && wanted.len() > 0
            }
        }),
{
    chars::lemma_trimmed_part(wanted);
}

/// A token for this very session, held by an admin, gets in until it ends; any other
/// token changes nothing.
pub proof fn law_tokens_open_their_session<S: Scalar>(
    c: StreamClaims,
    session_id: Seq<char>,
    key: Option<&str>,
    authorization: Seq<char>,
    ip: Option<Address>,
    settings: Settings<S>,
)
    ensures
        ({
            let fits = c.sid matches Some(s) && s@ == session_id && (c.role matches Some(r) && r@ == "admin"@);
            let r = stream_access(Some(c), session_id, key, authorization, ip, settings);
            let plain = stream_access(None, session_id, key, authorization, ip, settings);
            &&& fits ==> r == Ok::<Option<u64>, Denied>(Some(c.exp))
            &&& !fits ==> r == plain
            &&& !(plain matches Ok(Some(_)))
            &&& plain is Ok <==> {
                ||| test_access(
                    key,
                    ip,
                    settings.internal_streaming_test_enabled,
                    settings.internal_streaming_test_key@,
                    settings.allow_cidrs@,
                ) is Ok
                ||| internal_access(
                    authorization,
                    ip,
                    settings.api_key@,
                    settings.enforce_allow_cidrs_with_api_key,
                    settings.allow_cidrs@,
                ) is Ok
            }
        }),
{
}

/// A host is allowed if a rule names it, or names with a star in front a domain that it
/// is or lies in. Without rules all are.
pub proof fn law_rules_allow_hosts(suffix: Seq<char>, label: Seq<char>, host: Seq<char>)
    ensures
        host.len() > 0 ==> rule_allows(host, host),
        rule_allows("*."@ + suffix, suffix),
        rule_allows("*."@ + suffix, label + seq!['.'] + suffix),
        !rule_allows(Seq::empty(), host),
        !chars::starts_with(suffix, "*."@) && host != suffix ==> !rule_allows(suffix, host),
        rule_allows("*."@ + suffix, host) ==> host == "*."@ + suffix || host == suffix || chars::ends_with(
            host,
            seq!['.'] + suffix,
        ),
        is_host_allowed(host, Seq::empty()),
{
    reveal_strlit("*.");
    let rule = "*."@ + suffix;
    assert(rule.take(2) =~= "*."@);
    assert(rule.skip(2) =~= suffix);
    let h = label + seq!['.'] + suffix;
    assert(h.skip(h.len() - (suffix.len() + 1)) =~= seq!['.'] + suffix);
}

/// With rules, a host without a name is refused, and another is allowed if one of the
/// rules allows it, in small letters and without the space around them.
pub proof fn law_hosts_need_a_rule(host: Seq<char>, allow: Seq<Seq<char>>)
    requires
        allow.len() > 0,
    ensures
        is_host_allowed(host, allow) <==> chars::lowercase(chars::trimmed(host)).len() > 0 && exists|i: int|
            0 <= i < allow.len() && rule_allows(
                chars::lowercase(chars::trimmed(#[trigger] allow[i])),
                chars::lowercase(chars::trimmed(host)),
            ),
        source_check(None, allow) == SourceCheck::Invalid,
        source_check(Some(Some(host)), allow) == SourceCheck::Allowed <==> is_host_allowed(host, allow),
        source_check(Some(Some(host)), allow) != SourceCheck::Invalid,
{
}

} // verus!
