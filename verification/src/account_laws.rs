//! Calls on the store of identities and on the server, one after the other.
use crate::access_laws::law_refused_settings;
use crate::auth::{
    AuthError, AuthFailure, CreateIdentityRequest, CredentialKind, Identity, IdentityStore,
    SessionToken,
};
use crate::http::{
    authorize_at, bearer_token, check_batch_size, index_field, resolve_bulk_strand_durability, ApiError,
    DurabilityMode, HttpMetrics,
};
use crate::overlay::{OverlayError, OverlayRegistry, ResolvedOverlay};
use crate::overlay_laws::{law_resolution_succeeds_for_whole_lineages, whole_lineage};
use crate::server_laws::{law_bearer_header, law_bearers_of_good_sessions_are_let_in};
use crate::tls::{validate_tls_policy, Environment, TlsConfig, TlsMinVersion, TlsPolicyError};
use vstd::prelude::*;

verus! {

/// An identity can be made once under a name, with sessions that last; what it was made with is
/// found under its name.
pub proof fn law_making_an_identity(
    store: &mut IdentityStore,
    req: CreateIdentityRequest,
    id: [u8; 16],
    r: Result<Identity, AuthError>,
    name: &str,
    found: Option<&Identity>,
)
    requires
        call_ensures(IdentityStore::create_identity_with_id, (store, req, id), r),
        name@ == req.name@,
        call_ensures(IdentityStore::get_identity_by_name, (final(store), name), found),
    ensures
        r is Ok <==> req.token_expiry_seconds > 0 && !old(store)@.names.dom().contains(req.name@),
        r matches Ok(i) ==> {
            &&& i.identity_id == id
            &&& i.name@ == req.name@
            &&& i.identity_type == req.identity_type
            &&& i.overlay@ == req.overlay@
            &&& i.token_expiry_seconds == req.token_expiry_seconds
            &&& i.mfa_required == req.mfa_required
            &&& found is Some
            &&& found->0@ == i@
        },
        r matches Err(e) ==> final(store)@ == old(store)@ && (req.token_expiry_seconds == 0 ==> e@
            == AuthFailure::InvalidTokenExpiry) && (req.token_expiry_seconds > 0 ==> e@
            == AuthFailure::DuplicateIdentity(req.name@)),
{
}

/// An identity that was made gets in with each secret that it was made with, by its kind, and
/// with no other kind. The session speaks for it, from now for as long as it was made to, and is
/// good for just that time.
pub proof fn law_logging_in(
    store: &mut IdentityStore,
    req: CreateIdentityRequest,
    id: [u8; 16],
    made: Identity,
    later: &mut IdentityStore,
    name: &str,
    kind: CredentialKind,
    secret: &str,
    now: u64,
    token_id: [u8; 16],
    r: Result<SessionToken, AuthError>,
    token: &str,
    then: u64,
    checked: Result<&SessionToken, AuthError>,
)
    requires
        call_ensures(IdentityStore::create_identity_with_id, (store, req, id), Ok(made)),
        old(later)@ == final(store)@,
        name@ == req.name@,
        call_ensures(IdentityStore::authenticate_at, (later, name, kind, secret, now, token_id), r),
        r matches Ok(s) ==> token@ == s.token@,
        call_ensures(IdentityStore::validate_session_at, (final(later), token, then), checked),
        now + req.token_expiry_seconds * 1_000_000_000 <= u64::MAX,
    ensures
        kind == CredentialKind::Password && req.password is Some && req.password->0@ == secret@ ==> r is Ok,
        kind == CredentialKind::ApiKey && req.api_key is Some && req.api_key->0@ == secret@ ==> r is Ok,
        kind == CredentialKind::Password && req.password is None ==> r is Err && r->Err_0@
            == AuthFailure::UnsupportedCredentialKind(req.name@),
        kind == CredentialKind::ApiKey && req.api_key is None ==> r is Err && r->Err_0@
            == AuthFailure::UnsupportedCredentialKind(req.name@),
        r matches Ok(s) ==> {
            &&& s.identity_id == id
            &&& s.overlay@ == req.overlay@
            &&& s.issued_at_ns == now
            &&& s.expires_at_ns == now + req.token_expiry_seconds * 1_000_000_000
            &&& !s.revoked
            &&& checked is Ok <==> then < s.expires_at_ns
            &&& checked matches Ok(c) ==> c@ == s@
            &&& checked matches Err(e) ==> e@ == AuthFailure::SessionExpired
        },
        r is Err ==> final(later)@ == old(later)@,
{
}

/// A name that nobody has gets nobody in, and changes nothing.
pub proof fn law_strangers_cannot_log_in(
    store: &mut IdentityStore,
    name: &str,
    kind: CredentialKind,
    secret: &str,
    now: u64,
    token_id: [u8; 16],
    r: Result<SessionToken, AuthError>,
)
    requires
        call_ensures(IdentityStore::authenticate_at, (store, name, kind, secret, now, token_id), r),
        !old(store)@.names.dom().contains(name@),
    ensures
        r is Err,
        r->Err_0@ == AuthFailure::IdentityNotFound(name@),
        final(store)@ == old(store)@,
{
}

/// A session that was revoked is refused ever after, and other sessions are as good as before.
pub proof fn law_revoking_a_session(
    store: &mut IdentityStore,
    token: &str,
    r: Result<(), AuthError>,
    other: &str,
    now: u64,
    before: Result<&SessionToken, AuthError>,
    checked: Result<&SessionToken, AuthError>,
)
    requires
        call_ensures(IdentityStore::revoke_session, (store, token), r),
        call_ensures(IdentityStore::validate_session_at, (old(store), other, now), before),
        call_ensures(IdentityStore::validate_session_at, (final(store), other, now), checked),
    ensures
        r is Ok <==> old(store)@.sessions.dom().contains(token@),
        r is Ok && other@ == token@ ==> checked is Err && checked->Err_0@ == AuthFailure::SessionRevoked,
        other@ != token@ && before is Ok ==> checked is Ok && checked->Ok_0@ == before->Ok_0@,
        other@ != token@ && before is Err ==> checked is Err && checked->Err_0@ == before->Err_0@,
        r matches Err(e) ==> e@ == AuthFailure::SessionNotFound,
{
}

/// A good session can be refreshed: the new one speaks for the same identity with its overlay,
/// and the old one is revoked, unless both have one token.
pub proof fn law_refreshing_a_session(
    store: &mut IdentityStore,
    token: &str,
    now: u64,
    id: [u8; 16],
    r: Result<SessionToken, AuthError>,
    then: u64,
    old_one: Result<&SessionToken, AuthError>,
)
    requires
        call_ensures(IdentityStore::refresh_session_at, (store, token, now, id), r),
        call_ensures(IdentityStore::validate_session_at, (final(store), token, then), old_one),
    ensures
        r matches Ok(s) ==> {
            &&& old(store)@.sessions.dom().contains(token@)
            &&& !old(store)@.sessions[token@].revoked
            &&& now < old(store)@.sessions[token@].expires_at_ns
            &&& s.issued_at_ns == now
            &&& !s.revoked
            &&& s.token@ != token@ ==> old_one is Err && old_one->Err_0@ == AuthFailure::SessionRevoked
        },
        r is Err ==> final(store)@ == old(store)@,
{
}

/// A request is counted, as an error from status 500 on, with its time.
pub proof fn law_counting_a_request(m: &mut HttpMetrics, status: u16, ms: u64)
    requires
        call_ensures(HttpMetrics::observe_request, (m, status, ms), ()),
        old(m).requests_total < u64::MAX,
        old(m).errors_total < u64::MAX,
        old(m).request_duration_count < u64::MAX,
        old(m).request_duration_ms_total + ms <= u64::MAX,
    ensures
        final(m).requests_total == old(m).requests_total + 1,
        status >= 500 ==> final(m).errors_total == old(m).errors_total + 1,
        status < 500 ==> final(m).errors_total == old(m).errors_total,
        final(m).request_duration_ms_total == old(m).request_duration_ms_total + ms,
        final(m).request_duration_count == old(m).request_duration_count + 1,
        final(m).overload_rejections_total == old(m).overload_rejections_total,
        final(m).inflight_requests == old(m).inflight_requests,
        final(m).slow_queries_total == old(m).slow_queries_total,
{
}

/// A request that is turned away for overload counts as a request, an error and a rejection.
pub proof fn law_turning_a_request_away(m: &mut HttpMetrics)
    requires
        call_ensures(HttpMetrics::reject_overload, (m,), ()),
        old(m).requests_total < u64::MAX,
        old(m).errors_total < u64::MAX,
        old(m).overload_rejections_total < u64::MAX,
    ensures
        final(m).requests_total == old(m).requests_total + 1,
        final(m).errors_total == old(m).errors_total + 1,
        final(m).overload_rejections_total == old(m).overload_rejections_total + 1,
        final(m).request_duration_ms_total == old(m).request_duration_ms_total,
{
}

/// A batch is refused exactly where it has more documents than the bound.
pub proof fn law_checking_a_batch(documents: usize, max: usize, r: Result<(), ApiError>)
    requires
        call_ensures(check_batch_size, (documents, max), r),
    ensures
        r is Ok <==> documents <= max,
        r matches Err(e) ==> e.status == 400,
{
}

/// A mode that is asked for counts, and defers unless it is strict. Where none is, the older
/// switch decides, and where that is not set either, whether the indexes wait.
pub proof fn law_choosing_the_durability(
    mode: Option<DurabilityMode>,
    later: Option<bool>,
    reindex_later: bool,
    r: (bool, DurabilityMode),
)
    requires
        call_ensures(resolve_bulk_strand_durability, (mode, later, reindex_later), r),
    ensures
        mode matches Some(m) ==> r.1 == m && r.0 == (m != DurabilityMode::Strict),
        mode is None && later is Some ==> r.0 == later->0,
        mode is None && later is None ==> r.0 == reindex_later,
        mode is None && r.0 ==> r.1 == DurabilityMode::Deferred,
        mode is None && !r.0 ==> r.1 == DurabilityMode::Strict,
{
}

/// The token of a header is what stands behind `Bearer `.
pub proof fn law_reading_a_header(header: &str, token: Seq<char>, r: Option<String>)
    requires
        call_ensures(bearer_token, (header,), r),
    ensures
        header@ == "Bearer "@ + token || header@ == "bearer "@ + token ==> r is Some && r->0@ == token,
        r matches Some(t) ==> header@ == "Bearer "@ + t@ || header@ == "bearer "@ + t@,
{
    law_bearer_header(header@, token);
}

/// An environment refuses settings for what is wrong with them, and takes the others.
pub proof fn law_validating_settings(cfg: &TlsConfig, env: Environment, r: Result<(), TlsPolicyError>)
    requires
        call_ensures(validate_tls_policy, (cfg, env), r),
    ensures
        env == Environment::LocalDev && !cfg.enabled ==> r is Ok,
        env != Environment::LocalDev && r is Ok ==> cfg.enabled && !cfg.allow_plaintext && cfg.min_version
            == TlsMinVersion::V13,
        cfg.enabled && r is Ok ==> cfg.cert_file is Some && cfg.key_file is Some,
        cfg.enabled && cfg.cert_file is Some && cfg.key_file is Some && (env == Environment::LocalDev || (
        !cfg.allow_plaintext && cfg.min_version == TlsMinVersion::V13)) ==> r is Ok,
        env != Environment::LocalDev && !cfg.enabled ==> r == Err::<(), TlsPolicyError>(TlsPolicyError::TlsRequired),
{
    law_refused_settings(*cfg, env);
}

/// The field of an index is what is left of the text without white space at its ends; a blank one
/// is refused.
pub proof fn law_reading_an_index_field(text: &str, r: Result<String, ApiError>, i: int)
    requires
        call_ensures(index_field, (text,), r),
    ensures
        r matches Ok(f) ==> f@.len() > 0 && !crate::support::text::is_space(f@[0])
            && !crate::support::text::is_space(f@.last()),
        0 <= i < text@.len() && !crate::support::text::is_space(text@[i]) ==> r is Ok,
        r matches Err(e) ==> e.status == 400,
{
    let ends = crate::server_laws::law_trimming_takes_white_space_off_the_ends(text@);
    if 0 <= i < text@.len() && !crate::support::text::is_space(text@[i]) {
        assert(ends.0 <= i < ends.1);
    }
}

/// The bearer of a good session gets the session and its overlay, where that resolves; a session
/// that is not good is refused for what is wrong with it.
pub proof fn law_binding_a_session_to_its_overlay(
    registry: &OverlayRegistry,
    auth: &IdentityStore,
    token: &str,
    now: u64,
    r: Result<(SessionToken, ResolvedOverlay), OverlayError>,
    names: Seq<Seq<char>>,
)
    requires
        call_ensures(OverlayRegistry::resolve_for_session_at, (registry, auth, token, now), r),
    ensures
        ({
            let known = auth@.sessions.dom().contains(token@);
            let s = auth@.sessions[token@];
            &&& !known ==> r is Err && r->Err_0 is Auth && r->Err_0->Auth_0@ == AuthFailure::SessionNotFound
            &&& known && s.revoked ==> r is Err && r->Err_0 is Auth && r->Err_0->Auth_0@ == AuthFailure::SessionRevoked
            &&& known && !s.revoked && now >= s.expires_at_ns ==> r is Err && r->Err_0 is Auth && r->Err_0->Auth_0@
                == AuthFailure::SessionExpired
            &&& known && !s.revoked && now < s.expires_at_ns && whole_lineage(registry.defs(), names, s.overlay) ==> {
                &&& r is Ok
                &&& r->Ok_0.0@ == s
                &&& r->Ok_0.1@.access == registry.defs()[s.overlay].access
            }
            &&& known && !s.revoked && now < s.expires_at_ns && r is Err ==> !(r->Err_0 is Auth)
        }),
{
    let known = auth@.sessions.dom().contains(token@);
    let s = auth@.sessions[token@];
    if known && !s.revoked && now < s.expires_at_ns && whole_lineage(registry.defs(), names, s.overlay) {
        if r is Err {
            law_resolution_succeeds_for_whole_lineages(Err(r->Err_0), registry.defs(), s.overlay);
        } else {
            crate::overlay_laws::law_resolved_overlay_joins_its_lineage(
                r->Ok_0.1,
                registry.defs(),
                s.overlay,
                names,
                Seq::empty(),
                Seq::empty(),
                crate::overlay::OverlayMutation::Read,
            );
        }
    }
}

/// A request is let in as the header and the settings say: anyone where no login is asked for, and
/// else the bearer of a good session whose overlay has a whole lineage.
pub proof fn law_authorizing_a_request(
    required: bool,
    header: Option<&str>,
    registry: &OverlayRegistry,
    auth: &IdentityStore,
    now: u64,
    r: Result<Option<ResolvedOverlay>, ApiError>,
    token: Seq<char>,
    names: Seq<Seq<char>>,
)
    requires
        call_ensures(authorize_at, (required, header, registry, auth, now), r),
    ensures
        !required ==> r is Ok && r->Ok_0 is None,
        required && header is None ==> r is Err,
        required && header is Some && header->0@ == "Bearer "@ + token && auth@.sessions.dom().contains(token)
            && !auth@.sessions[token].revoked && now < auth@.sessions[token].expires_at_ns && whole_lineage(
            registry.defs(),
            names,
            auth@.sessions[token].overlay,
        ) ==> r is Ok && r->Ok_0 is Some,
        required && header is Some && header->0@ == "Bearer "@ + token && (!auth@.sessions.dom().contains(token)
            || auth@.sessions[token].revoked || now >= auth@.sessions[token].expires_at_ns) ==> r is Err,
        r matches Err(e) ==> e.status == 401,
{
    let h = match header {
        Some(t) => Some(t@),
        None => None,
    };
    law_bearers_of_good_sessions_are_let_in(r, required, h, token, names, registry.defs(), auth@, now);
}

} // verus!
