//! Who gets in, for how long, and what of a record they get to see.
use crate::auth::{
    credential_check, identity_named, new_record, new_session, refresh_check, secret_hash,
    session_check, with_revoked, with_session, AuthFailure, CreateIdentityRequest,
    CredentialKind, IdentityView, RecordView as KeptIdentity, SessionView, StoreView,
};
use crate::json_value::RecordView;
use crate::overlay::{resolves, Definitions, OverlayAccess, ResolvedOverlay};
use crate::overlay_laws::{law_shown_fields, some_excludes, some_includes, some_opens, whole_lineage};
use crate::privacy::masked;
use crate::support::num_text::hex;
use crate::tls::{first_fault, Environment, TlsConfig, TlsMinVersion, TlsPolicyError};
use vstd::prelude::*;

verus! {

/// The store after an identity was made.
pub open spec fn with_identity(v: StoreView, req: CreateIdentityRequest, id: [u8; 16]) -> StoreView {
    StoreView {
        names: v.names.insert(req.name@, id),
        records: v.records.insert(hex(id@), new_record(req, id)),
        sessions: v.sessions,
    }
}

/// An identity keeps what it was made with, under its number.
pub proof fn law_identity_keeps_what_it_was_made_with(req: CreateIdentityRequest, id: [u8; 16])
    ensures
        ({
            let i = new_record(req, id).identity;
            &&& i.identity_id == id
            &&& i.name == req.name@
            &&& i.identity_type == req.identity_type
            &&& i.overlay == req.overlay@
            &&& i.allowed_collections.len() == req.allowed_collections@.len()
            &&& forall|k: int|
                0 <= k < i.allowed_collections.len() ==> #[trigger] i.allowed_collections[k]
                    == req.allowed_collections@[k]@
            &&& i.token_expiry_seconds == req.token_expiry_seconds
            &&& i.mfa_required == req.mfa_required
        }),
{
}

/// The password opens by password and the key by key: each kind of secret that an identity was
/// made with lets it in, a kind that it was made without is refused as such, and so is a name
/// that nobody has.
pub proof fn law_secrets_open_by_their_kind(
    v: StoreView,
    req: CreateIdentityRequest,
    id: [u8; 16],
    secret: Seq<char>,
    name: Seq<char>,
    kind: CredentialKind,
)
    ensures
        ({
            let after = with_identity(v, req, id);
            let made: Result<KeptIdentity, AuthFailure> = Ok(new_record(req, id));
            let by_password = credential_check(after, req.name@, CredentialKind::Password, secret);
            let by_key = credential_check(after, req.name@, CredentialKind::ApiKey, secret);
            &&& identity_named(after, req.name@) == Some(new_record(req, id))
            &&& req.password is Some && req.password->0@ == secret ==> by_password == made
            &&& req.api_key is Some && req.api_key->0@ == secret ==> by_key == made
            &&& req.password is Some && secret_hash(req.password->0@) != secret_hash(secret) ==> by_password == Err::<
                KeptIdentity,
                AuthFailure,
            >(AuthFailure::InvalidCredentials)
            &&& req.api_key is Some && secret_hash(req.api_key->0@) != secret_hash(secret) ==> by_key == Err::<
                KeptIdentity,
                AuthFailure,
            >(AuthFailure::InvalidCredentials)
            &&& req.password is None ==> by_password == Err::<KeptIdentity, AuthFailure>(
                AuthFailure::UnsupportedCredentialKind(req.name@),
            )
            &&& req.api_key is None ==> by_key == Err::<KeptIdentity, AuthFailure>(
                AuthFailure::UnsupportedCredentialKind(req.name@),
            )
            &&& !v.names.dom().contains(name) ==> credential_check(v, name, kind, secret) == Err::<
                KeptIdentity,
                AuthFailure,
            >(AuthFailure::IdentityNotFound(name))
        }),
{
}

/// A session speaks for the identity that it was issued to, with its overlay, from the time of
/// issue for as long as the identity's sessions last.
pub proof fn law_session_speaks_for_its_identity(identity: IdentityView, now: u64, id: [u8; 16])
    ensures
        ({
            let s = new_session(identity, now, id);
            &&& s.token == "st_"@ + hex(id@)
            &&& s.identity_id == identity.identity_id
            &&& s.overlay == identity.overlay
            &&& s.issued_at_ns == now
            &&& !s.revoked
            &&& now + identity.token_expiry_seconds * 1_000_000_000 <= u64::MAX ==> s.expires_at_ns == now
                + identity.token_expiry_seconds * 1_000_000_000
        }),
{
}

/// A token is worth its session from the time it is issued up to its end: refused where there is
/// no session, where it is revoked, and from its end on.
pub proof fn law_token_is_worth_its_session(v: StoreView, token: Seq<char>, now: u64)
    ensures
        !v.sessions.dom().contains(token) ==> session_check(v, token, now) == Err::<SessionView, AuthFailure>(
            AuthFailure::SessionNotFound,
        ),
        v.sessions.dom().contains(token) && v.sessions[token].revoked ==> session_check(v, token, now) == Err::<
            SessionView,
            AuthFailure,
        >(AuthFailure::SessionRevoked),
        v.sessions.dom().contains(token) && !v.sessions[token].revoked && v.sessions[token].expires_at_ns <= now
            ==> session_check(v, token, now) == Err::<SessionView, AuthFailure>(AuthFailure::SessionExpired),
        v.sessions.dom().contains(token) && !v.sessions[token].revoked && now < v.sessions[token].expires_at_ns
            ==> session_check(v, token, now) == Ok::<SessionView, AuthFailure>(v.sessions[token]),
{
}

/// Issuing a session or revoking one changes nothing for any other token, and no identity.
pub proof fn law_sessions_do_not_touch_each_other(v: StoreView, s: SessionView, token: Seq<char>, other: Seq<char>, now: u64)
    ensures
        with_session(v, s).names == v.names,
        with_session(v, s).records == v.records,
        with_revoked(v, token).names == v.names,
        with_revoked(v, token).records == v.records,
        with_session(v, s).sessions.dom().contains(s.token) && with_session(v, s).sessions[s.token] == s,
        other != s.token ==> session_check(with_session(v, s), other, now) == session_check(v, other, now),
        other != token ==> session_check(with_revoked(v, token), other, now) == session_check(v, other, now),
        ({
            let gone = with_revoked(v, token).sessions[token];
            let was = v.sessions[token];
            &&& gone.revoked
            &&& gone.token == was.token
            &&& gone.identity_id == was.identity_id
            &&& gone.overlay == was.overlay
            &&& gone.issued_at_ns == was.issued_at_ns
            &&& gone.expires_at_ns == was.expires_at_ns
        }),
{
}

/// A session can be refreshed exactly while it is good and its identity is known; the refusal is
/// that of the session.
pub proof fn law_refresh_needs_a_good_session(v: StoreView, token: Seq<char>, now: u64)
    ensures
        ({
            let known = v.sessions.dom().contains(token) && !v.sessions[token].revoked && now
                < v.sessions[token].expires_at_ns;
            let kept = hex(v.sessions[token].identity_id@);
            &&& known && v.records.dom().contains(kept) ==> refresh_check(v, token, now) == Ok::<
                KeptIdentity,
                AuthFailure,
            >(v.records[kept])
            &&& known && !v.records.dom().contains(kept) ==> refresh_check(v, token, now) is Err
            &&& !known ==> refresh_check(v, token, now) is Err && refresh_check(v, token, now)->Err_0 == session_check(
                v,
                token,
                now,
            )->Err_0
        }),
{
}

/// A masked record holds exactly the fields of the record that the definitions of the lineage
/// show, each with its value.
pub proof fn law_masked_record_holds_what_is_shown(
    record: RecordView,
    o: ResolvedOverlay,
    defs: Definitions,
    name: Seq<char>,
    names: Seq<Seq<char>>,
    c: Seq<char>,
    f: Seq<char>,
)
    requires
        resolves(Ok(o), defs, name),
        whole_lineage(defs, names, name),
    ensures
        masked(record, o@, c).dom().contains(f) <==> record.dom().contains(f) && (some_opens(defs, names, "*"@)
            || some_opens(defs, names, c)) && (defs[name].access == OverlayAccess::Full || (some_includes(
            defs,
            names,
            c,
            f,
        ) && !some_excludes(defs, names, c, f))),
        masked(record, o@, c).dom().contains(f) ==> masked(record, o@, c)[f] == record[f],
{
    law_shown_fields(o, defs, name, names, c, f);
}

/// Which settings are refused, and for what: outside of local development TLS is asked for, then
/// that plaintext is off, then TLS 1.3; wherever TLS is on, the certificate and then the key.
pub proof fn law_refused_settings(cfg: TlsConfig, env: Environment)
    ensures
        ({
            let strict = env == Environment::Staging || env == Environment::Production;
            &&& !strict && !cfg.enabled ==> first_fault(cfg, env) is None
            &&& strict && !cfg.enabled ==> first_fault(cfg, env) == Some(TlsPolicyError::TlsRequired)
            &&& strict && cfg.enabled && cfg.allow_plaintext ==> first_fault(cfg, env) == Some(
                TlsPolicyError::PlaintextForbidden,
            )
            &&& strict && cfg.enabled && !cfg.allow_plaintext && cfg.min_version == TlsMinVersion::V12 ==> first_fault(
                cfg,
                env,
            ) == Some(TlsPolicyError::MinVersionTooLow)
            &&& cfg.enabled && (!strict || (!cfg.allow_plaintext && cfg.min_version == TlsMinVersion::V13)) ==> {
                &&& cfg.cert_file is None ==> first_fault(cfg, env) == Some(TlsPolicyError::MissingCertFile)
                &&& cfg.cert_file is Some && cfg.key_file is None ==> first_fault(cfg, env) == Some(
                    TlsPolicyError::MissingKeyFile,
                )
                &&& cfg.cert_file is Some && cfg.key_file is Some ==> first_fault(cfg, env) is None
            }
        }),
{
}

} // verus!
