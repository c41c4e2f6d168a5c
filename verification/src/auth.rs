//! Identities, their credentials, and sessions that expire.
use crate::clock::{clock_read, now_ns};
use crate::digest::{blake3_digest, blake3_hex};
use crate::ids::{hyphenated, hyphenated_text, is_random_id, random_id, simple_text};
use crate::support::num_text::hex;
use crate::support::str_map::StrMap;
use crate::support::text::{clone_strings, join2, owned, str_eq, texts};
use vstd::prelude::*;
use vstd::utf8::encode_utf8;

verus! {

/// What an identity stands for.
#[derive(Debug, Clone, Copy, PartialEq, Eq, Structural)]
pub enum IdentityType {
    Human,
    Service,
    Admin,
    ReadOnly,
}

/// What an identity can prove itself with.
#[derive(Debug, Clone, Copy, PartialEq, Eq, Structural)]
pub enum CredentialKind {
    Password,
    ApiKey,
}

/// An identity. Its number is a random identifier.
#[derive(Debug, PartialEq, Eq)]
pub struct Identity {
    pub identity_id: [u8; 16],
    pub name: String,
    pub identity_type: IdentityType,
    pub overlay: String,
    pub allowed_collections: Vec<String>,
    pub token_expiry_seconds: u64,
    pub mfa_required: bool,
}

/// What an [`Identity`] holds.
pub struct IdentityView {
    pub identity_id: [u8; 16],
    pub name: Seq<char>,
    pub identity_type: IdentityType,
    pub overlay: Seq<char>,
    pub allowed_collections: Seq<Seq<char>>,
    pub token_expiry_seconds: u64,
    pub mfa_required: bool,
}

impl View for Identity {
    type V = IdentityView;

    open spec fn view(&self) -> IdentityView {
        IdentityView {
            identity_id: self.identity_id,
            name: self.name@,
            identity_type: self.identity_type,
            overlay: self.overlay@,
            allowed_collections: texts(self.allowed_collections@),
            token_expiry_seconds: self.token_expiry_seconds,
            mfa_required: self.mfa_required,
        }
    }
}

impl Clone for Identity {
    fn clone(&self) -> (r: Self)
        ensures
            r@ == self@,
    {
        Identity {
            identity_id: self.identity_id,
            name: self.name.clone(),
            identity_type: self.identity_type,
            overlay: self.overlay.clone(),
            allowed_collections: clone_strings(&self.allowed_collections),
            token_expiry_seconds: self.token_expiry_seconds,
            mfa_required: self.mfa_required,
        }
    }
}

/// An identity with the hashes of its secrets.
#[derive(Debug)]
struct IdentityRecord {
    identity: Identity,
    password_hash: Option<String>,
    api_key_hash: Option<String>,
}

/// What is kept of an identity.
pub struct RecordView {
    pub identity: IdentityView,
    pub password_hash: Option<Seq<char>>,
    pub api_key_hash: Option<Seq<char>>,
}

/// The characters of an optional text.
pub open spec fn optional_text(s: Option<String>) -> Option<Seq<char>> {
    match s {
        Some(x) => Some(x@),
        None => None,
    }
}

impl IdentityRecord {
    spec fn held(self) -> RecordView {
        RecordView {
            identity: self.identity@,
            password_hash: optional_text(self.password_hash),
            api_key_hash: optional_text(self.api_key_hash),
        }
    }
}

/// A session.
#[derive(Debug, PartialEq, Eq)]
pub struct SessionToken {
    pub token: String,
    pub identity_id: [u8; 16],
    pub overlay: String,
    pub issued_at_ns: u64,
    pub expires_at_ns: u64,
    pub revoked: bool,
}

/// What a [`SessionToken`] holds.
pub struct SessionView {
    pub token: Seq<char>,
    pub identity_id: [u8; 16],
    pub overlay: Seq<char>,
    pub issued_at_ns: u64,
    pub expires_at_ns: u64,
    pub revoked: bool,
}

impl View for SessionToken {
    type V = SessionView;

    open spec fn view(&self) -> SessionView {
        SessionView {
            token: self.token@,
            identity_id: self.identity_id,
            overlay: self.overlay@,
            issued_at_ns: self.issued_at_ns,
            expires_at_ns: self.expires_at_ns,
            revoked: self.revoked,
        }
    }
}

impl Clone for SessionToken {
    fn clone(&self) -> (r: Self)
        ensures
            r@ == self@,
    {
        SessionToken {
            token: self.token.clone(),
            identity_id: self.identity_id,
            overlay: self.overlay.clone(),
            issued_at_ns: self.issued_at_ns,
            expires_at_ns: self.expires_at_ns,
            revoked: self.revoked,
        }
    }
}

impl SessionToken {
    /// Whether the session has ended at the time `now_ns`.
    pub fn is_expired_at(&self, now_ns: u64) -> (r: bool)
        ensures
            r == (now_ns >= self.expires_at_ns),
    {
        now_ns >= self.expires_at_ns
    }
}

/// What is asked for when an identity is made.
#[derive(Debug)]
pub struct CreateIdentityRequest {
    pub name: String,
    pub identity_type: IdentityType,
    pub overlay: String,
    pub allowed_collections: Vec<String>,
    pub token_expiry_seconds: u64,
    pub mfa_required: bool,
    pub password: Option<String>,
    pub api_key: Option<String>,
}

/// Why access was refused.
#[derive(Debug, PartialEq, Eq)]
pub enum AuthError {
    DuplicateIdentity(String),
    IdentityNotFound(String),
    InvalidCredentials,
    UnsupportedCredentialKind(String),
    SessionNotFound,
    SessionExpired,
    SessionRevoked,
    InvalidTokenExpiry,
}

/// What an [`AuthError`] says.
pub enum AuthFailure {
    DuplicateIdentity(Seq<char>),
    IdentityNotFound(Seq<char>),
    InvalidCredentials,
    UnsupportedCredentialKind(Seq<char>),
    SessionNotFound,
    SessionExpired,
    SessionRevoked,
    InvalidTokenExpiry,
}

impl View for AuthError {
    type V = AuthFailure;

    open spec fn view(&self) -> AuthFailure {
        match self {
            AuthError::DuplicateIdentity(n) => AuthFailure::DuplicateIdentity(n@),
            AuthError::IdentityNotFound(n) => AuthFailure::IdentityNotFound(n@),
            AuthError::InvalidCredentials => AuthFailure::InvalidCredentials,
            AuthError::UnsupportedCredentialKind(n) => AuthFailure::UnsupportedCredentialKind(n@),
            AuthError::SessionNotFound => AuthFailure::SessionNotFound,
            AuthError::SessionExpired => AuthFailure::SessionExpired,
            AuthError::SessionRevoked => AuthFailure::SessionRevoked,
            AuthError::InvalidTokenExpiry => AuthFailure::InvalidTokenExpiry,
        }
    }
}

/// The hash that is kept of a secret.
pub open spec fn secret_hash(secret: Seq<char>) -> Seq<char> {
    hex(blake3_digest(encode_utf8(secret)))
}

fn hash_secret(secret: &str) -> (r: String)
    ensures
        r@ == secret_hash(secret@),
{
    blake3_hex(secret.as_bytes())
}

/// What a store holds: identity numbers by name, identities by the digits of their number,
/// sessions by token.
pub struct StoreView {
    pub names: Map<Seq<char>, [u8; 16]>,
    pub records: Map<Seq<char>, RecordView>,
    pub sessions: Map<Seq<char>, SessionView>,
}

/// The identity with a name.
pub open spec fn identity_named(v: StoreView, name: Seq<char>) -> Option<RecordView> {
    if v.names.dom().contains(name) && v.records.dom().contains(hex(v.names[name]@)) {
        Some(v.records[hex(v.names[name]@)])
    } else {
        None
    }
}

/// What is kept of a new identity.
pub open spec fn new_record(req: CreateIdentityRequest, id: [u8; 16]) -> RecordView {
    RecordView {
        identity: IdentityView {
            identity_id: id,
            name: req.name@,
            identity_type: req.identity_type,
            overlay: req.overlay@,
            allowed_collections: texts(req.allowed_collections@),
            token_expiry_seconds: req.token_expiry_seconds,
            mfa_required: req.mfa_required,
        },
        password_hash: match req.password {
            Some(p) => Some(secret_hash(p@)),
            None => None,
        },
        api_key_hash: match req.api_key {
            Some(p) => Some(secret_hash(p@)),
            None => None,
        },
    }
}

/// The end of a session that starts at `now` and lasts `seconds`, modulo 2^64 nanoseconds.
pub open spec fn expiry(now: u64, seconds: u64) -> u64 {
    ((now + seconds * 1_000_000_000) % 0x1_0000_0000_0000_0000) as u64
}

/// The session that is issued to an identity.
pub open spec fn new_session(identity: IdentityView, now: u64, id: [u8; 16]) -> SessionView {
    SessionView {
        token: "st_"@ + hex(id@),
        identity_id: identity.identity_id,
        overlay: identity.overlay,
        issued_at_ns: now,
        expires_at_ns: expiry(now, identity.token_expiry_seconds),
        revoked: false,
    }
}

/// Whether a secret opens an identity: why not, or whose it is.
pub open spec fn credential_check(
    v: StoreView,
    name: Seq<char>,
    kind: CredentialKind,
    secret: Seq<char>,
) -> Result<RecordView, AuthFailure> {
    match identity_named(v, name) {
        None => Err(AuthFailure::IdentityNotFound(name)),
        Some(r) => {
            let kept = match kind {
                CredentialKind::Password => r.password_hash,
                CredentialKind::ApiKey => r.api_key_hash,
            };
            match kept {
                None => Err(AuthFailure::UnsupportedCredentialKind(name)),
                Some(h) => if h == secret_hash(secret) {
                    Ok(r)
                } else {
                    Err(AuthFailure::InvalidCredentials)
                },
            }
        },
    }
}

/// What a token is worth at the time `now`: its session, or why it is refused.
pub open spec fn session_check(v: StoreView, token: Seq<char>, now: u64) -> Result<SessionView, AuthFailure> {
    if !v.sessions.dom().contains(token) {
        Err(AuthFailure::SessionNotFound)
    } else if v.sessions[token].revoked {
        Err(AuthFailure::SessionRevoked)
    } else if now >= v.sessions[token].expires_at_ns {
        Err(AuthFailure::SessionExpired)
    } else {
        Ok(v.sessions[token])
    }
}

/// The store with one session added or replaced.
pub open spec fn with_session(v: StoreView, s: SessionView) -> StoreView {
    StoreView { sessions: v.sessions.insert(s.token, s), ..v }
}

/// The store with the session under a token revoked.
pub open spec fn with_revoked(v: StoreView, token: Seq<char>) -> StoreView {
    StoreView {
        sessions: v.sessions.insert(token, SessionView { revoked: true, ..v.sessions[token] }),
        ..v
    }
}

/// The identity that a refreshed session belongs to, or why it cannot be refreshed.
pub open spec fn refresh_check(v: StoreView, token: Seq<char>, now: u64) -> Result<RecordView, AuthFailure> {
    match session_check(v, token, now) {
        Err(e) => Err(e),
        Ok(s) => if v.records.dom().contains(hex(s.identity_id@)) {
            Ok(v.records[hex(s.identity_id@)])
        } else {
            Err(AuthFailure::IdentityNotFound(hyphenated(s.identity_id@)))
        },
    }
}

/// Identities and sessions.
#[derive(Debug)]
pub struct IdentityStore {
    identities_by_id: StrMap<IdentityRecord>,
    identity_id_by_name: StrMap<[u8; 16]>,
    sessions_by_token: StrMap<SessionToken>,
}

impl View for IdentityStore {
    type V = StoreView;

    closed spec fn view(&self) -> StoreView {
        StoreView {
            names: self.identity_id_by_name@,
            records: self.identities_by_id@.map_values(|r: IdentityRecord| r.held()),
            sessions: self.sessions_by_token@.map_values(|s: SessionToken| s@),
        }
    }
}

impl IdentityStore {
    /// A store without identities.
    pub fn new() -> (r: Self)
        ensures
            r@.names == Map::<Seq<char>, [u8; 16]>::empty(),
            r@.records == Map::<Seq<char>, RecordView>::empty(),
            r@.sessions == Map::<Seq<char>, SessionView>::empty(),
    {
        let r = IdentityStore {
            identities_by_id: StrMap::new(),
            identity_id_by_name: StrMap::new(),
            sessions_by_token: StrMap::new(),
        };
        proof {
            assert(r@.records =~= Map::<Seq<char>, RecordView>::empty());
            assert(r@.sessions =~= Map::<Seq<char>, SessionView>::empty());
        }
        r
    }

    /// Makes an identity numbered `id`. Sessions must last, and names are taken once.
    pub fn create_identity_with_id(&mut self, req: CreateIdentityRequest, id: [u8; 16]) -> (r: Result<
        Identity,
        AuthError,
    >)
        ensures
            match r {
                Ok(i) => {
                    &&& req.token_expiry_seconds > 0
                    &&& !old(self)@.names.dom().contains(req.name@)
                    &&& i@ == new_record(req, id).identity
                    &&& final(self)@.names == old(self)@.names.insert(req.name@, id)
                    &&& final(self)@.records == old(self)@.records.insert(hex(id@), new_record(req, id))
                    &&& final(self)@.sessions == old(self)@.sessions
                },
                Err(e) => {
                    &&& final(self)@ == old(self)@
                    &&& if req.token_expiry_seconds == 0 {
                        e@ == AuthFailure::InvalidTokenExpiry
                    } else {
                        old(self)@.names.dom().contains(req.name@) && e@ == AuthFailure::DuplicateIdentity(req.name@)
                    }
                },
            },
    {
        if req.token_expiry_seconds == 0 {
            return Err(AuthError::InvalidTokenExpiry);
        }
        if self.identity_id_by_name.contains_key(req.name.as_str()) {
            return Err(AuthError::DuplicateIdentity(req.name));
        }
        let ghost want = new_record(req, id);
        let password_hash = match &req.password {
            Some(p) => Some(hash_secret(p.as_str())),
            None => None,
        };
        let api_key_hash = match &req.api_key {
            Some(p) => Some(hash_secret(p.as_str())),
            None => None,
        };
        let name = req.name.clone();
        let identity = Identity {
            identity_id: id,
            name: req.name,
            identity_type: req.identity_type,
            overlay: req.overlay,
            allowed_collections: req.allowed_collections,
            token_expiry_seconds: req.token_expiry_seconds,
            mfa_required: req.mfa_required,
        };
        let record = IdentityRecord { identity: identity.clone(), password_hash, api_key_hash };
        proof {
            assert(record.held() == want);
        }
        let ghost before = self@;
        let _ = self.identity_id_by_name.insert(name, id);
        let _ = self.identities_by_id.insert(simple_text(&id), record);
        proof {
            assert(self@.records =~= before.records.insert(hex(id@), want));
        }
        Ok(identity)
    }

    /// Makes an identity with a random number.
    pub fn create_identity(&mut self, req: CreateIdentityRequest) -> (r: Result<Identity, AuthError>)
        ensures
            match r {
                Ok(i) => {
                    &&& req.token_expiry_seconds > 0
                    &&& !old(self)@.names.dom().contains(req.name@)
                    &&& is_random_id(i.identity_id)
                    &&& i@ == new_record(req, i.identity_id).identity
                    &&& final(self)@.names == old(self)@.names.insert(req.name@, i.identity_id)
                    &&& final(self)@.records == old(self)@.records.insert(
                        hex(i.identity_id@),
                        new_record(req, i.identity_id),
                    )
                    &&& final(self)@.sessions == old(self)@.sessions
                },
                Err(e) => {
                    &&& final(self)@ == old(self)@
                    &&& if req.token_expiry_seconds == 0 {
                        e@ == AuthFailure::InvalidTokenExpiry
                    } else {
                        old(self)@.names.dom().contains(req.name@) && e@ == AuthFailure::DuplicateIdentity(req.name@)
                    }
                },
            },
    {
        let id = random_id();
        self.create_identity_with_id(req, id)
    }

    /// The identity with a name.
    pub fn get_identity_by_name(&self, name: &str) -> (r: Option<&Identity>)
        ensures
            match r {
                Some(i) => identity_named(self@, name@) matches Some(x) && x.identity == i@,
                None => identity_named(self@, name@) is None,
            },
    {
        match self.record_named(name) {
            Some(rec) => Some(&rec.identity),
            None => None,
        }
    }

    fn record_named(&self, name: &str) -> (r: Option<&IdentityRecord>)
        ensures
            match r {
                Some(rec) => identity_named(self@, name@) == Some(rec.held()),
                None => identity_named(self@, name@) is None,
            },
    {
        match self.identity_id_by_name.get(name) {
            Some(id) => {
                let key = simple_text(id);
                self.identities_by_id.get(key.as_str())
            },
            None => None,
        }
    }

    /// Checks a credential at the time `now` and issues a session numbered `id`.
    pub fn authenticate_at(&mut self, name: &str, kind: CredentialKind, secret: &str, now: u64, id: [u8; 16]) -> (r: Result<
        SessionToken,
        AuthError,
    >)
        ensures
            match (r, credential_check(old(self)@, name@, kind, secret@)) {
                (Ok(s), Ok(rec)) => s@ == new_session(rec.identity, now, id) && final(self)@ == with_session(
                    old(self)@,
                    s@,
                ),
                (Err(e), Err(f)) => e@ == f && final(self)@ == old(self)@,
                _ => false,
            },
    {
        let (identity, kept) = match self.record_named(name) {
            Some(rec) => {
                let kept = match kind {
                    CredentialKind::Password => &rec.password_hash,
                    CredentialKind::ApiKey => &rec.api_key_hash,
                };
                let copy = match kept {
                    Some(h) => Some(h.clone()),
                    None => None,
                };
                (rec.identity.clone(), copy)
            },
            None => {
                return Err(AuthError::IdentityNotFound(owned(name)));
            },
        };
        let expected = match kept {
            Some(h) => h,
            None => {
                return Err(AuthError::UnsupportedCredentialKind(owned(name)));
            },
        };
        let actual = hash_secret(secret);
        if !str_eq(expected.as_str(), actual.as_str()) {
            return Err(AuthError::InvalidCredentials);
        }
        Ok(self.issue_session_token(&identity, now, id))
    }

    /// Checks a password and issues a session.
    pub fn authenticate_with_password(&mut self, identity_name: &str, password: &str) -> (r: Result<
        SessionToken,
        AuthError,
    >)
        ensures
            match (r, credential_check(old(self)@, identity_name@, CredentialKind::Password, password@)) {
                (Ok(s), Ok(rec)) => (exists|id: [u8; 16]| #[trigger]
                    is_random_id(id) && s@ == new_session(rec.identity, s.issued_at_ns, id)) && clock_read(
                    s.issued_at_ns,
                ) && final(self)@ == with_session(old(self)@, s@),
                (Err(e), Err(f)) => e@ == f && final(self)@ == old(self)@,
                _ => false,
            },
    {
        let now: u64 = now_ns();
        let id = random_id();
        self.authenticate_at(identity_name, CredentialKind::Password, password, now, id)
    }

    /// Checks an API key and issues a session.
    pub fn authenticate_with_api_key(&mut self, identity_name: &str, api_key: &str) -> (r: Result<
        SessionToken,
        AuthError,
    >)
        ensures
            match (r, credential_check(old(self)@, identity_name@, CredentialKind::ApiKey, api_key@)) {
                (Ok(s), Ok(rec)) => (exists|id: [u8; 16]| #[trigger]
                    is_random_id(id) && s@ == new_session(rec.identity, s.issued_at_ns, id)) && clock_read(
                    s.issued_at_ns,
                ) && final(self)@ == with_session(old(self)@, s@),
                (Err(e), Err(f)) => e@ == f && final(self)@ == old(self)@,
                _ => false,
            },
    {
        let now: u64 = now_ns();
        let id = random_id();
        self.authenticate_at(identity_name, CredentialKind::ApiKey, api_key, now, id)
    }

    /// The session of a token, as it stands at the time `now`.
    pub fn validate_session_at(&self, token: &str, now: u64) -> (r: Result<&SessionToken, AuthError>)
        ensures
            match (r, session_check(self@, token@, now)) {
                (Ok(s), Ok(v)) => s@ == v,
                (Err(e), Err(f)) => e@ == f,
                _ => false,
            },
    {
        let s = match self.sessions_by_token.get(token) {
            Some(s) => s,
            None => {
                return Err(AuthError::SessionNotFound);
            },
        };
        proof {
            assert(self@.sessions.dom().contains(token@) && self@.sessions[token@] == s@);
        }
        if s.revoked {
            return Err(AuthError::SessionRevoked);
        }
        if s.is_expired_at(now) {
            return Err(AuthError::SessionExpired);
        }
        Ok(s)
    }

    /// The session of a token, as it stands now.
    pub fn validate_session(&self, token: &str) -> (r: Result<&SessionToken, AuthError>)
        ensures
            exists|now: u64|
                clock_read(now) && match (r, #[trigger] session_check(self@, token@, now)) {
                    (Ok(s), Ok(v)) => s@ == v,
                    (Err(e), Err(f)) => e@ == f,
                    _ => false,
                },
    {
        let now: u64 = now_ns();
        self.validate_session_at(token, now)
    }

    /// Revokes the session of a token.
    pub fn revoke_session(&mut self, token: &str) -> (r: Result<(), AuthError>)
        ensures
            match r {
                Ok(_) => old(self)@.sessions.dom().contains(token@) && final(self)@ == with_revoked(
                    old(self)@,
                    token@,
                ),
                Err(e) => !old(self)@.sessions.dom().contains(token@) && e@ == AuthFailure::SessionNotFound
                    && final(self)@ == old(self)@,
            },
    {
        let ghost before = self@;
        match self.sessions_by_token.remove(token) {
            Some(s) => {
                let mut s = s;
                s.revoked = true;
                let ghost now = s@;
                let _ = self.sessions_by_token.insert(owned(token), s);
                proof {
                    assert(before.sessions[token@] == SessionView { revoked: before.sessions[token@].revoked, ..now });
                    assert(self@.sessions =~= before.sessions.insert(
                        token@,
                        SessionView { revoked: true, ..before.sessions[token@] },
                    ));
                    assert(self@.records =~= before.records);
                }
                Ok(())
            },
            None => {
                proof {
                    assert(self@.sessions =~= before.sessions);
                }
                Err(AuthError::SessionNotFound)
            },
        }
    }

    /// Replaces a session at the time `now` by a new one numbered `id`; the old one is revoked.
    pub fn refresh_session_at(&mut self, token: &str, now: u64, id: [u8; 16]) -> (r: Result<SessionToken, AuthError>)
        ensures
            match (r, refresh_check(old(self)@, token@, now)) {
                (Ok(s), Ok(rec)) => s@ == new_session(rec.identity, now, id) && final(self)@ == with_session(
                    with_revoked(old(self)@, token@),
                    s@,
                ),
                (Err(e), Err(f)) => e@ == f && final(self)@ == old(self)@,
                _ => false,
            },
    {
        let current = match self.validate_session_at(token, now) {
            Ok(s) => s.clone(),
            Err(e) => {
                return Err(e);
            },
        };
        let key = simple_text(&current.identity_id);
        let identity = match self.identities_by_id.get(key.as_str()) {
            Some(rec) => rec.identity.clone(),
            None => {
                return Err(AuthError::IdentityNotFound(hyphenated_text(&current.identity_id)));
            },
        };
        match self.revoke_session(token) {
            Ok(_) => {},
            Err(e) => {
                return Err(e);
            },
        }
        Ok(self.issue_session_token(&identity, now, id))
    }

    /// Replaces a session by a new one; the old one is revoked.
    pub fn refresh_session(&mut self, token: &str) -> (r: Result<SessionToken, AuthError>)
        ensures
            exists|now: u64|
                clock_read(now) && match (r, #[trigger] refresh_check(old(self)@, token@, now)) {
                    (Ok(s), Ok(rec)) => (exists|id: [u8; 16]| #[trigger]
                        is_random_id(id) && s@ == new_session(rec.identity, now, id)) && final(self)@
                        == with_session(with_revoked(old(self)@, token@), s@),
                    (Err(e), Err(f)) => e@ == f && final(self)@ == old(self)@,
                    _ => false,
                },
    {
        let now: u64 = now_ns();
        let id = random_id();
        let r = self.refresh_session_at(token, now, id);
        proof {
            if r is Ok {
                let rec = refresh_check(old(self)@, token@, now)->Ok_0;
                assert(r->Ok_0@ == new_session(rec.identity, now, id));
            }
        }
        r
    }

    fn issue_session_token(&mut self, identity: &Identity, now: u64, id: [u8; 16]) -> (r: SessionToken)
        ensures
            r@ == new_session(identity@, now, id),
            final(self)@ == with_session(old(self)@, r@),
    {
        let digits = simple_text(&id);
        let token = join2("st_", digits.as_str());
        let total: u128 = now as u128 + identity.token_expiry_seconds as u128 * 1_000_000_000;
        let session = SessionToken {
            token: token.clone(),
            identity_id: identity.identity_id,
            overlay: identity.overlay.clone(),
            issued_at_ns: now,
            expires_at_ns: (total % 0x1_0000_0000_0000_0000) as u64,
            revoked: false,
        };
        let ghost before = self@;
        let _ = self.sessions_by_token.insert(token, session.clone());
        proof {
            assert(self@.sessions =~= before.sessions.insert(session@.token, session@));
            assert(self@.records =~= before.records);
        }
        session
    }
}

/// A session that was issued is good until it expires, and not from then on.
pub proof fn law_issued_session_lasts_until_it_expires(v: StoreView, identity: IdentityView, now: u64, id: [u8; 16], later: u64)
    requires
        now + identity.token_expiry_seconds * 1_000_000_000 <= u64::MAX,
    ensures
        ({
            let s = new_session(identity, now, id);
            session_check(with_session(v, s), s.token, later) == (if later < now
                + identity.token_expiry_seconds * 1_000_000_000 {
                Ok::<SessionView, AuthFailure>(s)
            } else {
                Err(AuthFailure::SessionExpired)
            })
        }),
{
}

/// A revoked session is refused at any time.
pub proof fn law_revoked_session_is_refused(v: StoreView, token: Seq<char>, later: u64)
    requires
        v.sessions.dom().contains(token),
    ensures
        session_check(with_revoked(v, token), token, later) == Err::<SessionView, AuthFailure>(
            AuthFailure::SessionRevoked,
        ),
{
}

/// After a refresh the old token is refused and the new one is good, unless both are the same.
pub proof fn law_refresh_rotates_the_token(v: StoreView, token: Seq<char>, now: u64, id: [u8; 16], later: u64)
    requires
        refresh_check(v, token, now) is Ok,
        "st_"@ + hex(id@) != token,
        later < expiry(now, refresh_check(v, token, now)->Ok_0.identity.token_expiry_seconds),
    ensures
        ({
            let s = new_session(refresh_check(v, token, now)->Ok_0.identity, now, id);
            let after = with_session(with_revoked(v, token), s);
            &&& session_check(after, token, later) == Err::<SessionView, AuthFailure>(AuthFailure::SessionRevoked)
            &&& session_check(after, s.token, later) == Ok::<SessionView, AuthFailure>(s)
        }),
{
}

/// The secret that an identity was made with opens it; a secret with another hash does not.
pub proof fn law_only_the_secret_opens(v: StoreView, req: CreateIdentityRequest, id: [u8; 16], secret: Seq<char>)
    requires
        req.password is Some,
    ensures
        ({
            let after = StoreView {
                names: v.names.insert(req.name@, id),
                records: v.records.insert(hex(id@), new_record(req, id)),
                sessions: v.sessions,
            };
            credential_check(after, req.name@, CredentialKind::Password, secret) == (if secret_hash(secret)
                == secret_hash(req.password->0@) {
                Ok::<RecordView, AuthFailure>(new_record(req, id))
            } else {
                Err(AuthFailure::InvalidCredentials)
            })
        }),
{
}

} // verus!
