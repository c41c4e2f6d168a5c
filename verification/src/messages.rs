//! What users are told of errors.
use crate::audit::AuditError;
use crate::auth::{AuthError, AuthFailure};
use crate::codec::CodecError;
use crate::encoding::EncodingError;
use crate::overlay::OverlayError;
use crate::privacy::PrivacyError;
use crate::query::compile::CompileError;
use crate::storage::StorageError;
use crate::support::num_text::{decimal, u64_text};
use crate::support::text::{join2, owned};
use crate::tls::TlsPolicyError;
use vstd::prelude::*;

verus! {

/// The text of an [`AuthError`].
pub open spec fn auth_text(e: AuthFailure) -> Seq<char> {
    match e {
        AuthFailure::DuplicateIdentity(n) => "identity name already exists: "@ + n,
        AuthFailure::IdentityNotFound(n) => "identity not found: "@ + n,
        AuthFailure::InvalidCredentials => "invalid credentials"@,
        AuthFailure::UnsupportedCredentialKind(n) => "credential kind is not configured for identity: "@ + n,
        AuthFailure::SessionNotFound => "session token not found"@,
        AuthFailure::SessionExpired => "session token expired"@,
        AuthFailure::SessionRevoked => "session token revoked"@,
        AuthFailure::InvalidTokenExpiry => "token expiry must be > 0 seconds"@,
    }
}

impl AuthError {
    /// What users are told.
    pub fn message(&self) -> (r: String)
        ensures
            r@ == auth_text(self@),
    {
        match self {
            AuthError::DuplicateIdentity(n) => join2("identity name already exists: ", n.as_str()),
            AuthError::IdentityNotFound(n) => join2("identity not found: ", n.as_str()),
            AuthError::InvalidCredentials => owned("invalid credentials"),
            AuthError::UnsupportedCredentialKind(n) => join2(
                "credential kind is not configured for identity: ",
                n.as_str(),
            ),
            AuthError::SessionNotFound => owned("session token not found"),
            AuthError::SessionExpired => owned("session token expired"),
            AuthError::SessionRevoked => owned("session token revoked"),
            AuthError::InvalidTokenExpiry => owned("token expiry must be > 0 seconds"),
        }
    }
}

/// The text of an [`OverlayError`].
pub open spec fn overlay_text(e: OverlayError) -> Seq<char> {
    match e {
        OverlayError::OverlayNotFound(n) => "overlay not found: "@ + n@,
        OverlayError::UnresolvedParent(n, p) => "overlay `"@ + n@ + "` has unresolved parent: "@ + p@,
        OverlayError::InheritanceCycle(n) => "overlay inheritance cycle detected at: "@ + n@,
        OverlayError::Auth(a) => "identity/session error: "@ + auth_text(a@),
    }
}

impl OverlayError {
    /// What users are told.
    pub fn message(&self) -> (r: String)
        ensures
            r@ == overlay_text(*self),
    {
        match self {
            OverlayError::OverlayNotFound(n) => join2("overlay not found: ", n.as_str()),
            OverlayError::UnresolvedParent(n, p) => {
                let mut s = join2("overlay `", n.as_str());
                s.append("` has unresolved parent: ");
                s.append(p.as_str());
                s
            },
            OverlayError::InheritanceCycle(n) => join2("overlay inheritance cycle detected at: ", n.as_str()),
            OverlayError::Auth(a) => {
                let inner = a.message();
                join2("identity/session error: ", inner.as_str())
            },
        }
    }
}

impl PrivacyError {
    /// What users are told.
    pub fn message(&self) -> (r: String)
        ensures
            r@ == "collection is not accessible in overlay: "@ + self->CollectionDenied_0@,
    {
        match self {
            PrivacyError::CollectionDenied(c) => join2("collection is not accessible in overlay: ", c.as_str()),
        }
    }
}

/// The text of a [`CodecError`].
pub open spec fn codec_text(e: CodecError) -> Seq<char> {
    match e {
        CodecError::InvalidMagic => "invalid strand magic header"@,
        CodecError::UnsupportedVersion(v) => "unsupported strand format version: "@ + decimal(v as nat),
        CodecError::PayloadTooShort => "payload too short"@,
        CodecError::Serialize(text) => "serialization error: "@ + text@,
    }
}

impl CodecError {
    /// What users are told.
    pub fn message(&self) -> (r: String)
        ensures
            r@ == codec_text(*self),
    {
        match self {
            CodecError::InvalidMagic => owned("invalid strand magic header"),
            CodecError::UnsupportedVersion(v) => {
                let digits = u64_text(*v as u64);
                join2("unsupported strand format version: ", digits.as_str())
            },
            CodecError::PayloadTooShort => owned("payload too short"),
            CodecError::Serialize(text) => join2("serialization error: ", text.as_str()),
        }
    }
}

impl StorageError {
    /// What users are told.
    pub fn message(&self) -> (r: String)
        ensures
            r@ == (match *self {
                StorageError::BufferFull => "buffer full, resize not implemented yet"@,
                StorageError::StrandScan(e) => "strand pool scan: "@ + codec_text(e),
            }),
    {
        match self {
            StorageError::BufferFull => owned("buffer full, resize not implemented yet"),
            StorageError::StrandScan(e) => {
                let inner = e.message();
                join2("strand pool scan: ", inner.as_str())
            },
        }
    }
}

impl EncodingError {
    /// What users are told.
    pub fn message(&self) -> (r: String)
        ensures
            r@ == (match *self {
                EncodingError::InvalidSymbol(v) => "invalid codon symbol: "@ + decimal(v as nat),
                EncodingError::InsufficientSymbols => "insufficient encoded symbols"@,
            }),
    {
        match self {
            EncodingError::InvalidSymbol(v) => {
                let digits = u64_text(*v as u64);
                join2("invalid codon symbol: ", digits.as_str())
            },
            EncodingError::InsufficientSymbols => owned("insufficient encoded symbols"),
        }
    }
}

/// The text that `bincode` gives for its error, behind "serialization error: ".
fn serialize_text(e: &bincode::Error) -> (r: String)
    ensures
        "serialization error: "@.is_prefix_of(r@),
{
    let inner = e.to_string();
    let r = join2("serialization error: ", inner.as_str());
    proof {
        assert("serialization error: "@ =~= r@.subrange(0, "serialization error: "@.len() as int));
    }
    r
}

impl AuditError {
    /// What users are told. Of an error of `bincode` only what stands before its own text is
    /// stated.
    pub fn message(&self) -> (r: String)
        ensures
            match *self {
                AuditError::IntegrityFailure(i) => r@ == "audit chain integrity check failed at index "@ + decimal(
                    i as nat,
                ),
                AuditError::Serialize(_) => "serialization error: "@.is_prefix_of(r@),
            },
    {
        match self {
            AuditError::IntegrityFailure(i) => {
                let digits = u64_text(*i as u64);
                join2("audit chain integrity check failed at index ", digits.as_str())
            },
            AuditError::Serialize(e) => serialize_text(e),
        }
    }
}

impl CompileError {
    /// What users are told. Of an error of `bincode` only what stands before its own text is
    /// stated.
    pub fn message(&self) -> (r: String)
        ensures
            match *self {
                CompileError::EmptyCollection => r@ == "collection name must be non-empty"@,
                CompileError::UnsupportedOperator(f) => r@ == "unsupported where operator for field `"@ + f@
                    + "`: LIKE is only supported as LikePattern"@,
                CompileError::Serialize(_) => "serialization error: "@.is_prefix_of(r@),
            },
    {
        match self {
            CompileError::EmptyCollection => owned("collection name must be non-empty"),
            CompileError::UnsupportedOperator(f) => {
                let mut s = join2("unsupported where operator for field `", f.as_str());
                s.append("`: LIKE is only supported as LikePattern");
                s
            },
            CompileError::Serialize(e) => serialize_text(e),
        }
    }
}

impl TlsPolicyError {
    /// What users are told.
    pub fn message(&self) -> (r: &'static str)
        ensures
            r@ == (match *self {
                TlsPolicyError::TlsRequired => "TLS must be enabled for non-local environments"@,
                TlsPolicyError::PlaintextForbidden =>
                    "plaintext connections are not allowed outside local development"@,
                TlsPolicyError::MinVersionTooLow => "minimum TLS version must be 1.3 in non-local environments"@,
                TlsPolicyError::MissingCertFile => "TLS enabled but certificate path is missing"@,
                TlsPolicyError::MissingKeyFile => "TLS enabled but key path is missing"@,
            }),
    {
        match self {
            TlsPolicyError::TlsRequired => "TLS must be enabled for non-local environments",
            TlsPolicyError::PlaintextForbidden => "plaintext connections are not allowed outside local development",
            TlsPolicyError::MinVersionTooLow => "minimum TLS version must be 1.3 in non-local environments",
            TlsPolicyError::MissingCertFile => "TLS enabled but certificate path is missing",
            TlsPolicyError::MissingKeyFile => "TLS enabled but key path is missing",
        }
    }
}

} // verus!
