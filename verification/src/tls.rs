//! Transport security: which settings an environment accepts.
use crate::support::text::owned;
use vstd::prelude::*;

verus! {

/// Where the engine runs.
#[derive(Debug, Clone, Copy, PartialEq, Eq, Structural)]
pub enum Environment {
    LocalDev,
    Staging,
    Production,
}

/// The lowest TLS version accepted.
#[derive(Debug, Clone, Copy, PartialEq, Eq, Structural)]
pub enum TlsMinVersion {
    V12,
    V13,
}

/// TLS settings; the files are named by their paths.
#[derive(Debug)]
pub struct TlsConfig {
    pub enabled: bool,
    pub allow_plaintext: bool,
    pub min_version: TlsMinVersion,
    pub cert_file: Option<String>,
    pub key_file: Option<String>,
}

impl Default for TlsConfig {
    fn default() -> (r: Self)
        ensures
            r.enabled,
            !r.allow_plaintext,
            r.min_version == TlsMinVersion::V13,
            r.cert_file is None,
            r.key_file is None,
    {
        TlsConfig {
            enabled: true,
            allow_plaintext: false,
            min_version: TlsMinVersion::V13,
            cert_file: None,
            key_file: None,
        }
    }
}

/// Why settings are refused.
#[derive(Debug, Clone, Copy, PartialEq, Eq, Structural)]
pub enum TlsPolicyError {
    TlsRequired,
    PlaintextForbidden,
    MinVersionTooLow,
    MissingCertFile,
    MissingKeyFile,
}

/// The first thing that an environment finds wrong with the settings. Local development may
/// do without TLS; elsewhere TLS 1.3 without plaintext is asked for. TLS needs both files.
pub open spec fn first_fault(cfg: TlsConfig, env: Environment) -> Option<TlsPolicyError> {
    if env == Environment::LocalDev && !cfg.enabled {
        None
    } else if env != Environment::LocalDev && !cfg.enabled {
        Some(TlsPolicyError::TlsRequired)
    } else if env != Environment::LocalDev && cfg.allow_plaintext {
        Some(TlsPolicyError::PlaintextForbidden)
    } else if env != Environment::LocalDev && cfg.min_version != TlsMinVersion::V13 {
        Some(TlsPolicyError::MinVersionTooLow)
    } else if cfg.cert_file is None {
        Some(TlsPolicyError::MissingCertFile)
    } else if cfg.key_file is None {
        Some(TlsPolicyError::MissingKeyFile)
    } else {
        None
    }
}

/// Checks TLS settings against an environment.
pub fn validate_tls_policy(cfg: &TlsConfig, env: Environment) -> (r: Result<(), TlsPolicyError>)
    ensures
        match r {
            Ok(_) => first_fault(*cfg, env) is None,
            Err(e) => first_fault(*cfg, env) == Some(e),
        },
{
    match env {
        Environment::LocalDev => {
            if cfg.enabled {
                if cfg.cert_file.is_none() {
                    return Err(TlsPolicyError::MissingCertFile);
                }
                if cfg.key_file.is_none() {
                    return Err(TlsPolicyError::MissingKeyFile);
                }
            }
            Ok(())
        },
        Environment::Staging | Environment::Production => {
            if !cfg.enabled {
                return Err(TlsPolicyError::TlsRequired);
            }
            if cfg.allow_plaintext {
                return Err(TlsPolicyError::PlaintextForbidden);
            }
            if cfg.min_version != TlsMinVersion::V13 {
                return Err(TlsPolicyError::MinVersionTooLow);
            }
            if cfg.cert_file.is_none() {
                return Err(TlsPolicyError::MissingCertFile);
            }
            if cfg.key_file.is_none() {
                return Err(TlsPolicyError::MissingKeyFile);
            }
            Ok(())
        },
    }
}

/// Settings that every environment accepts.
pub fn production_secure_defaults() -> (r: TlsConfig)
    ensures
        r.enabled,
        !r.allow_plaintext,
        r.min_version == TlsMinVersion::V13,
        r.cert_file matches Some(p) && p@ == "/certs/server.crt"@,
        r.key_file matches Some(p) && p@ == "/certs/server.key"@,
        forall|env: Environment| #[trigger] first_fault(r, env) is None,
{
    TlsConfig {
        enabled: true,
        allow_plaintext: false,
        min_version: TlsMinVersion::V13,
        cert_file: Some(owned("/certs/server.crt")),
        key_file: Some(owned("/certs/server.key")),
    }
}

/// What an environment other than local development accepts is encrypted with TLS 1.3 only,
/// and has certificate and key.
pub proof fn law_accepted_settings_are_secure(cfg: TlsConfig, env: Environment)
    requires
        env != Environment::LocalDev,
        first_fault(cfg, env) is None,
    ensures
        cfg.enabled,
        !cfg.allow_plaintext,
        cfg.min_version == TlsMinVersion::V13,
        cfg.cert_file is Some,
        cfg.key_file is Some,
{
}

} // verus!
