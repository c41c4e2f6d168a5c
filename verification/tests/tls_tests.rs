use dnadb_engine::tls::{
    production_secure_defaults, validate_tls_policy, Environment, TlsConfig, TlsMinVersion,
    TlsPolicyError,
};

#[test]
fn production_secure_defaults_validate() {
    let cfg = production_secure_defaults();
    assert!(validate_tls_policy(&cfg, Environment::Production).is_ok());
}

#[test]
fn production_rejects_plaintext_or_disabled_tls() {
    let mut cfg = production_secure_defaults();
    cfg.allow_plaintext = true;
    assert!(matches!(
        validate_tls_policy(&cfg, Environment::Production),
        Err(TlsPolicyError::PlaintextForbidden)
    ));

    cfg.allow_plaintext = false;
    cfg.enabled = false;
    assert!(matches!(
        validate_tls_policy(&cfg, Environment::Production),
        Err(TlsPolicyError::TlsRequired)
    ));
}

#[test]
fn production_requires_tls13_and_cert_key() {
    let mut cfg = production_secure_defaults();
    cfg.min_version = TlsMinVersion::V12;
    assert!(matches!(
        validate_tls_policy(&cfg, Environment::Production),
        Err(TlsPolicyError::MinVersionTooLow)
    ));

    cfg.min_version = TlsMinVersion::V13;
    cfg.cert_file = None;
    assert!(matches!(
        validate_tls_policy(&cfg, Environment::Production),
        Err(TlsPolicyError::MissingCertFile)
    ));

    cfg.cert_file = Some("/certs/server.crt".to_string());
    cfg.key_file = None;
    assert!(matches!(
        validate_tls_policy(&cfg, Environment::Production),
        Err(TlsPolicyError::MissingKeyFile)
    ));
}

#[test]
fn local_dev_allows_plaintext_or_disabled_tls() {
    let cfg = TlsConfig {
        enabled: false,
        allow_plaintext: true,
        min_version: TlsMinVersion::V12,
        cert_file: None,
        key_file: None,
    };
    assert!(validate_tls_policy(&cfg, Environment::LocalDev).is_ok());
}
