use cage::assets::{AssetsClient, AuthMode, trim_bytes};
use cage::cert::{CertError, DistinguishedName, try_resolve_distinguished_name};
use cage::cli_args::{CurveName, EnvAction};
use cage::config::InitArgs;

#[test]
fn test_resolve_subject_string() {
    let dn = try_resolve_distinguished_name(Some("/CN=EV/C=IE/ST=LEI/L=DUB/O=Evervault/OU=Eng"))
        .unwrap();
    assert_eq!(dn.common_name, b"EV".to_vec());
    assert_eq!(dn.country, b"IE".to_vec());
    assert_eq!(dn.state, b"LEI".to_vec());
    assert_eq!(dn.locality, b"DUB".to_vec());
    assert_eq!(dn.org, b"Evervault".to_vec());
    assert_eq!(dn.org_unit, b"Eng".to_vec());
}

#[test]
fn test_resolve_subject_defaults() {
    let dn = try_resolve_distinguished_name(None).unwrap();
    let generic = DistinguishedName::generic();
    assert_eq!(dn.common_name, generic.common_name);
    assert_eq!(dn.country, b"IE".to_vec());
    assert_eq!(dn.common_name, b"cages.evervault.com".to_vec());
}

#[test]
fn test_resolve_subject_partial_overrides() {
    let dn = try_resolve_distinguished_name(Some("/CN=my-cage")).unwrap();
    assert_eq!(dn.common_name, b"my-cage".to_vec());
    assert_eq!(dn.org, b"Evervault".to_vec());
}

#[test]
fn test_resolve_subject_errors() {
    assert_eq!(
        try_resolve_distinguished_name(Some("CN=EV")).unwrap_err(),
        CertError::InvalidSubject
    );
    assert_eq!(
        try_resolve_distinguished_name(Some("/XX=1")).unwrap_err(),
        CertError::InvalidSubject
    );
    assert_eq!(
        try_resolve_distinguished_name(Some("/CNEV")).unwrap_err(),
        CertError::InvalidSubject
    );
    assert_eq!(try_resolve_distinguished_name(Some("")).unwrap_err(), CertError::InvalidSubject);
}

#[test]
fn test_init_args_into_config() {
    let args = InitArgs {
        output_dir: ".".to_string(),
        cage_name: "hello".to_string(),
        debug: false,
        egress: true,
        dockerfile: Some("Dockerfile".to_string()),
        cert_path: Some("./cert.pem".to_string()),
        key_path: Some("./key.pem".to_string()),
        disable_tls_termination: false,
    };
    let config = args.into_config();
    assert_eq!(config.name, "hello");
    assert!(config.uuid.is_none());
    assert!(config.app_uuid.is_none());
    assert!(config.team_uuid.is_none());
    assert!(!config.debug);
    assert!(config.egress.enabled);
    assert!(config.egress.destinations.is_none());
    assert_eq!(config.dockerfile, "Dockerfile");
    let signing = config.signing.expect("signing info should be kept");
    assert_eq!(signing.cert.as_deref(), Some("./cert.pem"));
    assert_eq!(signing.key.as_deref(), Some("./key.pem"));
    assert!(config.attestation.is_none());
    assert!(!config.disable_tls_termination);
}

#[test]
fn test_init_args_default_dockerfile_and_no_signing() {
    let args = InitArgs {
        output_dir: ".".to_string(),
        cage_name: "hello-cage".to_string(),
        debug: true,
        egress: false,
        dockerfile: None,
        cert_path: None,
        key_path: None,
        disable_tls_termination: true,
    };
    let config = args.into_config();
    assert_eq!(config.dockerfile, "Dockerfile");
    assert!(config.signing.is_none());
    assert!(config.debug);
    assert!(!config.egress.enabled);
    assert!(config.disable_tls_termination);
}

#[test]
fn test_assets_urls() {
    let client = AssetsClient::new();
    assert_eq!(
        String::from_utf8(client.base_url()).unwrap(),
        "https://cage-build-assets.evervault.com"
    );
    assert_eq!(
        String::from_utf8(client.cli_version_url()).unwrap(),
        "https://cage-build-assets.evervault.com/cli/version"
    );
    assert_eq!(
        String::from_utf8(client.cli_install_url()).unwrap(),
        "https://cage-build-assets.evervault.com/cli/install"
    );
    assert_eq!(
        String::from_utf8(client.runtime_latest_url()).unwrap(),
        "https://cage-build-assets.evervault.com/runtime/latest"
    );
    assert_eq!(
        String::from_utf8(client.installer_latest_url()).unwrap(),
        "https://cage-build-assets.evervault.com/installer/latest"
    );
    let custom = AssetsClient::with_domain(b"evervault.dev".to_vec());
    assert_eq!(
        String::from_utf8(custom.runtime_latest_url()).unwrap(),
        "https://cage-build-assets.evervault.dev/runtime/latest"
    );
}

#[test]
fn test_trim_installer_version_text() {
    assert_eq!(trim_bytes(&b"  v1.2.3\n".to_vec()), b"v1.2.3".to_vec());
    assert_eq!(trim_bytes(&b"v1.2.3".to_vec()), b"v1.2.3".to_vec());
    assert_eq!(trim_bytes(&b" \r\n\t ".to_vec()), b"".to_vec());
}

#[test]
fn test_cli_arg_values() {
    let action = EnvAction::Add;
    assert_eq!(action, EnvAction::Add);
    assert_ne!(EnvAction::Delete, EnvAction::Get);
    assert_eq!(CurveName::Nist, CurveName::Nist);
    let auth = AuthMode::ApiKey("key".to_string());
    match auth {
        AuthMode::ApiKey(k) => assert_eq!(k, "key"),
        _ => panic!("expected api key auth"),
    }
}
