use plume_signer::cert::{build_csr_pem, encode_certificate_pem, pem_parse_many,
    rsa_generate_pkcs8_der, rsa_pkcs8_from_pem, rsa_pkcs8_pem, rsa_public_key_der};
use plume_signer::options::{
    strip_invalid_name_chars, str_contains, SignerApp, SignerAppReal, SignerInstallMode,
    SignerMode, SignerOptions,
};

#[test]
fn app_recognition_by_identifier() {
    assert_eq!(
        SignerApp::from_bundle_identifier(Some("com.kdt.livecontainer.fork")),
        SignerApp::LiveContainer
    );
    assert_eq!(
        SignerApp::from_bundle_identifier(Some("com.SideStore.SideStore")),
        SignerApp::SideStore
    );
    assert_eq!(SignerApp::from_bundle_identifier(Some("com.unknown")), SignerApp::Default);
    assert_eq!(SignerApp::from_bundle_identifier(None), SignerApp::Default);
}

#[test]
fn app_recognition_falls_back_to_name() {
    let app = SignerApp::from_bundle_identifier_or_name(Some("com.unknown"), Some("Live Container!"));
    assert_eq!(app, SignerApp::LiveContainer);
    let app = SignerApp::from_bundle_identifier_or_name(Some("com.rileytestut.AltStore"), Some("Feather"));
    assert_eq!(app, SignerApp::AltStore);
    let app = SignerApp::from_bundle_identifier_or_name(None, None);
    assert_eq!(app, SignerApp::Default);
}

#[test]
fn app_real_remembers_identifier() {
    let r = SignerAppReal::from_bundle_identifier(Some("com.stik.sj"));
    assert_eq!(r.app, SignerApp::StikDebug);
    assert_eq!(r.bundle_id.as_deref(), Some("com.stik.sj"));
    let r = SignerAppReal::from_bundle_identifier_and_name(None, Some("sparsebox"));
    assert_eq!(r.app, SignerApp::SparseBox);
    assert!(r.bundle_id.is_none());
}

#[test]
fn pairing_file_support_and_paths() {
    assert!(!SignerApp::Default.supports_pairing_file());
    assert!(!SignerApp::LiveContainer.supports_pairing_file());
    assert!(SignerApp::LiveContainer.supports_pairing_file_alt());
    assert!(SignerApp::SideStore.supports_pairing_file());
    assert_eq!(
        SignerApp::SideStore.pairing_file_path(),
        Some("/Documents/ALTPairingFile.mobiledevicepairing")
    );
    assert_eq!(SignerApp::Feather.pairing_file_path(), Some("/Documents/pairingFile.plist"));
    assert_eq!(SignerApp::AltStore.pairing_file_path(), None);
    assert_eq!(
        SignerApp::ByeTunes.pairing_file_path(),
        Some("/Documents/pairing file/pairingFile.plist")
    );
}

#[test]
fn options_for_live_container_use_one_profile() {
    let o = SignerOptions::new_for_app(SignerApp::LiveContainer);
    assert!(o.embedding.single_profile);
    assert_eq!(o.mode, SignerMode::Pem);
    assert_eq!(o.install_mode, SignerInstallMode::Install);
    let o = SignerOptions::new_for_app(SignerApp::Feather);
    assert!(!o.embedding.single_profile);
}

#[test]
fn labels_render_modes() {
    assert_eq!(SignerMode::Pem.label(), "Apple ID");
    assert_eq!(SignerMode::Adhoc.label(), "Adhoc");
    assert_eq!(SignerMode::NoSign.label(), "No Modify");
    assert_eq!(SignerInstallMode::Install.label(), "Install");
    assert_eq!(SignerInstallMode::Export.label(), "Export");
    assert_eq!(SignerApp::LiveContainerAndSideStore.label(), "LiveContainer");
}

#[test]
fn name_stripping_removes_refused_characters() {
    assert_eq!(strip_invalid_name_chars("My App/Name?"), "My AppName");
    assert_eq!(strip_invalid_name_chars("a.b:c*d"), "abcd");
    assert_eq!(strip_invalid_name_chars("ok name"), "ok name");
    assert_eq!(strip_invalid_name_chars("tab\there"), "tabhere");
}

#[test]
fn substring_search_matches_rust() {
    assert!(str_contains("com.kdt.livecontainer.fork", "livecontainer"));
    assert!(!str_contains("com.other", "livecontainer"));
    assert!(str_contains("abc", ""));
    assert!(!str_contains("", "a"));
}

#[test]
fn pem_blocks_round_trip() {
    let text = "-----BEGIN CERTIFICATE-----\naGVsbG8=\n-----END CERTIFICATE-----\n";
    let blocks = pem_parse_many(text.as_bytes()).unwrap();
    assert_eq!(blocks.len(), 1);
    assert_eq!(blocks[0].0, "CERTIFICATE");
    assert_eq!(blocks[0].1, b"hello".to_vec());
    // a buffer without a complete block yields no blocks
    assert_eq!(pem_parse_many(b"no pem here").map(|v| v.len()), Some(0));
}

#[test]
fn certificate_pem_encoding_wraps_der() {
    let pem_text = encode_certificate_pem(b"hello").unwrap();
    assert!(pem_text.starts_with("-----BEGIN CERTIFICATE-----"));
    let blocks = pem_parse_many(pem_text.as_bytes()).unwrap();
    assert_eq!(blocks[0].1, b"hello".to_vec());
}

#[test]
fn key_generation_supports_the_request_flow() {
    let key = rsa_generate_pkcs8_der().expect("key generation expected to succeed");
    let public = rsa_public_key_der(&key).expect("public key derivable");
    assert!(!public.is_empty());
    let pem_text = rsa_pkcs8_pem(&key).expect("PEM encodable");
    let back = rsa_pkcs8_from_pem(&pem_text).expect("PEM decodable");
    assert_eq!(back, key);
    let csr = build_csr_pem(&key).expect("request buildable");
    assert!(csr.contains("BEGIN CERTIFICATE REQUEST"));
}
