use plume_signer::entitlements::PlistValue;
use plume_signer::provision::{parse_plist_xml, plist_to_xml, MobileProvision};

fn sample_profile() -> Vec<u8> {
    let mut data = b"signature-noise ".to_vec();
    data.extend_from_slice(
        b"<plist version=\"1.0\"><dict>\
          <key>Entitlements</key><dict>\
          <key>application-identifier</key><string>ABCDE12345.com.example.app</string>\
          <key>com.apple.developer.team-identifier</key><string>ABCDE12345</string>\
          </dict></dict></plist>",
    );
    data.extend_from_slice(b" trailing-noise");
    data
}

#[test]
fn load_extracts_entitlements() {
    let p = MobileProvision::load_with_bytes(sample_profile()).unwrap();
    match p.entitlements().get("application-identifier") {
        Some(PlistValue::Text(s)) => assert_eq!(s, "ABCDE12345.com.example.app"),
        other => panic!("text expected, got {:?}", other),
    }
}

#[test]
fn load_fails_without_closing_marker() {
    // an opening marker with no closing marker must fail the parse and
    // never hand back a partially populated profile
    let data = b"junk <plist version=\"1.0\"><dict></dict>".to_vec();
    assert!(MobileProvision::load_with_bytes(data).is_err());
}

#[test]
fn load_fails_without_entitlements_key() {
    let data = b"<plist version=\"1.0\"><dict></dict></plist>".to_vec();
    assert!(MobileProvision::load_with_bytes(data).is_err());
}

#[test]
fn load_fails_on_markers_out_of_order() {
    let data = b"</plist> then <plist".to_vec();
    assert!(MobileProvision::load_with_bytes(data).is_err());
}

#[test]
fn bundle_id_strips_team_prefix() {
    let p = MobileProvision::load_with_bytes(sample_profile()).unwrap();
    assert_eq!(p.bundle_id().unwrap(), "com.example.app");
}

#[test]
fn merge_scopes_profile_to_binary() {
    let mut p = MobileProvision::load_with_bytes(sample_profile()).unwrap();
    let binary_ents = plume_signer::entitlements::Dict::new();
    p.merge_entitlements(&binary_ents, "com.example.app.XYZXYZXYZ9");
    // nothing in this profile holds a wildcard, so the identifier stands
    match p.entitlements().get("application-identifier") {
        Some(PlistValue::Text(s)) => assert_eq!(s, "ABCDE12345.com.example.app"),
        other => panic!("text expected, got {:?}", other),
    }
}

#[test]
fn plist_xml_round_trips() {
    let v = PlistValue::Dict(vec![
        ("name".to_string(), PlistValue::Text("value".to_string())),
        ("count".to_string(), PlistValue::Integer(3)),
        ("on".to_string(), PlistValue::Boolean(true)),
    ]);
    let bytes = plist_to_xml(&v).unwrap();
    let back = parse_plist_xml(&bytes).unwrap();
    match back {
        PlistValue::Dict(es) => {
            assert_eq!(es.len(), 3);
            assert_eq!(es[0].0, "name");
            match &es[1].1 {
                PlistValue::Integer(i) => assert_eq!(*i, 3),
                other => panic!("integer expected, got {:?}", other),
            }
        },
        other => panic!("dict expected, got {:?}", other),
    }
}

#[test]
fn entitlements_as_bytes_serializes_the_dictionary() {
    let p = MobileProvision::load_with_bytes(sample_profile()).unwrap();
    let bytes = p.entitlements_as_bytes().unwrap();
    let text = String::from_utf8(bytes).unwrap();
    assert!(text.contains("application-identifier"));
    assert!(text.contains("ABCDE12345.com.example.app"));
}
