use plume_signer::entitlements::{
    merge_entitlements, substitute_text, substitute_value, Dict, PlistValue,
};

fn text(s: &str) -> PlistValue {
    PlistValue::Text(s.to_string())
}

fn dict_of(pairs: Vec<(&str, PlistValue)>) -> Dict {
    let mut d = Dict::new();
    for (k, v) in pairs {
        d.set(k, v);
    }
    d
}

fn has_star(v: &PlistValue) -> bool {
    match v {
        PlistValue::Text(s) => s.contains('*'),
        PlistValue::Array(items) => items.iter().any(has_star),
        PlistValue::Dict(es) => es.iter().any(|kv| has_star(&kv.1)),
        _ => false,
    }
}

#[test]
fn substitution_replaces_every_star() {
    assert_eq!(substitute_text("a*b", "ID"), "aIDb");
    assert_eq!(substitute_text("**", "Q"), "QQ");
    assert_eq!(substitute_text("none", "Q"), "none");
}

#[test]
fn substitution_is_total_across_nesting() {
    let tree = PlistValue::Dict(vec![
        ("app-id".to_string(), text("TEAM.*")),
        (
            "groups".to_string(),
            PlistValue::Array(vec![
                text("group.*"),
                PlistValue::Dict(vec![("inner".to_string(), text("*.suffix"))]),
            ]),
        ),
        ("flag".to_string(), PlistValue::Boolean(true)),
    ]);
    let out = substitute_value(&tree, "com.example.app");
    assert!(has_star(&tree));
    assert!(!has_star(&out));
    match &out {
        PlistValue::Dict(es) => match &es[0].1 {
            PlistValue::Text(s) => assert_eq!(s, "TEAM.com.example.app"),
            _ => panic!("text expected"),
        },
        _ => panic!("dict expected"),
    }
}

#[test]
fn merge_orders_replace_filter_retarget() {
    // base holds a wildcard value and its own group list
    let mut base = dict_of(vec![
        ("application-identifier", text("OLDTEAMID0.*")),
        (
            "keychain-access-groups",
            PlistValue::Array(vec![text("OLDTEAMID0.stale")]),
        ),
    ]);
    // the additions' list replaces the base's; the invalid system entry
    // is dropped; the team prefix of the survivor is rewritten
    let additions = dict_of(vec![(
        "keychain-access-groups",
        PlistValue::Array(vec![text("ABCDE12345.shared"), text("com.apple.token")]),
    )]);
    merge_entitlements(&mut base, &additions, Some("ZZZZZZZZZ9"), Some("com.example.app"));

    let groups = match base.get("keychain-access-groups") {
        Some(PlistValue::Array(items)) => items.clone(),
        other => panic!("group list expected, got {:?}", other),
    };
    assert_eq!(groups.len(), 1);
    match &groups[0] {
        PlistValue::Text(s) => assert_eq!(s, "ZZZZZZZZZ9.shared"),
        other => panic!("text expected, got {:?}", other),
    }
    // the wildcard in the untouched value was substituted first
    match base.get("application-identifier") {
        Some(PlistValue::Text(s)) => assert_eq!(s, "OLDTEAMID0.com.example.app"),
        other => panic!("text expected, got {:?}", other),
    }
}

#[test]
fn merge_without_additions_filters_base_groups() {
    let mut base = dict_of(vec![(
        "keychain-access-groups",
        PlistValue::Array(vec![text("ABCDE12345.keep"), text("com.apple.token")]),
    )]);
    let additions = Dict::new();
    merge_entitlements(&mut base, &additions, None, None);
    let groups = match base.get("keychain-access-groups") {
        Some(PlistValue::Array(items)) => items.clone(),
        other => panic!("group list expected, got {:?}", other),
    };
    assert_eq!(groups.len(), 1);
    match &groups[0] {
        PlistValue::Text(s) => assert_eq!(s, "ABCDE12345.keep"),
        other => panic!("text expected, got {:?}", other),
    }
}

#[test]
fn dict_set_replaces_in_place_and_appends() {
    let mut d = Dict::new();
    d.set("a", text("1"));
    d.set("b", text("2"));
    d.set("a", text("3"));
    assert_eq!(d.entries.len(), 2);
    match d.get("a") {
        Some(PlistValue::Text(s)) => assert_eq!(s, "3"),
        other => panic!("text expected, got {:?}", other),
    }
    assert!(d.contains_key("b"));
    assert!(!d.contains_key("c"));
}
