use dockvault::map::SortedMap;
use dockvault::parser::{merge, parse_and_merge, AuthConfig, DockerConfig, DockerDocument, DockvaultConfig};
use dockvault::sorted::{Keyed, SortedVec};

fn s(text: &str) -> Option<String> {
    Some(text.to_string())
}

fn token_record(token: &str) -> AuthConfig {
    AuthConfig::new(None, None, s(token), None, None, None, None)
}

fn full_record() -> AuthConfig {
    AuthConfig::new(s("alice"), s("pass"), s("YWxpY2U6cGFzcw=="), s("a@example.com"), s("example.com"), s("idt"), s("rgt"))
}

fn active_of(pairs: &[(&str, AuthConfig)]) -> DockerConfig {
    let mut auths = SortedMap::new();
    for (registry, record) in pairs {
        auths.insert(registry.to_string(), record.clone());
    }
    DockerConfig::new(auths, SortedMap::new())
}

fn vault_of(pairs: &[(&str, &[AuthConfig])]) -> DockvaultConfig {
    let mut data = SortedMap::new();
    for (registry, records) in pairs {
        let mut history = SortedVec::new();
        for record in records.iter() {
            history.insert(record.clone());
        }
        data.insert(registry.to_string(), history);
    }
    DockvaultConfig::from_data(data)
}

fn history_of(vault: &DockvaultConfig, registry: &str) -> Option<Vec<AuthConfig>> {
    let history = vault.data().get(registry)?;
    let mut out = Vec::new();
    let mut i = 0;
    while let Some(record) = history.get(i) {
        out.push(record.clone());
        i += 1;
    }
    Some(out)
}

fn registries_of(vault: &DockvaultConfig) -> Vec<String> {
    let mut out = Vec::new();
    let mut i = 0;
    while let Some(slot) = vault.data().slot(i) {
        out.push(slot.name.clone());
        i += 1;
    }
    out
}

fn document_of(pairs: &[(&str, &str)]) -> SortedMap<String> {
    let mut doc = SortedMap::new();
    for (name, value) in pairs {
        doc.insert(name.to_string(), value.to_string());
    }
    doc
}

fn pairs_of(doc: &SortedMap<String>) -> Vec<(String, String)> {
    let mut out = Vec::new();
    let mut i = 0;
    while let Some(slot) = doc.slot(i) {
        out.push((slot.name.clone(), slot.value.clone()));
        i += 1;
    }
    out
}

fn document_from_json(text: &str) -> SortedMap<String> {
    let value: serde_json::Value = serde_json::from_str(text).unwrap();
    let mut doc = SortedMap::new();
    for (name, field) in value.as_object().unwrap() {
        doc.insert(name.clone(), field.as_str().unwrap().to_string());
    }
    doc
}

fn json_from_document(doc: &SortedMap<String>) -> String {
    let mut object = serde_json::Map::new();
    for (name, field) in pairs_of(doc) {
        object.insert(name, serde_json::Value::String(field));
    }
    serde_json::to_string(&serde_json::Value::Object(object)).unwrap()
}

#[test]
fn a_record_gives_back_its_fields() {
    let r = full_record();
    assert_eq!(r.username(), Some("alice"));
    assert_eq!(r.password(), Some("pass"));
    assert_eq!(r.auth(), Some("YWxpY2U6cGFzcw=="));
    assert_eq!(r.email(), Some("a@example.com"));
    assert_eq!(r.serveraddress(), Some("example.com"));
    assert_eq!(r.identitytoken(), Some("idt"));
    assert_eq!(r.registrytoken(), Some("rgt"));
}

#[test]
fn absent_fields_are_absent() {
    let r = AuthConfig::new(None, None, None, None, None, None, None);
    assert_eq!(r.username(), None);
    assert_eq!(r.password(), None);
    assert_eq!(r.auth(), None);
    assert_eq!(r.email(), None);
    assert_eq!(r.serveraddress(), None);
    assert_eq!(r.identitytoken(), None);
    assert_eq!(r.registrytoken(), None);
}

#[test]
fn records_are_equal_when_every_field_matches() {
    assert_eq!(full_record(), full_record());
    assert_eq!(token_record("x"), token_record("x"));
    assert_ne!(token_record("x"), token_record("y"));
    assert_ne!(token_record("x"), AuthConfig::new(None, None, None, None, None, None, None));
    let with = |i: usize| {
        let mut f: Vec<Option<String>> = vec![s("a"); 7];
        f[i] = s("b");
        AuthConfig::new(f[0].clone(), f[1].clone(), f[2].clone(), f[3].clone(), f[4].clone(), f[5].clone(), f[6].clone())
    };
    for i in 0..7 {
        assert_eq!(with(i), with(i));
        for j in 0..7 {
            if i != j {
                assert_ne!(with(i), with(j));
            }
        }
    }
}

#[test]
fn a_clone_is_equal() {
    let r = full_record();
    assert_eq!(r.clone(), r);
    let t = token_record("x");
    assert_eq!(t.clone(), t);
}

#[test]
fn an_absent_field_sorts_before_a_present_one() {
    let none = AuthConfig::new(None, None, None, None, None, None, None);
    let empty = AuthConfig::new(s(""), None, None, None, None, None, None);
    assert!(none.precedes(&empty));
    assert!(!empty.precedes(&none));
    assert!(none.precedes(&token_record("")));
    assert!(!none.precedes(&none));
}

#[test]
fn the_first_field_that_differs_decides() {
    let a = AuthConfig::new(s("a"), s("z"), s("z"), None, None, None, None);
    let b = AuthConfig::new(s("b"), s("a"), s("a"), None, None, None, None);
    assert!(a.precedes(&b));
    assert!(!b.precedes(&a));
    let c = AuthConfig::new(s("a"), s("y"), s("zz"), None, None, None, None);
    assert!(c.precedes(&a));
    let d = AuthConfig::new(s("a"), s("z"), s("z"), None, None, None, s("r"));
    assert!(a.precedes(&d));
    assert!(!d.precedes(&a));
    // A record with a user name comes after every record without one.
    assert!(token_record("zzzz").precedes(&AuthConfig::new(s(""), None, None, None, None, None, None)));
}

#[test]
fn the_comparison_operators_follow_the_order() {
    let a = token_record("a");
    let b = token_record("b");
    assert!(a < b);
    assert!(b > a);
    assert!(a <= a.clone());
    assert!(!(a < a.clone()));
    assert_eq!(a.partial_cmp(&b), Some(std::cmp::Ordering::Less));
    assert_eq!(b.partial_cmp(&a), Some(std::cmp::Ordering::Greater));
    assert_eq!(a.partial_cmp(&a.clone()), Some(std::cmp::Ordering::Equal));
}

#[test]
fn sorting_agrees_with_the_sorted_vector() {
    let records = vec![
        full_record(),
        token_record("b"),
        AuthConfig::new(None, None, None, None, None, None, None),
        token_record("a"),
        AuthConfig::new(s(""), None, None, None, None, None, None),
        AuthConfig::new(None, s("p"), None, None, None, None, None),
        AuthConfig::new(None, None, s("a"), s("e"), None, None, None),
        token_record("é"),
        token_record("z"),
    ];
    let mut by_std = records.clone();
    by_std.sort();
    let mut sorted = SortedVec::new();
    for r in records.iter() {
        sorted.insert(r.clone());
    }
    let mut listed = Vec::new();
    let mut i = 0;
    while let Some(r) = sorted.get(i) {
        listed.push(r.clone());
        i += 1;
    }
    assert_eq!(listed, by_std);
    for x in records.iter() {
        for y in records.iter() {
            assert_eq!(x.precedes(y), x < y);
            assert_eq!(x.precedes(y), x.cmp(y) == std::cmp::Ordering::Less);
        }
    }
}

#[test]
fn same_key_is_equality() {
    assert!(full_record().same_key(&full_record()));
    assert!(!full_record().same_key(&token_record("YWxpY2U6cGFzcw==")));
}

#[test]
fn the_document_of_a_record_holds_its_present_fields() {
    let r = AuthConfig::new(None, None, s("YWxpY2U6cGFzcw=="), s("a@example.com"), None, None, None);
    assert_eq!(
        pairs_of(&r.to_document()),
        [("auth".to_string(), "YWxpY2U6cGFzcw==".to_string()), ("email".to_string(), "a@example.com".to_string())]
    );
    assert_eq!(pairs_of(&AuthConfig::new(None, None, None, None, None, None, None).to_document()), []);
    assert_eq!(
        pairs_of(&full_record().to_document()),
        [
            ("auth".to_string(), "YWxpY2U6cGFzcw==".to_string()),
            ("email".to_string(), "a@example.com".to_string()),
            ("identitytoken".to_string(), "idt".to_string()),
            ("password".to_string(), "pass".to_string()),
            ("registrytoken".to_string(), "rgt".to_string()),
            ("serveraddress".to_string(), "example.com".to_string()),
            ("username".to_string(), "alice".to_string()),
        ]
    );
}

#[test]
fn the_record_of_a_document_holds_its_fields() {
    let r = AuthConfig::from_document(&document_of(&[("auth", "x"), ("serveraddress", "example.com")]));
    assert_eq!(r, AuthConfig::new(None, None, s("x"), None, s("example.com"), None, None));
    let empty = AuthConfig::from_document(&SortedMap::new());
    assert_eq!(empty, AuthConfig::new(None, None, None, None, None, None, None));
}

#[test]
fn names_that_are_no_fields_are_not_read() {
    let r = AuthConfig::from_document(&document_of(&[("auth", "x"), ("Auth", "y"), ("user", "z")]));
    assert_eq!(r, token_record("x"));
    assert_eq!(pairs_of(&r.to_document()), [("auth".to_string(), "x".to_string())]);
}

#[test]
fn a_record_survives_its_document() {
    for r in [full_record(), token_record("x"), AuthConfig::new(None, None, None, None, None, None, None), AuthConfig::new(s(""), None, None, None, None, None, s(""))] {
        assert_eq!(AuthConfig::from_document(&r.to_document()), r);
    }
}

#[test]
fn a_document_with_some_fields_comes_back_as_it_was() {
    for text in [
        r#"{"auth":"YWxpY2U6cGFzcw=="}"#,
        r#"{"auth":"YWxpY2U6cGFzcw==","email":"a@example.com"}"#,
        r#"{"identitytoken":"t","username":"alice"}"#,
        r#"{"auth":"a","email":"e","identitytoken":"i","password":"p","registrytoken":"r","serveraddress":"s","username":"u"}"#,
        r#"{}"#,
    ] {
        let record = AuthConfig::from_document(&document_from_json(text));
        assert_eq!(json_from_document(&record.to_document()), text);
    }
}

#[test]
fn the_active_store_keeps_records_and_rest_apart() {
    let mut auths = SortedMap::new();
    auths.insert("example.com".to_string(), token_record("x"));
    let mut rest = SortedMap::new();
    rest.insert("credsStore".to_string(), "\"desktop\"".to_string());
    rest.insert("auths".to_string(), "{}".to_string());
    rest.insert("psFormat".to_string(), "\"table\"".to_string());
    let store = DockerConfig::new(auths, rest);
    assert_eq!(store.auth_configs().len(), 1);
    assert_eq!(store.auth_configs().get("example.com"), Some(&token_record("x")));
    assert_eq!(store.passthrough().len(), 2);
    assert_eq!(store.passthrough().get("credsStore"), Some(&"\"desktop\"".to_string()));
    assert_eq!(store.passthrough().get("psFormat"), Some(&"\"table\"".to_string()));
    assert!(!store.passthrough().contains_key("auths"));
}

#[test]
fn change_auth_cfg_sets_one_record() {
    let mut store = active_of(&[("a.example", token_record("1")), ("b.example", token_record("2"))]);
    store.change_auth_cfg("a.example".to_string(), token_record("9"));
    assert_eq!(store.auth_configs().get("a.example"), Some(&token_record("9")));
    assert_eq!(store.auth_configs().get("b.example"), Some(&token_record("2")));
    store.change_auth_cfg("c.example".to_string(), token_record("3"));
    assert_eq!(store.auth_configs().len(), 3);
    assert_eq!(store.auth_configs().get("c.example"), Some(&token_record("3")));
}

#[test]
fn a_new_vault_is_empty() {
    let vault = DockvaultConfig::new();
    assert_eq!(vault.data().len(), 0);
}

#[test]
fn insert_adds_to_the_history_of_a_registry() {
    let mut vault = DockvaultConfig::new();
    vault.insert("example.com".to_string(), token_record("b"));
    vault.insert("example.com".to_string(), token_record("a"));
    vault.insert("example.com".to_string(), token_record("b"));
    vault.insert("other.io".to_string(), token_record("c"));
    assert_eq!(registries_of(&vault), ["example.com", "other.io"]);
    assert_eq!(history_of(&vault, "example.com"), Some(vec![token_record("a"), token_record("b")]));
    assert_eq!(history_of(&vault, "other.io"), Some(vec![token_record("c")]));
}

#[test]
fn merge_puts_active_records_into_the_vault() {
    let active = active_of(&[("example.com", token_record("x")), ("new.io", token_record("n"))]);
    let mut vault = vault_of(&[("example.com", &[token_record("a")]), ("old.io", &[token_record("o")])]);
    merge(&active, &mut vault);
    assert_eq!(registries_of(&vault), ["example.com", "new.io", "old.io"]);
    assert_eq!(history_of(&vault, "example.com"), Some(vec![token_record("a"), token_record("x")]));
    assert_eq!(history_of(&vault, "new.io"), Some(vec![token_record("n")]));
    assert_eq!(history_of(&vault, "old.io"), Some(vec![token_record("o")]));
}

#[test]
fn merge_into_an_empty_vault() {
    let active = active_of(&[("example.com", token_record("x"))]);
    let mut vault = DockvaultConfig::new();
    merge(&active, &mut vault);
    assert_eq!(registries_of(&vault), ["example.com"]);
    assert_eq!(history_of(&vault, "example.com"), Some(vec![token_record("x")]));
}

#[test]
fn merge_of_an_empty_active_store_changes_nothing() {
    let active = active_of(&[]);
    let mut vault = vault_of(&[("example.com", &[token_record("a")]), ("bare.io", &[])]);
    let before = format!("{:?}", vault);
    merge(&active, &mut vault);
    assert_eq!(format!("{:?}", vault), before);
    assert_eq!(history_of(&vault, "bare.io"), Some(vec![]));
}

#[test]
fn merging_twice_is_merging_once() {
    let active = active_of(&[("example.com", full_record()), ("new.io", token_record("n"))]);
    let mut vault = vault_of(&[("example.com", &[token_record("a"), token_record("z")]), ("old.io", &[token_record("o")])]);
    merge(&active, &mut vault);
    let once = format!("{:?}", vault);
    merge(&active, &mut vault);
    assert_eq!(format!("{:?}", vault), once);
}

#[test]
fn after_a_merge_every_active_record_is_in_the_vault() {
    let pairs = [("a.example", token_record("1")), ("b.example", full_record()), ("c.example", token_record("3"))];
    let active = active_of(&pairs);
    let mut vault = vault_of(&[("b.example", &[token_record("0")])]);
    merge(&active, &mut vault);
    for (registry, record) in pairs.iter() {
        let history = vault.data().get(registry).unwrap();
        assert!(history.position(record).is_some());
    }
}

#[test]
fn merge_leaves_the_active_store_alone() {
    let active = active_of(&[("example.com", token_record("x"))]);
    let before = format!("{:?}", active);
    let mut vault = DockvaultConfig::new();
    merge(&active, &mut vault);
    assert_eq!(format!("{:?}", active), before);
}

fn record_doc(token: &str) -> SortedMap<String> {
    document_of(&[("auth", token)])
}

fn vault_document_of(pairs: &[(&str, &[SortedMap<String>])]) -> SortedMap<Vec<SortedMap<String>>> {
    let mut doc = SortedMap::new();
    for (registry, records) in pairs {
        doc.insert(registry.to_string(), records.iter().map(|d| document_of_pairs(&pairs_of(d))).collect());
    }
    doc
}

fn document_of_pairs(pairs: &[(String, String)]) -> SortedMap<String> {
    let mut doc = SortedMap::new();
    for (name, value) in pairs {
        doc.insert(name.clone(), value.clone());
    }
    doc
}

fn active_document_of(auths: Option<&[(&str, SortedMap<String>)]>, rest: &[(&str, &str)]) -> DockerDocument {
    let auths = auths.map(|pairs| {
        let mut docs = SortedMap::new();
        for (registry, doc) in pairs {
            docs.insert(registry.to_string(), document_of_pairs(&pairs_of(doc)));
        }
        docs
    });
    DockerDocument { auths, rest: document_of(rest) }
}

fn vault_document_pairs(doc: &SortedMap<Vec<SortedMap<String>>>) -> Vec<(String, Vec<Vec<(String, String)>>)> {
    let mut out = Vec::new();
    let mut i = 0;
    while let Some(slot) = doc.slot(i) {
        out.push((slot.name.clone(), slot.value.iter().map(pairs_of).collect()));
        i += 1;
    }
    out
}

#[test]
fn the_active_store_is_read_from_its_document() {
    let doc = active_document_of(
        Some(&[("example.com", record_doc("x")), ("a.example", document_of(&[("auth", "y"), ("email", "e")]))]),
        &[("credsStore", "\"desktop\""), ("auths", "{}")],
    );
    let store = DockerConfig::from_document(doc);
    assert_eq!(store.auth_configs().len(), 2);
    assert_eq!(store.auth_configs().get("example.com"), Some(&token_record("x")));
    assert_eq!(
        store.auth_configs().get("a.example"),
        Some(&AuthConfig::new(None, None, s("y"), s("e"), None, None, None))
    );
    assert_eq!(pairs_of(store.passthrough()), [("credsStore".to_string(), "\"desktop\"".to_string())]);
}

#[test]
fn a_document_without_records_gives_a_store_without_records() {
    let store = DockerConfig::from_document(active_document_of(None, &[("psFormat", "\"table\"")]));
    assert_eq!(store.auth_configs().len(), 0);
    assert_eq!(pairs_of(store.passthrough()), [("psFormat".to_string(), "\"table\"".to_string())]);
    let store = DockerConfig::from_document(active_document_of(None, &[]));
    assert_eq!(store.auth_configs().len(), 0);
    assert_eq!(store.passthrough().len(), 0);
}

#[test]
fn the_active_store_is_written_with_its_records_and_its_rest() {
    let mut store = DockerConfig::from_document(active_document_of(
        Some(&[("example.com", record_doc("x"))]),
        &[("credsStore", "\"desktop\""), ("experimental", "\"enabled\"")],
    ));
    store.change_auth_cfg("new.io".to_string(), full_record());
    let doc = store.to_document();
    let auths = doc.auths.unwrap();
    assert_eq!(auths.len(), 2);
    assert_eq!(pairs_of(auths.get("example.com").unwrap()), [("auth".to_string(), "x".to_string())]);
    assert_eq!(pairs_of(auths.get("new.io").unwrap()), pairs_of(&full_record().to_document()));
    assert_eq!(
        pairs_of(&doc.rest),
        [("credsStore".to_string(), "\"desktop\"".to_string()), ("experimental".to_string(), "\"enabled\"".to_string())]
    );
}

#[test]
fn an_empty_active_store_is_written_with_an_empty_member_for_records() {
    let doc = DockerConfig::from_document(active_document_of(None, &[])).to_document();
    assert_eq!(doc.auths.map(|a| a.len()), Some(0));
    assert_eq!(doc.rest.len(), 0);
}

#[test]
fn the_vault_is_read_from_its_document() {
    let doc = vault_document_of(&[
        ("example.com", &[record_doc("b"), record_doc("a"), record_doc("b")]),
        ("bare.io", &[]),
    ]);
    let vault = DockvaultConfig::from_document(&doc);
    assert_eq!(registries_of(&vault), ["bare.io", "example.com"]);
    assert_eq!(history_of(&vault, "example.com"), Some(vec![token_record("a"), token_record("b")]));
    assert_eq!(history_of(&vault, "bare.io"), Some(vec![]));
}

#[test]
fn the_vault_is_written_in_ascending_order() {
    let mut vault = DockvaultConfig::new();
    vault.insert("z.example".to_string(), token_record("2"));
    vault.insert("a.example".to_string(), full_record());
    vault.insert("z.example".to_string(), token_record("1"));
    vault.insert("a.example".to_string(), token_record("q"));
    assert_eq!(
        vault_document_pairs(&vault.to_document()),
        [
            ("a.example".to_string(), vec![pairs_of(&record_doc("q")), pairs_of(&full_record().to_document())]),
            ("z.example".to_string(), vec![pairs_of(&record_doc("1")), pairs_of(&record_doc("2"))]),
        ]
    );
}

#[test]
fn a_vault_survives_its_document() {
    let vault = vault_of(&[("example.com", &[token_record("a"), full_record()]), ("bare.io", &[]), ("z", &[token_record("")])]);
    let again = DockvaultConfig::from_document(&vault.to_document());
    assert_eq!(format!("{:?}", again), format!("{:?}", vault));
}

#[test]
fn an_active_store_survives_its_document() {
    let store = DockerConfig::from_document(active_document_of(
        Some(&[("example.com", record_doc("x")), ("new.io", full_record().to_document())]),
        &[("credsStore", "\"desktop\"")],
    ));
    let again = DockerConfig::from_document(store.to_document());
    assert_eq!(format!("{:?}", again), format!("{:?}", store));
}

#[test]
fn parse_and_merge_reads_both_stores_and_merges() {
    let active = active_document_of(Some(&[("example.com", record_doc("x")), ("new.io", record_doc("n"))]), &[("k", "1")]);
    let vault = vault_document_of(&[("example.com", &[record_doc("a")]), ("old.io", &[record_doc("o")])]);
    let (active, vault) = parse_and_merge(active, &vault);
    assert_eq!(active.auth_configs().len(), 2);
    assert_eq!(active.auth_configs().get("example.com"), Some(&token_record("x")));
    assert_eq!(active.auth_configs().get("new.io"), Some(&token_record("n")));
    assert_eq!(pairs_of(active.passthrough()), [("k".to_string(), "1".to_string())]);
    assert_eq!(registries_of(&vault), ["example.com", "new.io", "old.io"]);
    assert_eq!(history_of(&vault, "example.com"), Some(vec![token_record("a"), token_record("x")]));
    assert_eq!(history_of(&vault, "new.io"), Some(vec![token_record("n")]));
    assert_eq!(history_of(&vault, "old.io"), Some(vec![token_record("o")]));
}

#[test]
fn parse_and_merge_of_two_empty_documents() {
    let (active, vault) = parse_and_merge(active_document_of(None, &[]), &SortedMap::new());
    assert_eq!(active.auth_configs().len(), 0);
    assert_eq!(active.passthrough().len(), 0);
    assert_eq!(vault.data().len(), 0);
}
