use dockvault::map::SortedMap;
use dockvault::parser::{merge, AuthConfig, DockerConfig, DockvaultConfig};
use dockvault::sorted::SortedVec;
use dockvault::state::{
    change_who, generate_autocomplete, index_history, make_state, parse_use_syntax, print, State, SwitchError,
};

const ALICE: &str = "YWxpY2U6cGFzcw=="; // alice:pass
const ALICE_NEW: &str = "YWxpY2U6bmV3cGFzcw=="; // alice:newpass
const BOB: &str = "Ym9iOnNlY3JldA=="; // bob:secret
const CAROL: &str = "Y2Fyb2w6cHc="; // carol:pw
const NO_COLON: &str = "YWxpY2U="; // alice
const NOT_TEXT: &str = "/zp4"; // 0xff ':' 'x'
const NOT_BASE64: &str = "not base64!";

fn record(token: &str) -> AuthConfig {
    AuthConfig::new(None, None, Some(token.to_string()), None, None, None, None)
}

fn record_with_email(token: &str, email: &str) -> AuthConfig {
    AuthConfig::new(None, None, Some(token.to_string()), Some(email.to_string()), None, None, None)
}

fn active_of(pairs: &[(&str, AuthConfig)]) -> DockerConfig {
    let mut auths = SortedMap::new();
    for (registry, record) in pairs {
        auths.insert(registry.to_string(), record.clone());
    }
    DockerConfig::new(auths, SortedMap::new())
}

fn vault_of(pairs: &[(&str, &[AuthConfig])]) -> DockvaultConfig {
    let mut data = SortedMap::new();
    for (registry, records) in pairs {
        let mut history = SortedVec::new();
        for record in records.iter() {
            history.insert(record.clone());
        }
        data.insert(registry.to_string(), history);
    }
    DockvaultConfig::from_data(data)
}

/// The index as plain values: per registry the entries as
/// (user name, in use, token).
fn listing(state: &State) -> Vec<(String, Vec<(String, bool, String)>)> {
    let mut out = Vec::new();
    let mut i = 0;
    while let Some(slot) = state.entries().slot(i) {
        let mut entries = Vec::new();
        let mut j = 0;
        while let Some(e) = slot.value.get(j) {
            entries.push((e.username().to_string(), e.is_used(), e.auth_b64().to_string()));
            j += 1;
        }
        out.push((slot.name.clone(), entries));
        i += 1;
    }
    out
}

fn entry(name: &str, used: bool, token: &str) -> (String, bool, String) {
    (name.to_string(), used, token.to_string())
}

fn active_from_json(text: &str) -> DockerConfig {
    let value: serde_json::Value = serde_json::from_str(text).unwrap();
    let mut auths = SortedMap::new();
    let mut rest = SortedMap::new();
    for (name, member) in value.as_object().unwrap() {
        if name == "auths" {
            for (registry, doc) in member.as_object().unwrap() {
                let mut fields = SortedMap::new();
                for (field, text) in doc.as_object().unwrap() {
                    fields.insert(field.clone(), text.as_str().unwrap().to_string());
                }
                auths.insert(registry.clone(), AuthConfig::from_document(&fields));
            }
        } else {
            rest.insert(name.clone(), serde_json::to_string(member).unwrap());
        }
    }
    DockerConfig::new(auths, rest)
}

#[test]
fn example_one_active_record_and_an_empty_vault() {
    let active = active_from_json(r#"{"auths":{"example.com":{"auth":"YWxpY2U6cGFzcw=="}}}"#);
    let mut vault = DockvaultConfig::new();
    merge(&active, &mut vault);
    let state = make_state(&active, &vault);
    assert_eq!(listing(&state), [("example.com".to_string(), vec![entry("alice", true, ALICE)])]);
}

#[test]
fn the_index_has_the_registries_of_the_vault() {
    let active = active_of(&[("only-active.io", record(ALICE))]);
    let vault = vault_of(&[("b.example", &[record(BOB)]), ("a.example", &[record(ALICE)]), ("bare.io", &[])]);
    let state = make_state(&active, &vault);
    assert_eq!(
        listing(&state),
        [
            ("a.example".to_string(), vec![entry("alice", false, ALICE)]),
            ("b.example".to_string(), vec![entry("bob", false, BOB)]),
            ("bare.io".to_string(), vec![]),
        ]
    );
}

#[test]
fn the_record_in_use_is_marked() {
    let active = active_of(&[("example.com", record(BOB))]);
    let vault = vault_of(&[("example.com", &[record(ALICE), record(BOB), record(CAROL)])]);
    let state = make_state(&active, &vault);
    assert_eq!(
        listing(&state),
        [("example.com".to_string(), vec![entry("alice", false, ALICE), entry("bob", true, BOB), entry("carol", false, CAROL)])]
    );
}

#[test]
fn in_use_means_the_whole_record_matches() {
    // Same token, another e-mail address: not the record in use.
    let active = active_of(&[("example.com", record_with_email(ALICE, "a@example.com"))]);
    let vault = vault_of(&[("example.com", &[record(ALICE)])]);
    let state = make_state(&active, &vault);
    assert_eq!(listing(&state), [("example.com".to_string(), vec![entry("alice", false, ALICE)])]);
}

#[test]
fn in_use_is_told_per_registry() {
    let active = active_of(&[("a.example", record(ALICE))]);
    let vault = vault_of(&[("a.example", &[record(ALICE)]), ("b.example", &[record(ALICE)])]);
    let state = make_state(&active, &vault);
    assert_eq!(
        listing(&state),
        [
            ("a.example".to_string(), vec![entry("alice", true, ALICE)]),
            ("b.example".to_string(), vec![entry("alice", false, ALICE)]),
        ]
    );
}

#[test]
fn at_most_one_entry_of_a_registry_is_in_use() {
    let active = active_of(&[("example.com", record(ALICE)), ("other.io", record(CAROL))]);
    let mut vault = vault_of(&[
        ("example.com", &[record(ALICE), record(ALICE_NEW), record(BOB), record_with_email(ALICE, "a@example.com")]),
        ("other.io", &[record(BOB)]),
        ("third.io", &[record(ALICE)]),
    ]);
    merge(&active, &mut vault);
    let state = make_state(&active, &vault);
    for (registry, entries) in listing(&state) {
        let used: Vec<_> = entries.iter().filter(|e| e.1).collect();
        assert!(used.len() <= 1);
        for e in used {
            let current = active.auth_configs().get(&registry).unwrap();
            assert_eq!(current.auth(), Some(e.2.as_str()));
        }
    }
    assert_eq!(listing(&state)[0].1.iter().filter(|e| e.1).count(), 1);
    assert_eq!(listing(&state)[1].1.iter().filter(|e| e.1).count(), 1);
    assert_eq!(listing(&state)[2].1.iter().filter(|e| e.1).count(), 0);
}

#[test]
fn two_tokens_of_one_user_are_both_listed() {
    let active = active_of(&[("example.com", record(ALICE_NEW))]);
    let vault = vault_of(&[("example.com", &[record(ALICE), record(ALICE_NEW)])]);
    let state = make_state(&active, &vault);
    assert_eq!(
        listing(&state),
        [("example.com".to_string(), vec![entry("alice", false, ALICE), entry("alice", true, ALICE_NEW)])]
    );
}

#[test]
fn entries_are_ordered_by_name_then_use_then_token() {
    let active = active_of(&[]);
    let vault = vault_of(&[("example.com", &[record(CAROL), record(ALICE), record(BOB), record(ALICE_NEW)])]);
    let state = make_state(&active, &vault);
    assert_eq!(
        listing(&state),
        [(
            "example.com".to_string(),
            vec![entry("alice", false, ALICE_NEW), entry("alice", false, ALICE), entry("bob", false, BOB), entry("carol", false, CAROL)]
        )]
    );
}

#[test]
fn records_with_one_token_share_an_entry() {
    let active = active_of(&[]);
    let plain = record(ALICE);
    let mailed = record_with_email(ALICE, "a@example.com");
    let vault = vault_of(&[("example.com", &[plain.clone(), mailed.clone()])]);
    let state = make_state(&active, &vault);
    assert_eq!(listing(&state), [("example.com".to_string(), vec![entry("alice", false, ALICE)])]);
    // The entry holds the later of the two records.
    let held = state.entries().get("example.com").unwrap().get(0).unwrap().auth_cfg().clone();
    assert_eq!(held, mailed);
}

#[test]
fn records_that_stand_for_no_user_are_left_out() {
    let active = active_of(&[("broken.io", record(NOT_BASE64))]);
    let no_token = AuthConfig::new(Some("dave".to_string()), Some("pw".to_string()), None, None, None, None, None);
    let vault = vault_of(&[
        ("broken.io", &[record(NOT_BASE64), record(NO_COLON), record(NOT_TEXT), no_token]),
        ("mixed.io", &[record(NO_COLON), record(BOB)]),
        ("sound.io", &[record(ALICE)]),
    ]);
    let state = make_state(&active, &vault);
    assert_eq!(
        listing(&state),
        [
            ("broken.io".to_string(), vec![]),
            ("mixed.io".to_string(), vec![entry("bob", false, BOB)]),
            ("sound.io".to_string(), vec![entry("alice", false, ALICE)]),
        ]
    );
}

#[test]
fn the_index_does_not_depend_on_the_order_of_arrival() {
    let active = active_of(&[("b.example", record(BOB))]);
    let one = vault_of(&[("a.example", &[record(ALICE), record(CAROL)]), ("b.example", &[record(BOB), record(ALICE)])]);
    let two = vault_of(&[("b.example", &[record(ALICE), record(BOB)]), ("a.example", &[record(CAROL), record(ALICE)])]);
    let first = make_state(&active, &one);
    let second = make_state(&active, &two);
    assert_eq!(listing(&first), listing(&second));
    assert_eq!(format!("{:?}", first), format!("{:?}", second));
    assert_eq!(print(&first), print(&second));
}

#[test]
fn make_state_changes_neither_store() {
    let active = active_of(&[("example.com", record(ALICE))]);
    let vault = vault_of(&[("example.com", &[record(ALICE), record(NOT_BASE64)])]);
    let (a, v) = (format!("{:?}", active), format!("{:?}", vault));
    let _ = make_state(&active, &vault);
    assert_eq!(format!("{:?}", active), a);
    assert_eq!(format!("{:?}", vault), v);
}

#[test]
fn index_history_lists_one_registry() {
    let mut history = SortedVec::new();
    history.insert(record(BOB));
    history.insert(record(ALICE));
    history.insert(record(NO_COLON));
    let bob = record(BOB);
    let entries = index_history(&history, Some(&bob));
    assert_eq!(entries.len(), 2);
    assert_eq!(entries.get(0).unwrap().username(), "alice");
    assert!(!entries.get(0).unwrap().is_used());
    assert_eq!(entries.get(1).unwrap().username(), "bob");
    assert!(entries.get(1).unwrap().is_used());
    assert_eq!(entries.get(1).unwrap().auth_b64(), BOB);
    assert_eq!(entries.get(1).unwrap().auth_cfg(), &bob);
    let none = index_history(&history, None);
    assert!(!none.get(1).unwrap().is_used());
}

#[test]
fn entries_compare_by_name_use_token_and_record() {
    let mut history = SortedVec::new();
    for r in [record(ALICE), record(ALICE_NEW), record(BOB), record_with_email(ALICE, "a@example.com")] {
        history.insert(r);
    }
    let mailed = record_with_email(ALICE, "a@example.com");
    let with_active = index_history(&history, Some(&mailed));
    let without = index_history(&history, None);
    let mut all = Vec::new();
    for entries in [&with_active, &without] {
        let mut i = 0;
        while let Some(e) = entries.get(i) {
            all.push(e);
            i += 1;
        }
    }
    // alice/new, alice/plain, alice/mailed in use, bob; then alice/new,
    // alice/mailed, bob.
    assert_eq!(all.len(), 7);
    assert!(all[0] < all[1]);
    assert!(all[1] < all[2]);
    assert!(all[2] < all[3]);
    assert_eq!(all[0], all[4]);
    assert_eq!(all[3], all[6]);
    // Same name, use and token; the records differ.
    assert_ne!(all[1], all[5]);
    assert!(all[1] < all[5]);
    // In use comes after not in use, whatever the token.
    assert!(all[5] < all[2]);
    for x in all.iter() {
        for y in all.iter() {
            assert_eq!(x < y, x.cmp(y) == std::cmp::Ordering::Less);
            assert_eq!(x == y, x.cmp(y) == std::cmp::Ordering::Equal);
            assert_eq!(x.same(y), x == y);
        }
    }
}

#[test]
fn get_finds_the_entries_of_a_registry() {
    let active = active_of(&[("example.com", record(ALICE))]);
    let vault = vault_of(&[("example.com", &[record(ALICE), record(BOB)]), ("bare.io", &[])]);
    let state = make_state(&active, &vault);
    let entries = state.get("example.com").unwrap();
    assert_eq!(entries.len(), 2);
    assert_eq!(entries.get(0).unwrap().username(), "alice");
    assert_eq!(entries.get(1).unwrap().username(), "bob");
    assert_eq!(state.get("bare.io").map(|e| e.len()), Some(0));
    assert!(state.get("ghost-registry").is_none());
    assert!(state.get("").is_none());
}

#[test]
fn print_shows_registries_and_users() {
    let active = active_of(&[("example.com", record(ALICE))]);
    let vault = vault_of(&[("example.com", &[record(ALICE), record(BOB)]), ("other.io", &[record(CAROL)])]);
    let state = make_state(&active, &vault);
    assert_eq!(print(&state), "example.com\n  * alice\n    bob\n\nother.io\n    carol\n");
}

#[test]
fn print_of_one_registry_has_no_empty_line() {
    let active = active_of(&[("example.com", record(ALICE))]);
    let vault = vault_of(&[("example.com", &[record(ALICE)])]);
    assert_eq!(print(&make_state(&active, &vault)), "example.com\n  * alice\n");
}

#[test]
fn print_of_a_registry_without_users_shows_its_name() {
    let active = active_of(&[]);
    let vault = vault_of(&[("a.example", &[]), ("b.example", &[record(NO_COLON)]), ("c.example", &[record(BOB)])]);
    assert_eq!(print(&make_state(&active, &vault)), "a.example\n\nb.example\n\nc.example\n    bob\n");
}

#[test]
fn print_of_an_empty_index_says_so() {
    let state = make_state(&active_of(&[]), &DockvaultConfig::new());
    assert_eq!(print(&state), "You haven't logged in to any registry.\n");
    // Records in use are shown only once they are in the vault.
    let state = make_state(&active_of(&[("example.com", record(ALICE))]), &DockvaultConfig::new());
    assert_eq!(print(&state), "You haven't logged in to any registry.\n");
}

#[test]
fn completions_are_user_at_registry() {
    let active = active_of(&[("example.com", record(ALICE))]);
    let vault = vault_of(&[("example.com", &[record(ALICE), record(BOB)]), ("bare.io", &[]), ("other.io", &[record(CAROL)])]);
    let state = make_state(&active, &vault);
    assert_eq!(generate_autocomplete(&state), "alice@example.com\nbob@example.com\ncarol@other.io\n");
    assert_eq!(generate_autocomplete(&make_state(&active_of(&[]), &DockvaultConfig::new())), "");
}

#[test]
fn switch_puts_the_record_of_the_user_in_use() {
    let mut active = active_from_json(
        r#"{"auths":{"R":{"auth":"YWxpY2U6cGFzcw=="},"S":{"auth":"Y2Fyb2w6cHc="}},"credsStore":"desktop","proxies":{"default":{"httpProxy":"http://p:1"}}}"#,
    );
    let bob = record_with_email(BOB, "bob@example.com");
    let mut vault = vault_of(&[("R", &[bob.clone()])]);
    merge(&active, &mut vault);
    let state = make_state(&active, &vault);
    assert_eq!(listing(&state)[0], ("R".to_string(), vec![entry("alice", true, ALICE), entry("bob", false, BOB)]));
    let rest_before = format!("{:?}", active.passthrough());
    assert_eq!(change_who(&state, &mut active, "R", "bob"), Ok(()));
    assert_eq!(active.auth_configs().get("R"), Some(&bob));
    assert_eq!(active.auth_configs().get("S"), Some(&record(CAROL)));
    assert_eq!(active.auth_configs().len(), 2);
    assert_eq!(format!("{:?}", active.passthrough()), rest_before);
    assert_eq!(active.passthrough().get("credsStore"), Some(&"\"desktop\"".to_string()));
    assert_eq!(active.passthrough().get("proxies"), Some(&r#"{"default":{"httpProxy":"http://p:1"}}"#.to_string()));
    // The index built anew shows bob in use.
    let state = make_state(&active, &vault);
    assert_eq!(listing(&state)[0], ("R".to_string(), vec![entry("alice", false, ALICE), entry("bob", true, BOB)]));
}

#[test]
fn switch_to_a_registry_without_active_record_adds_one() {
    let mut active = active_of(&[("other.io", record(CAROL))]);
    let vault = vault_of(&[("example.com", &[record(ALICE)])]);
    let state = make_state(&active, &vault);
    assert_eq!(change_who(&state, &mut active, "example.com", "alice"), Ok(()));
    assert_eq!(active.auth_configs().len(), 2);
    assert_eq!(active.auth_configs().get("example.com"), Some(&record(ALICE)));
    assert_eq!(active.auth_configs().get("other.io"), Some(&record(CAROL)));
}

#[test]
fn switch_does_not_touch_the_vault() {
    let mut active = active_of(&[("R", record(ALICE))]);
    let vault = vault_of(&[("R", &[record(ALICE), record(BOB)])]);
    let before = format!("{:?}", vault);
    let state = make_state(&active, &vault);
    assert_eq!(change_who(&state, &mut active, "R", "bob"), Ok(()));
    assert_eq!(format!("{:?}", vault), before);
}

#[test]
fn switch_takes_the_last_record_of_the_user() {
    // Two tokens for alice. The record with the token of alice:pass comes
    // after the one with the token of alice:newpass.
    let mut active = active_of(&[("R", record(ALICE_NEW))]);
    let vault = vault_of(&[("R", &[record(ALICE), record(ALICE_NEW), record(BOB)])]);
    let state = make_state(&active, &vault);
    assert_eq!(change_who(&state, &mut active, "R", "alice"), Ok(()));
    assert_eq!(active.auth_configs().get("R"), Some(&record(ALICE)));
}

#[test]
fn switch_on_an_unknown_registry_fails_and_changes_nothing() {
    let mut active = active_from_json(r#"{"auths":{"R":{"auth":"YWxpY2U6cGFzcw=="}},"credsStore":"desktop"}"#);
    let mut vault = DockvaultConfig::new();
    merge(&active, &mut vault);
    let state = make_state(&active, &vault);
    let before = format!("{:?}", active);
    assert_eq!(
        change_who(&state, &mut active, "ghost-registry", "alice"),
        Err(SwitchError::UnknownRegistry { registry: "ghost-registry".to_string() })
    );
    assert_eq!(format!("{:?}", active), before);
}

#[test]
fn switch_to_an_unknown_user_fails_and_changes_nothing() {
    let mut active = active_of(&[("R", record(ALICE))]);
    let vault = vault_of(&[("R", &[record(ALICE), record(NO_COLON)]), ("S", &[record(BOB)])]);
    let state = make_state(&active, &vault);
    let before = format!("{:?}", active);
    assert_eq!(
        change_who(&state, &mut active, "R", "bob"),
        Err(SwitchError::UnknownUser { registry: "R".to_string(), username: "bob".to_string() })
    );
    assert_eq!(format!("{:?}", active), before);
    assert_eq!(
        change_who(&state, &mut active, "R", ""),
        Err(SwitchError::UnknownUser { registry: "R".to_string(), username: String::new() })
    );
}

#[test]
fn a_registry_known_to_the_active_store_only_is_unknown_to_the_index() {
    let mut active = active_of(&[("R", record(ALICE))]);
    let state = make_state(&active, &DockvaultConfig::new());
    assert_eq!(
        change_who(&state, &mut active, "R", "alice"),
        Err(SwitchError::UnknownRegistry { registry: "R".to_string() })
    );
}

#[test]
fn switch_errors_say_what_was_wrong() {
    let e = SwitchError::UnknownRegistry { registry: "ghost-registry".to_string() };
    assert_eq!(e.message(), "registry `ghost-registry` does not exist.");
    let e = SwitchError::UnknownUser { registry: "R".to_string(), username: "bob".to_string() };
    assert_eq!(e.message(), "username `bob` does not exist in registry R.");
}

#[test]
fn use_syntax_is_user_at_registry() {
    assert_eq!(parse_use_syntax("alice@example.com"), Some(("alice".to_string(), "example.com".to_string())));
    assert_eq!(parse_use_syntax("alice@example.com:5000"), Some(("alice".to_string(), "example.com:5000".to_string())));
    assert_eq!(parse_use_syntax("a@b@c"), Some(("a".to_string(), "b@c".to_string())));
    assert_eq!(parse_use_syntax("@"), Some((String::new(), String::new())));
    assert_eq!(parse_use_syntax("alice"), None);
    assert_eq!(parse_use_syntax(""), None);
}
