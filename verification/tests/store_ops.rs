use totpman::input::is_confirmed;
use totpman::input::parse_selection;
use totpman::store::Account;
use totpman::store::Command;
use totpman::store::Step;
use totpman::AccountArray;
use totpman::Error;
use totpman::Selector;

const SECRET: &str = "JBSWY3DPEHPK3PXP";

fn names(store: &AccountArray) -> Vec<String> {
    store.accounts.iter().map(|a| a.name.clone()).collect()
}

#[test]
fn add_then_find_returns_index_zero() {
    let mut store = AccountArray::new("secrets.json");
    assert!(store.add("alpha", SECRET).is_ok());
    assert_eq!(store.find("alpha"), Ok(0));
}

#[test]
fn add_duplicate_reports_and_leaves_store_unchanged() {
    let mut store = AccountArray::new("secrets.json");
    assert!(store.add("alpha", SECRET).is_ok());
    let r = store.add("alpha", "GEZDGNBVGY3TQOJQGEZDGNBVGY3TQOJQ");
    assert_eq!(r.unwrap_err(), Error::DuplicateAccount);
    assert_eq!(store.accounts.len(), 1);
    assert_eq!(store.accounts[0].secret, SECRET);
}

#[test]
fn add_invalid_secret_is_rejected_without_mutation() {
    let mut store = AccountArray::new("secrets.json");
    let r = store.add("alpha", "not base32!");
    assert_eq!(r.unwrap_err(), Error::InvalidSecret);
    assert_eq!(store.accounts.len(), 0);
}

#[test]
fn add_keeps_names_sorted() {
    let mut store = AccountArray::new("secrets.json");
    for name in ["mike", "alpha", "zulu", "bravo"] {
        assert!(store.add(name, SECRET).is_ok());
    }
    assert_eq!(names(&store), vec!["alpha", "bravo", "mike", "zulu"]);
    assert_eq!(store.find("bravo"), Ok(1));
    assert_eq!(store.find("yankee"), Err(3));
}

#[test]
fn remove_declined_leaves_store_unchanged() {
    let mut store = AccountArray::new("secrets.json");
    assert!(store.add("alpha", SECRET).is_ok());
    let index = store.try_remove("alpha").unwrap();
    let removed = store.remove_idx(index, "no\n");
    assert!(removed.is_none());
    assert_eq!(store.accounts.len(), 1);
    assert_eq!(store.accounts[0].name, "alpha");
}

#[test]
fn remove_confirmed_removes_and_echoes_account() {
    let mut store = AccountArray::new("secrets.json");
    assert!(store.add("alpha", SECRET).is_ok());
    assert!(store.add("bravo", SECRET).is_ok());
    let index = store.try_remove("alpha").unwrap();
    let removed = store.remove_idx(index, "yes\n").unwrap();
    assert_eq!(removed.name, "alpha");
    assert_eq!(removed.secret, SECRET);
    assert_eq!(names(&store), vec!["bravo"]);
}

#[test]
fn remove_missing_name_fails_not_found() {
    let mut store = AccountArray::new("secrets.json");
    assert!(store.add("alpha", SECRET).is_ok());
    assert_eq!(store.try_remove("bravo").unwrap_err(), Error::AccountNotFound);
    assert_eq!(store.accounts.len(), 1);
}

#[test]
fn clean_confirmed_empties_store() {
    let mut store = AccountArray::new("secrets.json");
    assert!(store.add("alpha", SECRET).is_ok());
    assert!(store.add("bravo", SECRET).is_ok());
    assert!(store.try_clean("yes\n"));
    assert_eq!(store.accounts.len(), 0);
}

#[test]
fn clean_declined_keeps_store() {
    let mut store = AccountArray::new("secrets.json");
    assert!(store.add("alpha", SECRET).is_ok());
    assert!(!store.try_clean("\n"));
    assert!(!store.try_clean("YES\n"));
    assert_eq!(store.accounts.len(), 1);
}

#[test]
fn get_by_missing_name_fails_without_mutation() {
    let mut store = AccountArray::new("secrets.json");
    assert!(store.add("alpha", SECRET).is_ok());
    let before = names(&store);
    let r = store.get(&Selector::ByName("bravo".to_string()));
    assert_eq!(r.unwrap_err(), Error::AccountNotFound);
    assert_eq!(names(&store), before);
}

#[test]
fn get_by_name_resolves_index() {
    let mut store = AccountArray::new("secrets.json");
    assert!(store.add("alpha", SECRET).is_ok());
    assert!(store.add("bravo", SECRET).is_ok());
    assert_eq!(store.get(&Selector::ByName("bravo".to_string())), Ok(1));
}

#[test]
fn get_by_index_parses_and_checks_range() {
    let mut store = AccountArray::new("secrets.json");
    assert!(store.add("alpha", SECRET).is_ok());
    assert!(store.add("bravo", SECRET).is_ok());
    assert_eq!(store.get(&Selector::ByIndex("1\n".to_string())), Ok(1));
    assert_eq!(
        store.get(&Selector::ByIndex("2\n".to_string())).unwrap_err(),
        Error::InvalidIndex
    );
    assert_eq!(
        store.get(&Selector::ByIndex("abc\n".to_string())).unwrap_err(),
        Error::InvalidIndex
    );
    assert_eq!(
        store.get(&Selector::ByIndex("\n".to_string())).unwrap_err(),
        Error::InvalidIndex
    );
}

#[test]
fn get_totp_revalidates_secret() {
    let account = Account::new("alpha", "not base32!");
    assert_eq!(account.get_totp(59).unwrap_err(), Error::InvalidSecret);
    let good = Account::new("alpha", SECRET);
    let code = good.get_totp(59).unwrap();
    assert_eq!(code.len(), 6);
}

#[test]
fn list_includes_secrets_only_on_request() {
    let mut store = AccountArray::new("secrets.json");
    assert!(store.add("alpha", SECRET).is_ok());
    assert!(store.add("bravo", SECRET).is_ok());
    let plain = store.list(false);
    assert_eq!(plain.len(), 2);
    assert_eq!(plain[0].index, 0);
    assert_eq!(plain[1].name, "bravo");
    assert!(plain.iter().all(|r| r.secret.is_none()));
    let full = store.list(true);
    assert_eq!(full[1].secret.as_deref(), Some(SECRET));
}

#[test]
fn path_returns_backing_location() {
    let store = AccountArray::new("/home/user/.totp/secrets.json");
    assert_eq!(store.path(), "/home/user/.totp/secrets.json");
}

#[test]
fn load_from_sorts_records() {
    let mut store = AccountArray::new("secrets.json");
    let records = vec![
        Account::new("zulu", SECRET),
        Account::new("alpha", SECRET),
        Account::new("mike", SECRET),
    ];
    assert!(store.load_from(records).is_ok());
    assert_eq!(names(&store), vec!["alpha", "mike", "zulu"]);
}

#[test]
fn load_from_rejects_duplicate_names_as_corrupt() {
    let mut store = AccountArray::new("secrets.json");
    let records = vec![
        Account::new("alpha", SECRET),
        Account::new("bravo", SECRET),
        Account::new("alpha", SECRET),
    ];
    assert_eq!(store.load_from(records).unwrap_err(), Error::CorruptStore);
}

#[test]
fn save_then_load_round_trips() {
    let mut store = AccountArray::new("secrets.json");
    for name in ["mike", "alpha", "zulu"] {
        assert!(store.add(name, SECRET).is_ok());
    }
    let written: Vec<Account> = store
        .accounts
        .iter()
        .map(|a| Account::new(&a.name, &a.secret))
        .collect();
    let mut reloaded = AccountArray::new("secrets.json");
    assert!(reloaded.load_from(written).is_ok());
    assert_eq!(names(&reloaded), names(&store));
    for (a, b) in reloaded.accounts.iter().zip(store.accounts.iter()) {
        assert_eq!(a.secret, b.secret);
    }
}

#[test]
fn match_cmd_dispatches_list_and_path() {
    let mut store = AccountArray::new("secrets.json");
    assert!(store.add("alpha", SECRET).is_ok());
    match store.match_cmd(Command::List { secret: false }) {
        Step::ShowList(rows) => assert_eq!(rows.len(), 1),
        _ => panic!("expected a listing"),
    }
    match store.match_cmd(Command::Path) {
        Step::ShowPath(p) => assert_eq!(p, "secrets.json"),
        _ => panic!("expected the path"),
    }
}

#[test]
fn match_cmd_dispatches_add_remove_clean_get() {
    let mut store = AccountArray::new("secrets.json");
    match store.match_cmd(Command::Add {
        name: "alpha".to_string(),
        secret: SECRET.to_string(),
    }) {
        Step::Persist => {}
        _ => panic!("expected a persist request"),
    }
    match store.match_cmd(Command::Add {
        name: "alpha".to_string(),
        secret: SECRET.to_string(),
    }) {
        Step::Failed(e) => assert_eq!(e, Error::DuplicateAccount),
        _ => panic!("expected a duplicate report"),
    }
    match store.match_cmd(Command::Remove {
        name: "alpha".to_string(),
    }) {
        Step::AwaitRemove(i) => assert_eq!(i, 0),
        _ => panic!("expected a pending removal"),
    }
    match store.match_cmd(Command::Clean) {
        Step::AwaitClean(rows) => {
            assert_eq!(rows.len(), 1);
            assert!(rows[0].secret.is_some());
        }
        _ => panic!("expected a pending clean"),
    }
    match store.match_cmd(Command::Get {
        name: Some("alpha".to_string()),
        no_copy: true,
    }) {
        Step::Resolved(i) => assert_eq!(i, 0),
        _ => panic!("expected a resolved account"),
    }
    match store.match_cmd(Command::Get {
        name: None,
        no_copy: true,
    }) {
        Step::AwaitSelection(rows) => {
            assert_eq!(rows.len(), 1);
            assert!(rows[0].secret.is_none());
        }
        _ => panic!("expected a pending selection"),
    }
    match store.match_cmd(Command::Get {
        name: Some("missing".to_string()),
        no_copy: true,
    }) {
        Step::Failed(e) => assert_eq!(e, Error::AccountNotFound),
        _ => panic!("expected a not-found report"),
    }
}

#[test]
fn confirmation_requires_exact_yes() {
    assert!(is_confirmed("yes"));
    assert!(is_confirmed("yes\n"));
    assert!(is_confirmed("  yes \r\n"));
    assert!(!is_confirmed("Yes"));
    assert!(!is_confirmed("y"));
    assert!(!is_confirmed(""));
    assert!(!is_confirmed("no\n"));
    assert!(!is_confirmed("yes please"));
}

#[test]
fn selection_parses_trimmed_decimal() {
    assert_eq!(parse_selection("0\n"), Some(0));
    assert_eq!(parse_selection(" 12 \n"), Some(12));
    assert_eq!(parse_selection("007"), Some(7));
    assert_eq!(parse_selection(""), None);
    assert_eq!(parse_selection("-1"), None);
    assert_eq!(parse_selection("1a"), None);
    assert_eq!(parse_selection("99999999999999999999999999"), None);
}

#[test]
fn error_exit_codes() {
    assert_eq!(Error::DuplicateAccount.exit_code(), 0);
    assert_eq!(Error::InvalidSecret.exit_code(), 1);
    assert_eq!(Error::AccountNotFound.exit_code(), 1);
    assert_eq!(Error::InvalidIndex.exit_code(), 1);
    assert_eq!(Error::CorruptStore.exit_code(), 1);
    assert_eq!(Error::ClipboardUnavailable.exit_code(), 1);
}

#[test]
fn json_document_loads_into_sorted_store() {
    let doc = r#"[{"name":"zulu","secret":"JBSWY3DPEHPK3PXP"},
                  {"name":"alpha","secret":"JBSWY3DPEHPK3PXP"}]"#;
    let parsed: serde_json::Value = serde_json::from_str(doc).unwrap();
    let mut records = Vec::new();
    for entry in parsed.as_array().unwrap() {
        let name = entry.get("name").unwrap().as_str().unwrap();
        let secret = entry.get("secret").unwrap().as_str().unwrap();
        records.push(Account::new(name, secret));
    }
    let mut store = AccountArray::new("secrets.json");
    assert!(store.load_from(records).is_ok());
    assert_eq!(names(&store), vec!["alpha", "zulu"]);
}
