use teams_cli::error::TeamsError;
use teams_cli::keyring::{
    add_profile_to_index, delete_token, get_token, list_profiles, remove_profile_from_index,
    store_token, TokenStores,
};
use teams_cli::memory_store::MemoryStore;
use teams_cli::profiles::{add_profile, parse_profile_index, remove_profile};
use teams_cli::secret_store::SecretStore;
use teams_cli::settings::{chunk_bytes_for, disabled, store_kind, StoreKind, WINDOWS_CHUNK_BYTES};

fn stores(
    disable: Option<&str>,
    store: Option<&str>,
    windows: bool,
) -> TokenStores<MemoryStore, MemoryStore> {
    TokenStores {
        disable_keyring: disable.map(|v| v.to_string()),
        token_store: store.map(|v| v.to_string()),
        windows,
        keyring: MemoryStore::new(),
        files: Ok(MemoryStore::new()),
    }
}

#[test]
fn words_that_disable() {
    for word in ["1", "true", "TRUE", "Yes", "on", "oN"] {
        assert!(disabled(Some(word)), "{word}");
    }
    for word in ["", "0", "false", "no", "off", " 1", "true ", "yess"] {
        assert!(!disabled(Some(word)), "{word}");
    }
    assert!(!disabled(None));
}

#[test]
fn words_that_select_a_store() {
    assert_eq!(store_kind(None).unwrap(), StoreKind::Keyring);
    for word in ["", "  ", "keyring", "KeyChain", "\tkeyring\n", "\u{3000}keyring\u{a0}"] {
        assert_eq!(store_kind(Some(word)).unwrap(), StoreKind::Keyring, "{word}");
    }
    for word in ["file", " File ", "FILE"] {
        assert_eq!(store_kind(Some(word)).unwrap(), StoreKind::File, "{word}");
    }
    let err = store_kind(Some(" Vault Ü ")).unwrap_err();
    assert!(matches!(err, TeamsError::InvalidInput(_)));
    assert_eq!(
        err.message(),
        "TEAMS_CLI_TOKEN_STORE=vault Ü is not a token store; use `keyring` (default) or `file`"
    );
}

#[test]
fn only_the_windows_keyring_chunks() {
    assert_eq!(WINDOWS_CHUNK_BYTES, 2560);
    assert_eq!(chunk_bytes_for(StoreKind::Keyring, true), Some(2560));
    assert_eq!(chunk_bytes_for(StoreKind::Keyring, false), None);
    assert_eq!(chunk_bytes_for(StoreKind::File, true), None);
    assert_eq!(chunk_bytes_for(StoreKind::File, false), None);
}

#[test]
fn a_token_goes_to_the_selected_store() {
    let mut s = stores(None, Some("file"), true);
    store_token(&mut s, "work", "{\"access_token\":\"t\"}").unwrap();
    assert!(s.keyring.keys().is_empty());
    assert_eq!(s.files.as_ref().unwrap().keys(), vec!["work:token"]);
    assert_eq!(get_token(&mut s, "work").unwrap(), "{\"access_token\":\"t\"}");
    delete_token(&mut s, "work").unwrap();
    assert!(s.files.as_ref().unwrap().keys().is_empty());

    let mut s = stores(None, None, false);
    store_token(&mut s, "work", &"a".repeat(6000)).unwrap();
    assert_eq!(s.keyring.keys(), vec!["work:token"]);
    assert!(s.files.as_ref().unwrap().keys().is_empty());
}

#[test]
fn a_large_token_is_cut_for_the_windows_keyring() {
    let mut s = stores(Some("no"), Some("keyring"), true);
    let token = "a".repeat(6000);
    store_token(&mut s, "work", &token).unwrap();
    assert_eq!(
        s.keyring.keys(),
        vec!["work:token", "work:token:0", "work:token:1", "work:token:2"]
    );
    assert_eq!(s.keyring.get_secret("work:token:0").unwrap().unwrap().len(), 2560);
    assert_eq!(s.keyring.get_secret("work:token:2").unwrap().unwrap().len(), 880);
    assert_eq!(get_token(&mut s, "work").unwrap(), token);
    delete_token(&mut s, "work").unwrap();
    assert!(s.keyring.keys().is_empty());
}

#[test]
fn nothing_is_touched_when_switched_off() {
    let mut s = stores(Some("on"), Some("nonsense"), false);
    s.keyring.set_password("profile-index", "[\"work\"]").unwrap();
    s.keyring.set_password("work:token", "t").unwrap();
    assert_eq!(
        store_token(&mut s, "work", "t").unwrap_err().message(),
        "Keyring is disabled"
    );
    assert_eq!(
        get_token(&mut s, "work").unwrap_err().message(),
        "Keyring is disabled"
    );
    assert!(delete_token(&mut s, "work").is_ok());
    assert!(list_profiles(&mut s).is_empty());
    assert!(add_profile_to_index(&mut s, "home").is_ok());
    assert!(remove_profile_from_index(&mut s, "work").is_ok());
    assert_eq!(s.keyring.keys(), vec!["profile-index", "work:token"]);
    assert_eq!(
        s.keyring.get_password("profile-index").unwrap().unwrap(),
        "[\"work\"]"
    );
}

#[test]
fn no_store_is_an_error() {
    let mut s = stores(None, Some("vault"), false);
    let text = "TEAMS_CLI_TOKEN_STORE=vault is not a token store; use `keyring` (default) or `file`";
    assert_eq!(store_token(&mut s, "work", "t").unwrap_err().message(), text);
    assert_eq!(get_token(&mut s, "work").unwrap_err().message(), text);
    assert_eq!(delete_token(&mut s, "work").unwrap_err().message(), text);
    assert!(list_profiles(&mut s).is_empty());
    assert_eq!(add_profile_to_index(&mut s, "w").unwrap_err().message(), text);
    assert_eq!(remove_profile_from_index(&mut s, "w").unwrap_err().message(), text);

    let mut s = stores(None, Some("file"), false);
    s.files = Err(TeamsError::InvalidInput("no home".to_string()));
    let err = store_token(&mut s, "work", "t").unwrap_err();
    assert!(matches!(err, TeamsError::InvalidInput(_)));
    assert_eq!(err.message(), "no home");
    assert!(s.keyring.keys().is_empty());
}

#[test]
fn profiles_are_listed_once_each() {
    let mut s = stores(None, None, false);
    assert!(list_profiles(&mut s).is_empty());
    add_profile_to_index(&mut s, "work").unwrap();
    add_profile_to_index(&mut s, "ho\"me").unwrap();
    add_profile_to_index(&mut s, "work").unwrap();
    assert_eq!(list_profiles(&mut s), vec!["work", "ho\"me"]);
    assert_eq!(
        s.keyring.get_password("profile-index").unwrap().unwrap(),
        "[\"work\",\"ho\\\"me\"]"
    );
    remove_profile_from_index(&mut s, "work").unwrap();
    assert_eq!(list_profiles(&mut s), vec!["ho\"me"]);
    remove_profile_from_index(&mut s, "absent").unwrap();
    assert_eq!(list_profiles(&mut s), vec!["ho\"me"]);
}

#[test]
fn an_index_that_is_no_list_lists_nothing() {
    let mut s = stores(None, None, false);
    for index in ["", "{}", "[1]", "[\"a\"", "null"] {
        s.keyring.set_password("profile-index", index).unwrap();
        assert!(list_profiles(&mut s).is_empty(), "{index}");
    }
    add_profile_to_index(&mut s, "work").unwrap();
    assert_eq!(list_profiles(&mut s), vec!["work"]);
    assert_eq!(parse_profile_index(" [ \"a\" , \"\\u0062\" ] "), vec!["a", "b"]);
}

#[test]
fn lists_of_profiles() {
    let list = || vec!["a".to_string(), "b".to_string(), "a".to_string()];
    assert_eq!(add_profile(list(), "b"), list());
    assert_eq!(add_profile(list(), "c"), vec!["a", "b", "a", "c"]);
    assert_eq!(remove_profile(list(), "a"), vec!["b"]);
    assert_eq!(remove_profile(list(), "c"), list());
    assert_eq!(remove_profile(add_profile(list(), "c"), "c"), list());
}

/// A store that lets nothing be written.
struct ReadOnly;

impl SecretStore for ReadOnly {
    fn get_password(&mut self, _key: &str) -> Result<Option<String>, TeamsError> {
        Err(TeamsError::KeyringError("locked".to_string()))
    }

    fn set_password(&mut self, _key: &str, _value: &str) -> Result<(), TeamsError> {
        Err(TeamsError::KeyringError("full".to_string()))
    }

    fn get_secret(&mut self, _key: &str) -> Result<Option<Vec<u8>>, TeamsError> {
        Err(TeamsError::KeyringError("locked".to_string()))
    }

    fn set_secret(&mut self, _key: &str, _value: &[u8]) -> Result<(), TeamsError> {
        Err(TeamsError::KeyringError("full".to_string()))
    }

    fn delete(&mut self, _key: &str) -> Result<bool, TeamsError> {
        Err(TeamsError::KeyringError("locked".to_string()))
    }
}

#[test]
fn an_index_that_cannot_be_written_is_an_error() {
    let mut s: TokenStores<ReadOnly, MemoryStore> = TokenStores {
        disable_keyring: None,
        token_store: None,
        windows: false,
        keyring: ReadOnly,
        files: Ok(MemoryStore::new()),
    };
    assert!(list_profiles(&mut s).is_empty());
    assert_eq!(
        add_profile_to_index(&mut s, "work").unwrap_err().message(),
        "Failed to store index: full"
    );
    assert_eq!(
        remove_profile_from_index(&mut s, "work").unwrap_err().message(),
        "Failed to store index: full"
    );
    assert_eq!(store_token(&mut s, "work", "t").unwrap_err().message(), "full");
    assert_eq!(get_token(&mut s, "work").unwrap_err().message(), "locked");
}
