use serde_json::Value;
use teams_cli::error::TeamsError;
use teams_cli::memory_store::MemoryStore;
use teams_cli::secret_store::SecretStore;
use teams_cli::settings::{chunk_bytes_for, StoreKind};
use teams_cli::tokens::{
    delete_chunks, delete_token_from, get_token_from, read_chunks, store_chunked, store_token_in,
    stored_chunk_count,
};

fn object(access_token: &str) -> serde_json::Map<String, Value> {
    let mut fields: serde_json::Map<String, Value> = serde_json::Map::new();
    fields.insert("access_token".to_string(), Value::from(access_token));
    fields.insert("expires_at".to_string(), Value::Null);
    fields.insert("token_type".to_string(), Value::from("Bearer"));
    fields.insert("scope".to_string(), Value::from("User.Read"));
    fields.insert("refresh_token".to_string(), Value::from("refresh-0.ARwA"));
    fields.insert("profile".to_string(), Value::from("work"));
    fields
}

fn token(access_token: &str) -> String {
    serde_json::to_string(&object(access_token)).unwrap()
}

fn parsed(json: &str) -> Value {
    serde_json::from_str(json).unwrap()
}

fn load(store: &mut MemoryStore, profile: &str) -> Value {
    parsed(&get_token_from(store, profile).unwrap())
}

#[test]
fn single_entry_round_trip_when_chunking_is_off() {
    let mut store = MemoryStore::new();
    let original = token(&"a".repeat(5000));

    store_token_in(&mut store, "work", &original, None).unwrap();

    assert_eq!(store.keys(), vec!["work:token"]);
    let loaded = load(&mut store, "work");
    assert_eq!(loaded["access_token"], parsed(&original)["access_token"]);
    assert_eq!(loaded["refresh_token"], parsed(&original)["refresh_token"]);
    assert_eq!(get_token_from(&mut store, "work").unwrap(), original);
}

#[test]
fn chunked_round_trip_splits_across_entries() {
    let mut store = MemoryStore::new();
    let original = token(&"a".repeat(200));
    let expected_chunks = original.len().div_ceil(64);
    assert!(expected_chunks > 2);

    store_token_in(&mut store, "work", &original, Some(64)).unwrap();

    let mut expected_keys: Vec<String> = (0..expected_chunks)
        .map(|i| format!("work:token:{i}"))
        .collect();
    expected_keys.push("work:token".to_string());
    expected_keys.sort();
    assert_eq!(store.keys(), expected_keys);
    assert_eq!(
        store.get_password("work:token").unwrap().unwrap(),
        format!("{{\"chunks\":{expected_chunks}}}")
    );

    let loaded = load(&mut store, "work");
    assert_eq!(loaded["access_token"], parsed(&original)["access_token"]);
    assert_eq!(loaded["refresh_token"], parsed(&original)["refresh_token"]);
    assert_eq!(loaded["scope"], parsed(&original)["scope"]);
}

#[test]
fn chunk_size_exactly_dividing_the_payload_adds_no_empty_chunk() {
    let mut store = MemoryStore::new();
    let original = token("x");
    let size = original.len();

    store_token_in(&mut store, "work", &original, Some(size)).unwrap();

    assert_eq!(
        store.get_password("work:token").unwrap().unwrap(),
        "{\"chunks\":1}"
    );
    assert_eq!(store.keys(), vec!["work:token", "work:token:0"]);
    assert_eq!(load(&mut store, "work")["access_token"], "x");
}

#[test]
fn rewriting_a_smaller_token_removes_stale_chunks() {
    let mut store = MemoryStore::new();
    store_token_in(&mut store, "work", &token(&"a".repeat(500)), Some(64)).unwrap();
    let before = store.keys().len();

    store_token_in(&mut store, "work", &token("short"), Some(64)).unwrap();

    let after = store.keys();
    assert!(after.len() < before);
    let expected_chunks = token("short").len().div_ceil(64);
    assert_eq!(after.len(), expected_chunks + 1);
    assert_eq!(load(&mut store, "work")["access_token"], "short");
}

#[test]
fn legacy_single_entry_is_readable() {
    let mut store = MemoryStore::new();
    let original = token("legacy");
    store.set_password("work:token", &original).unwrap();

    assert_eq!(load(&mut store, "work")["access_token"], "legacy");
}

#[test]
fn missing_chunk_reports_incomplete_token() {
    let mut store = MemoryStore::new();
    store_token_in(&mut store, "work", &token(&"a".repeat(300)), Some(64)).unwrap();
    store.delete("work:token:1").unwrap();

    let err = get_token_from(&mut store, "work").unwrap_err();
    let message = err.message();
    assert!(message.contains("incomplete"), "{message}");
    assert!(message.contains("teams auth login"), "{message}");
}

#[test]
fn missing_primary_entry_is_an_error() {
    let mut store = MemoryStore::new();
    assert!(get_token_from(&mut store, "work").is_err());
}

#[test]
fn delete_removes_header_and_every_chunk() {
    let mut store = MemoryStore::new();
    store_token_in(&mut store, "work", &token(&"a".repeat(300)), Some(64)).unwrap();
    store_token_in(&mut store, "other", &token("keep"), Some(64)).unwrap();

    delete_token_from(&mut store, "work", true).unwrap();

    assert!(store.keys()
        .iter()
        .all(|key| key.starts_with("other:token")));
    assert_eq!(load(&mut store, "other")["access_token"], "keep");
}

#[test]
fn delete_sweeps_chunks_even_without_a_header() {
    let mut store = MemoryStore::new();
    store_token_in(&mut store, "work", &token(&"a".repeat(300)), Some(64)).unwrap();
    store.delete("work:token").unwrap();

    delete_token_from(&mut store, "work", true).unwrap();

    assert!(store.keys().is_empty());
}

#[test]
fn delete_without_chunking_touches_only_the_primary_entry() {
    let mut store = MemoryStore::new();
    store_token_in(&mut store, "work", &token("single"), None).unwrap();
    store.set_secret("work:token:0", b"unrelated").unwrap();

    delete_token_from(&mut store, "work", false).unwrap();

    assert_eq!(store.keys(), vec!["work:token:0"]);
}

#[test]
fn delete_attempts_every_recorded_chunk_despite_a_gap() {
    let mut store = MemoryStore::new();
    store_token_in(&mut store, "work", &token(&"a".repeat(300)), Some(64)).unwrap();
    assert!(store.keys().len() > 3);
    store.delete("work:token:0").unwrap();

    delete_token_from(&mut store, "work", true).unwrap();

    assert!(store.keys().is_empty());
}

#[test]
fn delete_continues_past_a_gap_at_the_last_recorded_index() {
    let mut store = MemoryStore::new();
    store.set_password("work:token", "{\"chunks\":3}").unwrap();
    for index in [0, 1, 3, 4, 5] {
        store
            .set_secret(&format!("work:token:{index}"), b"x")
            .unwrap();
    }

    delete_token_from(&mut store, "work", true).unwrap();

    assert!(store.keys().is_empty(), "{:?}", store.keys());
}

#[test]
fn shrinking_rewrite_removes_recorded_chunks_despite_a_gap() {
    let mut store = MemoryStore::new();
    store_token_in(&mut store, "work", &token(&"a".repeat(500)), Some(64)).unwrap();
    let small_chunks = token("short").len().div_ceil(64);
    store.delete(&format!("work:token:{small_chunks}")).unwrap();

    store_token_in(&mut store, "work", &token("short"), Some(64)).unwrap();

    assert_eq!(store.keys().len(), small_chunks + 1);
}

#[test]
fn multi_byte_characters_survive_splitting_at_arbitrary_byte_offsets() {
    let mut store = MemoryStore::new();
    let mut fields = object("tok");
    fields.insert("scope".to_string(), Value::from("Ünïcödé ✓ 日本語"));
    fields.insert("profile".to_string(), Value::from("ñ"));
    let original = serde_json::to_string(&fields).unwrap();

    for size in 1..=5 {
        store_token_in(&mut store, "work", &original, Some(size)).unwrap();
        let loaded = load(&mut store, "work");
        assert_eq!(loaded["scope"], fields["scope"], "chunk size {size}");
        assert_eq!(loaded["profile"], fields["profile"], "chunk size {size}");
    }
}

#[test]
fn file_entries_are_not_chunked() {
    let mut store = MemoryStore::new();
    let original = token(&"a".repeat(5000));
    let limit = chunk_bytes_for(StoreKind::File, true);

    store_token_in(&mut store, "work", &original, limit).unwrap();

    assert_eq!(store.keys(), vec!["work:token"]);
    delete_token_from(&mut store, "work", false).unwrap();
    assert!(get_token_from(&mut store, "work").is_err());
    assert!(!store.delete("work:token").unwrap());
}

#[test]
fn errors_say_what_is_wrong() {
    let mut store = MemoryStore::new();
    assert_eq!(
        get_token_from(&mut store, "work").unwrap_err().message(),
        "Failed to retrieve token: no stored token for profile `work`"
    );
    store.set_password("work:token", "{\"chunks\":12}").unwrap();
    store.set_secret("work:token:0", b"ab").unwrap();
    assert_eq!(
        get_token_from(&mut store, "work").unwrap_err().message(),
        "Stored token is incomplete (chunk 1 of 12 is missing). Run `teams auth login` again."
    );
    store.set_password("work:token", "{\"chunks\":1}").unwrap();
    store.set_secret("work:token:0", &[0x61, 0xff]).unwrap();
    assert_eq!(
        get_token_from(&mut store, "work").unwrap_err().message(),
        "Stored token is not valid UTF-8: invalid utf-8 sequence of 1 bytes from index 1"
    );
}

#[test]
fn a_header_may_count_no_chunks() {
    let mut store = MemoryStore::new();
    store_token_in(&mut store, "work", "", Some(8)).unwrap();
    assert_eq!(
        store.get_password("work:token").unwrap().unwrap(),
        "{\"chunks\":0}"
    );
    assert_eq!(get_token_from(&mut store, "work").unwrap(), "");
}

#[test]
fn a_completed_write_repairs_an_interrupted_one() {
    let mut store = MemoryStore::new();
    store.set_password("work:token", "{\"chunks\":7}").unwrap();
    for index in [0, 2, 6, 7, 8] {
        store
            .set_secret(&format!("work:token:{index}"), &[0xff, 0xfe])
            .unwrap();
    }
    store_chunked(&mut store, "work", b"abcde", 2).unwrap();
    assert_eq!(get_token_from(&mut store, "work").unwrap(), "abcde");
    assert_eq!(
        store.keys(),
        vec!["work:token", "work:token:0", "work:token:1", "work:token:2"]
    );
    assert_eq!(stored_chunk_count(&mut store, "work").unwrap(), 3);
    assert_eq!(
        store.get_secret("work:token:2").unwrap(),
        Some(b"e".to_vec())
    );
}

#[test]
fn a_single_entry_counts_no_chunks() {
    let mut store = MemoryStore::new();
    assert_eq!(stored_chunk_count(&mut store, "work").unwrap(), 0);
    store_token_in(&mut store, "work", &token("t"), None).unwrap();
    assert_eq!(stored_chunk_count(&mut store, "work").unwrap(), 0);
}

#[test]
fn sweep_starts_where_it_is_told() {
    let mut store = MemoryStore::new();
    for index in 0..5 {
        store
            .set_secret(&format!("work:token:{index}"), b"x")
            .unwrap();
    }
    delete_chunks(&mut store, "work", 2, 0).unwrap();
    assert_eq!(store.keys(), vec!["work:token:0", "work:token:1"]);
    assert_eq!(read_chunks(&mut store, "work", 2).unwrap(), "xx");
}

/// A store that fails at one of its calls.
struct FailingStore {
    inner: MemoryStore,
    calls: usize,
    fails_at: usize,
}

impl FailingStore {
    fn new(inner: MemoryStore, fails_at: usize) -> FailingStore {
        FailingStore {
            inner,
            calls: 0,
            fails_at,
        }
    }

    fn check(&mut self) -> Result<(), TeamsError> {
        self.calls += 1;
        if self.calls > self.fails_at {
            return Err(TeamsError::KeyringError(format!("call {}", self.calls)));
        }
        Ok(())
    }
}

impl SecretStore for FailingStore {
    fn get_password(&mut self, key: &str) -> Result<Option<String>, TeamsError> {
        self.check()?;
        self.inner.get_password(key)
    }

    fn set_password(&mut self, key: &str, value: &str) -> Result<(), TeamsError> {
        self.check()?;
        self.inner.set_password(key, value)
    }

    fn get_secret(&mut self, key: &str) -> Result<Option<Vec<u8>>, TeamsError> {
        self.check()?;
        self.inner.get_secret(key)
    }

    fn set_secret(&mut self, key: &str, value: &[u8]) -> Result<(), TeamsError> {
        self.check()?;
        self.inner.set_secret(key, value)
    }

    fn delete(&mut self, key: &str) -> Result<bool, TeamsError> {
        self.check()?;
        self.inner.delete(key)
    }
}

#[test]
fn the_first_failure_ends_an_operation() {
    // One look, three chunks, the header, one call of the sweep.
    for fails_at in 0..6 {
        let mut store = FailingStore::new(MemoryStore::new(), fails_at);
        let err = store_token_in(&mut store, "work", "abcde", Some(2)).unwrap_err();
        assert_eq!(err.message(), format!("call {}", fails_at + 1));
        assert_eq!(store.calls, fails_at + 1);
        // The header is published after the chunks.
        let published = store.inner.get_password("work:token").unwrap().is_some();
        assert_eq!(published, fails_at > 4);
    }
    let mut store = FailingStore::new(MemoryStore::new(), 6);
    assert!(store_token_in(&mut store, "work", "abcde", Some(2)).is_ok());
    // The header is the last to go.
    for fails_at in 0..6 {
        let mut inner = MemoryStore::new();
        store_token_in(&mut inner, "work", "abcde", Some(2)).unwrap();
        let mut store = FailingStore::new(inner, fails_at);
        let err = delete_token_from(&mut store, "work", true).unwrap_err();
        assert_eq!(err.message(), format!("call {}", fails_at + 1));
        assert!(store.inner.get_password("work:token").unwrap().is_some());
    }
    for fails_at in 0..4 {
        let mut inner = MemoryStore::new();
        store_token_in(&mut inner, "work", "abcde", Some(2)).unwrap();
        let mut store = FailingStore::new(inner, fails_at);
        let err = get_token_from(&mut store, "work").unwrap_err();
        assert_eq!(err.message(), format!("call {}", fails_at + 1));
    }
}

#[test]
fn a_memory_store_gives_back_what_it_was_given() {
    let mut store = MemoryStore::new();
    assert_eq!(store.get_secret("k").unwrap(), None);
    assert_eq!(store.get_password("k").unwrap(), None);
    store.set_secret("k", b"one").unwrap();
    store.set_password("l", "ü").unwrap();
    store.set_secret("k", b"two").unwrap();
    assert_eq!(store.get_secret("k").unwrap(), Some(b"two".to_vec()));
    assert_eq!(store.get_password("k").unwrap(), Some("two".to_string()));
    assert_eq!(store.get_secret("l").unwrap(), Some(vec![0xc3, 0xbc]));
    assert_eq!(store.keys(), vec!["k", "l"]);
    store.set_secret("k", &[0xff]).unwrap();
    assert_eq!(
        store.get_password("k").unwrap_err().message(),
        "Failed to retrieve token: invalid utf-8 sequence of 1 bytes from index 0"
    );
    assert!(store.delete("k").unwrap());
    assert!(!store.delete("k").unwrap());
    assert_eq!(store.keys(), vec!["l"]);
}

#[test]
fn a_write_cut_short_leaves_nothing_that_the_next_one_does_not_sweep() {
    let small = "abcde";
    let large = "a".repeat(20);
    // Every point before the header of the larger token is published.
    for fails_at in 0..12 {
        let mut inner = MemoryStore::new();
        store_token_in(&mut inner, "work", small, Some(2)).unwrap();
        let mut store = FailingStore::new(inner, fails_at);
        assert!(store_token_in(&mut store, "work", &large, Some(2)).is_err());
        assert_eq!(
            store.inner.get_password("work:token").unwrap().unwrap(),
            "{\"chunks\":3}"
        );

        let mut rewritten = store.inner;
        store_token_in(&mut rewritten, "work", "xy", Some(2)).unwrap();
        assert_eq!(rewritten.keys(), vec!["work:token", "work:token:0"]);
        assert_eq!(get_token_from(&mut rewritten, "work").unwrap(), "xy");
    }
}

#[test]
fn a_delete_cut_short_can_be_retried() {
    // One look, five chunks, one index past them, the header.
    for fails_at in 0..8 {
        let mut inner = MemoryStore::new();
        store_token_in(&mut inner, "work", &"a".repeat(10), Some(2)).unwrap();
        inner.delete("work:token:3").unwrap();
        let mut store = FailingStore::new(inner, fails_at);
        assert!(delete_token_from(&mut store, "work", true).is_err());

        let mut retried = store.inner;
        delete_token_from(&mut retried, "work", true).unwrap();
        assert!(retried.keys().is_empty());
    }
}

fn with_entries(entries: &[(&str, &[u8])]) -> MemoryStore {
    let mut store = MemoryStore::new();
    for (key, value) in entries {
        store.set_secret(key, value).unwrap();
    }
    store
}

#[test]
fn a_character_cut_in_two_is_joined_and_later_chunks_are_ignored() {
    let mut store = with_entries(&[
        ("work:token:0", &[0x78, 0xc3]),
        ("work:token:1", &[0xa9]),
        ("work:token:2", &[0xff]),
    ]);
    assert_eq!(read_chunks(&mut store, "work", 2).unwrap(), "x\u{e9}");
    assert_eq!(read_chunks(&mut store, "work", 0).unwrap(), "");
}

#[test]
fn the_least_missing_chunk_is_named() {
    let mut store = with_entries(&[("work:token:0", b"a"), ("work:token:3", b"d")]);
    assert_eq!(
        read_chunks(&mut store, "work", 4).unwrap_err().message(),
        "Stored token is incomplete (chunk 1 of 4 is missing). Run `teams auth login` again."
    );
}

#[test]
fn chunks_are_consecutive_bytes_under_their_keys() {
    let mut store = MemoryStore::new();
    store_chunked(&mut store, "work", &[0xff, 0, 1, 2, 0xfe], 2).unwrap();
    assert_eq!(store.get_secret("work:token:0").unwrap(), Some(vec![0xff, 0]));
    assert_eq!(store.get_secret("work:token:1").unwrap(), Some(vec![1, 2]));
    assert_eq!(store.get_secret("work:token:2").unwrap(), Some(vec![0xfe]));
    assert_eq!(
        store.get_password("work:token").unwrap().unwrap(),
        "{\"chunks\":3}"
    );
    assert_eq!(store.keys().len(), 4);
}

#[test]
fn a_rewrite_sweeps_past_a_lost_chunk() {
    let mut store = with_entries(&[
        ("work:token", b"{\"chunks\":4}"),
        ("work:token:0", b"a"),
        ("work:token:1", b"b"),
        ("work:token:3", b"d"),
    ]);
    store_chunked(&mut store, "work", b"xy", 2).unwrap();
    assert_eq!(store.keys(), vec!["work:token", "work:token:0"]);
    assert_eq!(get_token_from(&mut store, "work").unwrap(), "xy");
}

#[test]
fn a_sweep_ends_at_the_first_gap_past_the_recorded_count() {
    let mut store = with_entries(&[
        ("work:token:0", b"a"),
        ("work:token:1", b"b"),
        ("work:token:3", b"d"),
    ]);
    let mut counted = FailingStore::new(store, usize::MAX);
    delete_chunks(&mut counted, "work", 1, 0).unwrap();
    assert_eq!(counted.calls, 2);
    store = counted.inner;
    assert_eq!(store.keys(), vec!["work:token:0", "work:token:3"]);
    store.recall();
}

#[test]
fn keys_are_listed_in_order() {
    let mut store = with_entries(&[("b", b"1"), ("a", b"2"), ("ab", b"3"), ("\u{e9}", b"4"), ("Z", b"5")]);
    store.set_secret("a", b"6").unwrap();
    store.delete("b").unwrap();
    store.set_password("c", "7").unwrap();
    assert_eq!(store.keys(), vec!["Z", "a", "ab", "c", "\u{e9}"]);
    assert_eq!(store.get_secret("a").unwrap(), Some(b"6".to_vec()));
    assert_eq!(store.get_secret("ab").unwrap(), Some(b"3".to_vec()));
}

#[test]
fn a_failing_operation_leaves_other_profiles_alone() {
    for fails_at in 0..6 {
        let mut inner = with_entries(&[("other:token", b"t"), ("profile-index", b"[]")]);
        store_token_in(&mut inner, "work", "abcde", Some(2)).unwrap();
        let mut store = FailingStore::new(inner, fails_at);
        assert!(delete_token_from(&mut store, "work", true).is_err());
        let mut store = FailingStore::new(store.inner, fails_at.min(1));
        assert!(store_token_in(&mut store, "work", "xyz", Some(2)).is_err());
        assert_eq!(store.inner.get_secret("other:token").unwrap(), Some(b"t".to_vec()));
        assert_eq!(store.inner.get_secret("profile-index").unwrap(), Some(b"[]".to_vec()));
    }
}
