use customs_core::{ConfigStore, CustomsConfig, FileStamp, StoreAction};

const SECOND: u64 = 1_000_000_000;

fn key() -> Vec<String> {
    vec!["/".to_string(), "p".to_string(), "pyproject.toml".to_string()]
}

fn stamp(t: i128, len: u64) -> Option<FileStamp> {
    Some(FileStamp { modified_nanos: t, len })
}

fn config_ignoring(x: &str) -> CustomsConfig {
    CustomsConfig { ignore: vec![x.to_string()], ..CustomsConfig::default() }
}

#[test]
fn config_store_skips_reread_within_one_second() {
    let mut store = ConfigStore::new();
    let k = key();
    assert_eq!(store.begin(&k, 0), StoreAction::ReadStamp);
    assert_eq!(store.after_stamp(&k, 0, stamp(5, 10)), StoreAction::ReadFile);
    store.after_read(&k, 0, stamp(5, 10), Some(Ok(config_ignoring("a"))));
    // Within the second: answered from the store, whatever the file now says.
    assert_eq!(store.begin(&k, SECOND - 1), StoreAction::UseCached);
    let cached = store.cached(&k).unwrap().clone().unwrap().unwrap();
    assert_eq!(cached.ignore, vec!["a"]);
}

#[test]
fn config_store_rereads_after_rate_limit() {
    let mut store = ConfigStore::new();
    let k = key();
    store.after_read(&k, 0, stamp(5, 10), Some(Ok(config_ignoring("a"))));
    assert_eq!(store.begin(&k, SECOND), StoreAction::ReadStamp);
    // Unchanged stamp: the cached answer stands and counts as looked at now.
    assert_eq!(store.after_stamp(&k, SECOND, stamp(5, 10)), StoreAction::UseCached);
    assert_eq!(store.begin(&k, 2 * SECOND - 1), StoreAction::UseCached);
    // Changed stamp: read again.
    assert_eq!(store.begin(&k, 3 * SECOND), StoreAction::ReadStamp);
    assert_eq!(store.after_stamp(&k, 3 * SECOND, stamp(6, 10)), StoreAction::ReadFile);
    store.after_read(&k, 3 * SECOND, stamp(6, 10), Some(Ok(config_ignoring("b"))));
    let cached = store.cached(&k).unwrap().clone().unwrap().unwrap();
    assert_eq!(cached.ignore, vec!["b"]);
}

#[test]
fn store_remembers_a_missing_file() {
    let mut store = ConfigStore::new();
    let k = key();
    assert!(store.cached(&k).is_none());
    assert_eq!(store.after_stamp(&k, 7, None), StoreAction::UseCached);
    assert_eq!(store.cached(&k), Some(&None));
    assert_eq!(store.begin(&k, 8), StoreAction::UseCached);
    // A clock that went back counts as no time passing.
    assert_eq!(store.begin(&k, 0), StoreAction::UseCached);
}

#[test]
fn store_keeps_files_apart() {
    let mut store = ConfigStore::new();
    let a = key();
    let b = vec!["/".to_string(), "q".to_string(), "pyproject.toml".to_string()];
    store.after_read(&a, 0, stamp(1, 1), Some(Err("bad".to_string())));
    assert_eq!(store.begin(&b, 0), StoreAction::ReadStamp);
    assert_eq!(store.cached(&a), Some(&Some(Err("bad".to_string()))));
    assert!(store.cached(&b).is_none());
}
