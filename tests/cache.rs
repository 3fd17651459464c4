use spamclassifier::cache::Cache;

const ABC_DIGEST: &str = "BA7816BF8F01CFEA414140DE5DAE2223B00361A396177A9CB410FF61F20015AD";

#[test]
fn put_then_get_returns_scores() {
    let mut c: Cache<(f64, f64)> = Cache::new();
    let m = "Win money now".to_string();
    c.add_to_cache(&m, (0.75, 0.25));
    assert_eq!(c.get_from_cache(&m), Some((0.75, 0.25)));
    c.add_to_cache(&m, (0.5, 1.5));
    assert_eq!(c.get_from_cache(&m), Some((0.5, 1.5)));
    assert_eq!(c.entries().len(), 1);
}

#[test]
fn get_of_unseen_message_is_none() {
    let mut c: Cache<(f64, f64)> = Cache::new();
    assert_eq!(c.get_from_cache(&"hello".to_string()), None);
    c.add_to_cache(&"hello".to_string(), (1.0, 2.0));
    assert_eq!(c.get_from_cache(&"hello!".to_string()), None);
}

#[test]
fn key_is_upper_hex_sha256() {
    let mut c: Cache<(f64, f64)> = Cache::new();
    c.add_to_cache(&"abc".to_string(), (1.0, 2.0));
    let e = c.entries();
    assert_eq!(e.len(), 1);
    assert_eq!(e[0].0, ABC_DIGEST);
    assert_eq!(c.get_hashed(&ABC_DIGEST.to_string()), Some((1.0, 2.0)));
}

#[test]
fn reload_from_entries_keeps_scores() {
    let mut c: Cache<(f64, f64)> = Cache::new();
    c.add_to_cache(&"one".to_string(), (1.0, 2.0));
    c.add_to_cache(&"two".to_string(), (3.0, 4.0));
    let reloaded = Cache::from_entries(c.entries());
    assert_eq!(reloaded.get_from_cache(&"one".to_string()), Some((1.0, 2.0)));
    assert_eq!(reloaded.get_from_cache(&"two".to_string()), Some((3.0, 4.0)));
    assert_eq!(reloaded.get_from_cache(&"three".to_string()), None);
}

#[test]
fn later_entry_wins_on_load() {
    let e = vec![("K".to_string(), (1.0, 1.0)), ("K".to_string(), (2.0, 3.0))];
    let c = Cache::from_entries(e);
    assert_eq!(c.get_hashed(&"K".to_string()), Some((2.0, 3.0)));
    assert_eq!(c.entries().len(), 1);
}
