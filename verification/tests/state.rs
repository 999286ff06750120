use russus_launcher::state::{Persisted, Settings, StringMap};

#[test]
fn default_settings() {
    let s = Settings::default();
    assert_eq!(s.username, "russus87");
    assert_eq!(s.auto_check_minutes, 60);
    let p = Persisted::default();
    assert_eq!(p.settings.username, "russus87");
    assert!(p.known_repos.is_empty());
    assert!(p.installed.get(&"x".to_string()).is_none());
    assert!(p.notified.to_pairs().is_empty());
}

#[test]
fn string_map_read_after_write() {
    let mut m = StringMap::new();
    let k = "oxiterm".to_string();
    assert_eq!(m.get(&k), None);
    m.insert(k.clone(), "0.7.1".to_string());
    assert_eq!(m.get(&k), Some("0.7.1".to_string()));
    m.insert(k.clone(), "0.8.0".to_string());
    assert_eq!(m.get(&k), Some("0.8.0".to_string()));
    assert_eq!(m.to_pairs().len(), 1);
    m.insert("oops".to_string(), "1".to_string());
    m.remove(&k);
    assert_eq!(m.get(&k), None);
    assert_eq!(m.get(&"oops".to_string()), Some("1".to_string()));
}

#[test]
fn string_map_later_pair_wins() {
    let m = StringMap::from_pairs(vec![
        ("a".to_string(), "1".to_string()),
        ("b".to_string(), "2".to_string()),
        ("a".to_string(), "3".to_string()),
    ]);
    assert_eq!(m.get(&"a".to_string()), Some("3".to_string()));
    assert_eq!(m.get(&"b".to_string()), Some("2".to_string()));
    let mut m2 = m;
    m2.remove(&"a".to_string());
    assert_eq!(m2.get(&"a".to_string()), None);
}
