use russus_launcher::apps::{make_entry, AppEntry};
use russus_launcher::github::{ReleaseInfo, RepoMeta};
use russus_launcher::notify::{notification_body, plan_notifications};
use russus_launcher::state::StringMap;

fn entry(name: &str, tag: &str, installed: Option<&str>, known: &[&str]) -> AppEntry {
    let repo = RepoMeta { name: name.to_string(), description: String::new(), html_url: String::new() };
    let rel = ReleaseInfo {
        tag: tag.to_string(),
        published_at: None,
        asset_url: Some("u".to_string()),
        asset_name: Some("a".to_string()),
    };
    let known: Vec<String> = known.iter().map(|s| s.to_string()).collect();
    make_entry("me", &repo, &rel, installed.map(|s| s.to_string()), &known)
}

#[test]
fn body_texts() {
    assert_eq!(notification_body(0, 0), None);
    assert_eq!(notification_body(2, 0).as_deref(), Some("2 nuovo/i progetto/i"));
    assert_eq!(notification_body(0, 1).as_deref(), Some("1 aggiornamento/i"));
    assert_eq!(notification_body(1, 3).as_deref(), Some("1 nuovo/i progetto/i · 3 aggiornamento/i"));
}

#[test]
fn notifies_each_version_once() {
    let entries = vec![
        entry("fresh", "1.0", None, &["old"]),
        entry("old", "2.0", Some("1.0"), &["old"]),
        entry("same", "1.0", Some("1.0"), &["old", "same"]),
    ];
    assert!(entries[0].is_new);
    assert_eq!(entries[1].status, "update_available");
    let mut notified = StringMap::new();
    let first = plan_notifications(&entries, &mut notified);
    assert_eq!((first.new_count, first.update_count, first.changed), (1, 1, true));
    assert_eq!(notified.get(&"old".to_string()).as_deref(), Some("2.0"));
    assert_eq!(notified.get(&"fresh".to_string()).as_deref(), Some("1.0"));
    assert!(notified.get(&"same".to_string()).is_none());
    let again = plan_notifications(&entries, &mut notified);
    assert_eq!((again.new_count, again.update_count, again.changed), (0, 0, false));
    let newer = vec![entry("old", "3.0", Some("1.0"), &["old"])];
    let third = plan_notifications(&newer, &mut notified);
    assert_eq!((third.new_count, third.update_count, third.changed), (0, 1, true));
    assert_eq!(notified.get(&"old".to_string()).as_deref(), Some("3.0"));
}
