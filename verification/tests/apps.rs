use russus_launcher::apps::{
    app_status, assemble_entries, forget_install, install_target, installed_source, join_capitalized,
    launch_target, make_entry, plan_apps,
    merge_known, prettify, record_install, uninstall_target, AppEntry, Cache,
    InstalledSource,
};
use russus_launcher::assets::Platform;
use russus_launcher::github::{ReleaseInfo, RepoMeta};
use russus_launcher::state::StringMap;

fn meta(name: &str) -> RepoMeta {
    RepoMeta {
        name: name.to_string(),
        description: format!("about {name}"),
        html_url: format!("https://github.com/russus87/{name}"),
    }
}

fn info(tag: &str, asset: Option<&str>) -> ReleaseInfo {
    ReleaseInfo {
        tag: tag.to_string(),
        published_at: Some("2024-05-01T10:00:00Z".to_string()),
        asset_url: asset.map(|a| format!("https://dl/{a}")),
        asset_name: asset.map(|a| a.to_string()),
    }
}

fn entry(name: &str, asset: Option<&str>) -> AppEntry {
    make_entry("russus87", &meta(name), &info("v1.2.0", asset), None, &vec![])
}

#[test]
fn prettify_words() {
    assert_eq!(prettify("oxiterm"), "Oxiterm");
    assert_eq!(prettify("pdf-accessibility-studio"), "Pdf Accessibility Studio");
    assert_eq!(prettify("a--b"), "A  B");
    assert_eq!(prettify(""), "");
    assert_eq!(prettify("-x-"), " X ");
    assert_eq!(prettify("élan-ßig"), "Élan SSig");
}

#[test]
fn prettify_slug_roundtrip_samples() {
    for name in ["oxiterm", "pdf-accessibility-studio", "a1-b2", "x--y", "-lead", "trail-", "", "3d"] {
        let r = prettify(name);
        assert!(!r.contains('-'));
        assert_eq!(r.split(' ').count(), name.split('-').count());
        assert_eq!(r.replace(' ', "-").to_ascii_lowercase(), name);
    }
}

#[test]
fn status_values() {
    let latest = "1.2.0".to_string();
    assert_eq!(app_status(false, &Some("1.0".to_string()), &latest), "unsupported");
    assert_eq!(app_status(true, &None, &latest), "not_installed");
    assert_eq!(app_status(true, &Some("1.1.9".to_string()), &latest), "update_available");
    assert_eq!(app_status(true, &Some("1.2".to_string()), &latest), "installed");
    assert_eq!(app_status(true, &Some("1.3".to_string()), &latest), "installed");
}

#[test]
fn entry_fields() {
    let known = vec!["charon".to_string()];
    let e = make_entry(
        "russus87",
        &meta("pdf-studio"),
        &info("v1.2.0-1", Some("pdf-studio-1.2.0-1-x86_64.pkg.tar.zst")),
        Some("1.1.0".to_string()),
        &known,
    );
    assert_eq!(e.name, "pdf-studio");
    assert_eq!(e.display_name, "Pdf Studio");
    assert_eq!(e.description, "about pdf-studio");
    assert_eq!(e.full_name, "russus87/pdf-studio");
    assert_eq!(e.html_url, "https://github.com/russus87/pdf-studio");
    assert_eq!(e.latest_version.as_deref(), Some("1.2.0"));
    assert_eq!(e.installed_version.as_deref(), Some("1.1.0"));
    assert_eq!(e.status, "update_available");
    assert_eq!(e.asset_name.as_deref(), Some("pdf-studio-1.2.0-1-x86_64.pkg.tar.zst"));
    assert_eq!(e.released_at.as_deref(), Some("2024-05-01T10:00:00Z"));
    assert!(e.is_new);
}

#[test]
fn first_run_flags_nothing_new() {
    let e = make_entry("u", &meta("oxiterm"), &info("1.0", None), None, &vec![]);
    assert!(!e.is_new);
    assert_eq!(e.status, "unsupported");
    let known = vec!["oxiterm".to_string()];
    let e2 = make_entry("u", &meta("oxiterm"), &info("1.0", None), None, &known);
    assert!(!e2.is_new);
}

#[test]
fn installed_source_per_platform() {
    let mut rec = StringMap::new();
    rec.insert("oops".to_string(), "0.3.0".to_string());
    let with_pkg = info("1.0", Some("oops-1.0-1-x86_64.pkg.tar.zst"));
    match installed_source(Platform::Linux, &meta("oops"), &with_pkg, &rec) {
        InstalledSource::Pacman(p) => assert_eq!(p, "oops"),
        _ => panic!("expected a pacman query"),
    }
    match installed_source(Platform::Linux, &meta("oops"), &info("1.0", Some("oops.dmg")), &rec) {
        InstalledSource::Known(v) => assert!(v.is_none()),
        _ => panic!("expected nothing"),
    }
    match installed_source(Platform::MacAarch64, &meta("oops"), &info("1.0", Some("oops.dmg")), &rec) {
        InstalledSource::Known(v) => assert_eq!(v.as_deref(), Some("0.3.0")),
        _ => panic!("expected the recorded version"),
    }
    match installed_source(Platform::MacAarch64, &meta("oops"), &info("1.0", None), &rec) {
        InstalledSource::Known(v) => assert!(v.is_none()),
        _ => panic!("expected nothing"),
    }
}

#[test]
fn app_list_is_the_repos_with_a_release_in_order() {
    let repos = vec![meta("a"), meta("b"), meta("c"), meta("d")];
    let rels = vec![
        Ok(Some(info("v1.0", Some("a-1.0-1-x86_64.pkg.tar.zst")))),
        Ok(None),
        Err("rate limited".to_string()),
        Ok(Some(info("2.0", None))),
    ];
    let rec = StringMap::new();
    let cands = plan_apps(Platform::Linux, &repos, &rels, &rec);
    assert_eq!(cands.iter().map(|c| c.repo).collect::<Vec<_>>(), vec![0, 3]);
    assert!(matches!(&cands[0].source, InstalledSource::Pacman(p) if p == "a"));
    assert!(matches!(&cands[1].source, InstalledSource::Known(None)));
    let versions = vec![Some("0.9".to_string()), None];
    let entries = assemble_entries("me", &repos, &cands, &versions, &vec!["a".to_string()]);
    assert_eq!(entries.len(), 2);
    assert_eq!(entries[0].name, "a");
    assert_eq!(entries[0].status, "update_available");
    assert!(!entries[0].is_new);
    assert_eq!(entries[1].name, "d");
    assert_eq!(entries[1].status, "unsupported");
    assert!(entries[1].is_new);
}

#[test]
fn join_capitalized_uses_given_uppers() {
    let ups: Vec<String> = vec!["P".into(), "A".into(), "S".into()];
    assert_eq!(join_capitalized("pdf-accessibility-studio", &ups), "Pdf Accessibility Studio");
    let ups2: Vec<String> = vec!["M".into(), "A".into()];
    assert_eq!(join_capitalized("my-APP", &ups2), "My APP");
    let ups3: Vec<String> = vec!["".into(), "X".into(), "".into()];
    assert_eq!(join_capitalized("-x-", &ups3), " X ");
    assert_eq!(prettify("my-APP"), "My APP");
}

#[test]
fn merge_known_keeps_everything_once() {
    let entries = vec![entry("b", None), entry("a", None)];
    let known = vec!["a".to_string(), "c".to_string(), "c".to_string(), "d".to_string()];
    assert_eq!(merge_known(&entries, &known), vec!["b", "a", "c", "d"]);
    assert_eq!(merge_known(&vec![], &vec![]), Vec::<String>::new());
}

#[test]
fn cache_lookup_and_install_targets() {
    let mut cache = Cache::new();
    assert_eq!(install_target(&cache, &"x".to_string()).err().unwrap(), "App sconosciuta");
    cache.refresh(&vec![
        entry("oxiterm", Some("oxiterm-0.7.1-1-x86_64.pkg.tar.zst")),
        entry("charon", None),
        entry("pdf-studio", Some("Pdf Studio_1.2.0_aarch64.dmg")),
    ]);
    assert_eq!(cache.get(&"charon".to_string()).unwrap().name, "charon");
    assert!(cache.get(&"nope".to_string()).is_none());
    let t = install_target(&cache, &"oxiterm".to_string()).ok().unwrap();
    assert_eq!(t.url, "https://dl/oxiterm-0.7.1-1-x86_64.pkg.tar.zst");
    assert_eq!(t.asset, "oxiterm-0.7.1-1-x86_64.pkg.tar.zst");
    assert_eq!(t.latest_version.as_deref(), Some("1.2.0"));
    assert_eq!(
        install_target(&cache, &"charon".to_string()).err().unwrap(),
        "Nessun pacchetto disponibile per questa piattaforma"
    );
    assert_eq!(uninstall_target(&cache, &"oxiterm".to_string(), Platform::Linux), Ok("oxiterm".to_string()));
    assert_eq!(
        uninstall_target(&cache, &"charon".to_string(), Platform::Linux),
        Err("Impossibile determinare il pacchetto".to_string())
    );
    assert_eq!(
        uninstall_target(&cache, &"pdf-studio".to_string(), Platform::MacAarch64),
        Ok("Pdf Studio".to_string())
    );
    assert_eq!(uninstall_target(&cache, &"zzz".to_string(), Platform::Linux), Err("App sconosciuta".to_string()));
    assert_eq!(launch_target(&cache, &"oxiterm".to_string(), Platform::Linux), Ok("oxiterm".to_string()));
    assert_eq!(launch_target(&cache, &"charon".to_string(), Platform::Linux), Ok("charon".to_string()));
    assert_eq!(launch_target(&cache, &"charon".to_string(), Platform::MacX64), Ok("Charon".to_string()));
    assert_eq!(launch_target(&cache, &"zzz".to_string(), Platform::MacX64), Err("App sconosciuta".to_string()));
}

#[test]
fn cache_later_entry_wins() {
    let mut cache = Cache::new();
    let mut second = entry("oxiterm", None);
    second.description = "second".to_string();
    cache.refresh(&vec![entry("oxiterm", None), second]);
    assert_eq!(cache.get(&"oxiterm".to_string()).unwrap().description, "second");
    cache.refresh(&vec![]);
    assert!(cache.get(&"oxiterm".to_string()).is_none());
}

#[test]
fn installs_are_recorded_off_linux_only() {
    let mut m = StringMap::new();
    let name = "oops".to_string();
    record_install(&mut m, Platform::Linux, &name, &Some("1.0".to_string()));
    assert!(m.get(&name).is_none());
    record_install(&mut m, Platform::MacX64, &name, &None);
    assert!(m.get(&name).is_none());
    record_install(&mut m, Platform::MacX64, &name, &Some("1.0".to_string()));
    assert_eq!(m.get(&name).as_deref(), Some("1.0"));
    forget_install(&mut m, Platform::Linux, &name);
    assert_eq!(m.get(&name).as_deref(), Some("1.0"));
    forget_install(&mut m, Platform::MacX64, &name);
    assert!(m.get(&name).is_none());
}
