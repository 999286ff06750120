use russus_launcher::assets::{is_app_bundle, pick_platform_asset, pkgname_from_asset, Asset, Platform};

fn asset(name: &str) -> Asset {
    Asset { name: name.to_string(), browser_download_url: format!("https://example.com/{name}") }
}

#[test]
fn pkgname_from_documented_asset() {
    assert_eq!(
        pkgname_from_asset("pdf-accessibility-studio-1.9.0-1-x86_64.pkg.tar.zst"),
        Some("pdf-accessibility-studio".to_string())
    );
}

#[test]
fn pkgname_single_word() {
    assert_eq!(pkgname_from_asset("oxiterm-0.7.1-1-x86_64.pkg.tar.zst"), Some("oxiterm".to_string()));
}

#[test]
fn pkgname_needs_suffix_and_four_fields() {
    assert_eq!(pkgname_from_asset("oxiterm-0.7.1-1-x86_64.tar.gz"), None);
    assert_eq!(pkgname_from_asset("0.7.1-1-x86_64.pkg.tar.zst"), None);
    assert_eq!(pkgname_from_asset("a-b.pkg.tar.zst"), None);
    assert_eq!(pkgname_from_asset(".pkg.tar.zst"), None);
    assert_eq!(pkgname_from_asset("-1-2-3.pkg.tar.zst"), Some("".to_string()));
}

#[test]
fn pkgname_roundtrip_samples() {
    for name in ["a", "pdf-accessibility-studio", "x--y", "ümlaut-app"] {
        let file = format!("{name}-1.2.3-4-x86_64.pkg.tar.zst");
        assert_eq!(pkgname_from_asset(&file), Some(name.to_string()));
    }
}

#[test]
fn linux_picks_first_arch_package() {
    let assets = vec![
        asset("app.dmg"),
        asset("app-1-1-any.pkg.tar.zst"),
        asset("app-1-1-aarch64.pkg.tar.zst"),
        asset("app-1-1-x86_64.pkg.tar.zst"),
        asset("other-1-1-x86_64.pkg.tar.zst"),
    ];
    let a = pick_platform_asset(&assets, Platform::Linux).unwrap();
    assert_eq!(a.name, "app-1-1-x86_64.pkg.tar.zst");
    assert!(pick_platform_asset(&[asset("app.dmg")], Platform::Linux).is_none());
    assert!(pick_platform_asset(&[asset("app-1-1-any.pkg.tar.zst")], Platform::Linux).is_none());
}

#[test]
fn mac_prefers_arch_dmg_then_any_dmg() {
    let assets = vec![asset("app_x64.dmg"), asset("app_aarch64.dmg"), asset("app.pkg.tar.zst")];
    assert_eq!(pick_platform_asset(&assets, Platform::MacAarch64).unwrap().name, "app_aarch64.dmg");
    assert_eq!(pick_platform_asset(&assets, Platform::MacX64).unwrap().name, "app_x64.dmg");
    let plain = vec![asset("notes.txt"), asset("app.dmg")];
    assert_eq!(pick_platform_asset(&plain, Platform::MacAarch64).unwrap().name, "app.dmg");
    assert_eq!(
        pick_platform_asset(&plain, Platform::MacX64).unwrap().browser_download_url,
        "https://example.com/app.dmg"
    );
}

#[test]
fn other_platform_picks_nothing() {
    let assets = vec![asset("app.dmg"), asset("app-1-1-x86_64.pkg.tar.zst")];
    assert!(pick_platform_asset(&assets, Platform::Other).is_none());
}

#[test]
fn app_bundles_in_disk_images() {
    assert!(is_app_bundle("Oxiterm.app"));
    assert!(!is_app_bundle("Applications"));
    assert!(!is_app_bundle(".app.txt"));
}
