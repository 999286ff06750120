use russus_launcher::assets::{Asset, Platform};
use russus_launcher::github::{
    is_success_status, keep_repo, latest_release_info, releases_reply_kind, releases_url, repo_meta,
    repos_url, ReplyKind, Release, Repo, RepoListing,
};

fn repo(name: &str, fork: bool, archived: bool) -> Repo {
    Repo {
        name: name.to_string(),
        description: None,
        html_url: format!("https://github.com/u/{name}"),
        fork,
        archived,
    }
}

fn release(tag: &str, draft: bool, prerelease: bool, assets: &[&str]) -> Release {
    Release {
        tag_name: tag.to_string(),
        published_at: Some("2024-01-01T00:00:00Z".to_string()),
        assets: assets
            .iter()
            .map(|n| Asset { name: n.to_string(), browser_download_url: format!("https://dl/{n}") })
            .collect(),
        prerelease,
        draft,
    }
}

#[test]
fn urls_are_the_api_addresses() {
    assert_eq!(
        repos_url("russus87", 3),
        "https://api.github.com/users/russus87/repos?per_page=100&page=3&type=owner&sort=updated"
    );
    assert_eq!(
        releases_url("russus87", "oxiterm"),
        "https://api.github.com/repos/russus87/oxiterm/releases?per_page=10"
    );
}

#[test]
fn helper_forks_and_archives_are_not_listed() {
    assert!(keep_repo(&repo("oxiterm", false, false)));
    assert!(!keep_repo(&repo("oxiterm", true, false)));
    assert!(!keep_repo(&repo("oxiterm", false, true)));
    assert!(!keep_repo(&repo("oxiterm-dist", false, false)));
    assert!(!keep_repo(&repo("dotfiles", false, false)));
    assert!(keep_repo(&repo("dotfiles2", false, false)));
    assert!(keep_repo(&repo("dist", false, false)));
}

#[test]
fn repo_meta_defaults_description() {
    let m = repo_meta(&repo("charon", false, false));
    assert_eq!(m.name, "charon");
    assert_eq!(m.description, "");
    assert_eq!(m.html_url, "https://github.com/u/charon");
    let mut r = repo("oops", false, false);
    r.description = Some("An app".to_string());
    assert_eq!(repo_meta(&r).description, "An app");
}

#[test]
fn listing_stops_on_short_page() {
    let mut l = RepoListing::new();
    assert_eq!(l.next_page(), Some(1));
    assert_eq!(l.page_url("me"), repos_url("me", 1));
    let full: Vec<Repo> = (0..100).map(|i| repo(&format!("r{i}"), i % 2 == 0, false)).collect();
    l.accept_page(full);
    assert_eq!(l.repos.len(), 50);
    assert_eq!(l.next_page(), Some(2));
    l.accept_page(vec![repo("last", false, false), repo("x-dist", false, false)]);
    assert_eq!(l.next_page(), None);
    assert_eq!(l.repos.len(), 51);
    assert_eq!(l.repos[50].name, "last");
}

#[test]
fn listing_asks_at_most_five_pages() {
    let mut l = RepoListing::new();
    let mut asked = 0;
    while let Some(_) = l.next_page() {
        asked += 1;
        let full: Vec<Repo> = (0..100).map(|i| repo(&format!("p{asked}r{i}"), false, false)).collect();
        l.accept_page(full);
    }
    assert_eq!(asked, 5);
    assert_eq!(l.repos.len(), 500);
}

#[test]
fn latest_skips_drafts_and_prereleases() {
    let rels = vec![
        release("v2.0.0", true, false, &["a-2-1-x86_64.pkg.tar.zst"]),
        release("v1.9.0-rc1", false, true, &["a-1.9-1-x86_64.pkg.tar.zst"]),
        release("v1.8.0", false, false, &["a.dmg", "a-1.8.0-1-x86_64.pkg.tar.zst"]),
        release("v1.7.0", false, false, &[]),
    ];
    let info = latest_release_info(&rels, Platform::Linux).unwrap();
    assert_eq!(info.tag, "v1.8.0");
    assert_eq!(info.published_at.as_deref(), Some("2024-01-01T00:00:00Z"));
    assert_eq!(info.asset_name.as_deref(), Some("a-1.8.0-1-x86_64.pkg.tar.zst"));
    assert_eq!(info.asset_url.as_deref(), Some("https://dl/a-1.8.0-1-x86_64.pkg.tar.zst"));
    let mac = latest_release_info(&rels, Platform::MacX64).unwrap();
    assert_eq!(mac.asset_name.as_deref(), Some("a.dmg"));
    let none = latest_release_info(&rels, Platform::Other).unwrap();
    assert!(none.asset_url.is_none() && none.asset_name.is_none());
}

#[test]
fn no_stable_release_gives_none() {
    let rels = vec![release("v1", true, false, &[]), release("v2", false, true, &[])];
    assert!(latest_release_info(&rels, Platform::Linux).is_none());
    assert!(latest_release_info(&vec![], Platform::Linux).is_none());
}

#[test]
fn reply_statuses() {
    assert_eq!(releases_reply_kind(404), ReplyKind::Missing);
    assert_eq!(releases_reply_kind(200), ReplyKind::Success);
    assert_eq!(releases_reply_kind(299), ReplyKind::Success);
    assert_eq!(releases_reply_kind(500), ReplyKind::Failure);
    assert_eq!(releases_reply_kind(403), ReplyKind::Failure);
    assert!(is_success_status(204));
    assert!(!is_success_status(301));
}
