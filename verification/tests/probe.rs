use russus_launcher::probe::{
    check_wait_secs, checks_disabled, token_from_env, token_from_gh, version_from_pacman,
    version_in_pacman_output,
};
use russus_launcher::progress::{progress, progress_done, progress_error, progress_installing};

#[test]
fn pacman_query_output() {
    assert_eq!(version_in_pacman_output("oxiterm 0.7.1-1"), Some("0.7.1".to_string()));
    assert_eq!(version_in_pacman_output("  oxiterm\t0.7.1-1\n"), Some("0.7.1".to_string()));
    assert_eq!(version_in_pacman_output("oxiterm 1:2.0"), Some("1:2.0".to_string()));
    assert_eq!(version_in_pacman_output("oxiterm"), None);
    assert_eq!(version_in_pacman_output("   "), None);
    assert_eq!(version_in_pacman_output("a -1"), Some("".to_string()));
    assert_eq!(version_from_pacman(true, b"oxiterm 0.7.1-1\n"), Some("0.7.1".to_string()));
    assert_eq!(version_from_pacman(false, b"oxiterm 0.7.1-1\n"), None);
}

#[test]
fn pacman_output_invalid_utf8_is_replaced() {
    assert_eq!(version_from_pacman(true, b"app \xff1.0-2"), Some("\u{fffd}1.0".to_string()));
}

#[test]
fn tokens() {
    assert_eq!(token_from_env(Some("abc".to_string())), Some("abc".to_string()));
    assert_eq!(token_from_env(Some(String::new())), None);
    assert_eq!(token_from_env(None), None);
    assert_eq!(token_from_gh(true, b"gho_123\n"), Some("gho_123".to_string()));
    assert_eq!(token_from_gh(true, b" \n"), None);
    assert_eq!(token_from_gh(false, b"gho_123\n"), None);
}

#[test]
fn check_schedule() {
    assert_eq!(check_wait_secs(0), 3600);
    assert_eq!(check_wait_secs(30), 1800);
    assert_eq!(check_wait_secs(1440), 86400);
    assert!(checks_disabled(0));
    assert!(!checks_disabled(60));
}

#[test]
fn progress_events() {
    let p = progress_installing("oxiterm");
    assert_eq!((p.app.as_str(), p.phase.as_str(), p.message.as_str(), p.percent), ("oxiterm", "install", "Installazione…", -1));
    let d = progress_done("oxiterm", "Completato");
    assert_eq!((d.phase.as_str(), d.message.as_str(), d.percent), ("done", "Completato", 100));
    let e = progress_error("oxiterm", "boom");
    assert_eq!((e.phase.as_str(), e.message.as_str(), e.percent), ("error", "boom", -1));
    let g = progress("x", "download", "Scaricamento… 1.0 MB", 42);
    assert_eq!((g.phase.as_str(), g.percent), ("download", 42));
}
