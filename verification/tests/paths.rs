use std::path::PathBuf;

use tsuji::storage::paths::{channel_path, resolve_root};

#[test]
fn cli_root_has_highest_priority() {
    let p = resolve_root(Some("/from/cli"), Some("/env"), Some("/xdg"), Some("/home"));
    assert_eq!(PathBuf::from(p), PathBuf::from("/from/cli"));
}

#[test]
fn tsuji_root_wins_over_xdg_and_home() {
    let p = resolve_root(None, Some("/env/tsuji"), Some("/xdg"), Some("/home"));
    assert_eq!(PathBuf::from(p), PathBuf::from("/env/tsuji"));
}

#[test]
fn xdg_appends_tsuji_subdir() {
    let p = resolve_root(None, None, Some("/xdg/data"), Some("/home"));
    assert_eq!(PathBuf::from(p), PathBuf::from("/xdg/data/tsuji"));
}

#[test]
fn falls_back_to_home_local_share_when_nothing_set() {
    let p = resolve_root(None, None, None, Some("/home/me"));
    assert_eq!(PathBuf::from(p), PathBuf::from("/home/me/.local/share/tsuji"));
}

#[test]
fn empty_strings_in_env_are_treated_as_unset() {
    let p = resolve_root(None, Some(""), Some(""), Some("/home/me"));
    assert_eq!(PathBuf::from(p), PathBuf::from("/home/me/.local/share/tsuji"));
}

#[test]
fn channel_path_appends_jsonl_extension() {
    let p = channel_path("/root", "default");
    assert_eq!(PathBuf::from(p), PathBuf::from("/root/default.jsonl"));
}

#[test]
fn resolved_paths_match_pathbuf_join() {
    // Same text as PathBuf::join gives, not only the same path.
    assert_eq!(resolve_root(None, None, None, None), "./.local/share/tsuji");
    assert_eq!(resolve_root(None, None, Some("/xdg/"), None), "/xdg/tsuji");
    assert_eq!(channel_path("", "c"), "c.jsonl");
    assert_eq!(
        channel_path("/r/", "c"),
        PathBuf::from("/r/").join("c.jsonl").to_str().unwrap()
    );
    // An empty command-line root is taken as given.
    assert_eq!(resolve_root(Some(""), Some("/env"), None, None), "");
}

#[test]
fn empty_home_counts_as_unset() {
    assert_eq!(
        resolve_root(None, None, None, Some("")),
        resolve_root(None, None, None, None)
    );
    assert_eq!(resolve_root(None, None, None, Some("")), "./.local/share/tsuji");
}

#[test]
fn distinct_channels_have_distinct_files() {
    for root in ["/r", "/r/", ""] {
        assert_ne!(channel_path(root, "a"), channel_path(root, "b"));
        assert_ne!(channel_path(root, "ab"), channel_path(root, "a"));
    }
}
