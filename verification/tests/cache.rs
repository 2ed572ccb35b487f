use bruhbot::catalog::SupabaseCommandItem;
use bruhbot::command_manager::{CommandManager, AUTOCOMPLETE_LIMIT};

fn record(command: &str, id: &str, file: &str) -> SupabaseCommandItem {
    SupabaseCommandItem {
        collectionId: "col".to_string(),
        collectionName: "sounds".to_string(),
        command: command.to_string(),
        created: String::new(),
        id: id.to_string(),
        sound: file.to_string(),
        updated: String::new(),
    }
}

fn api() -> String {
    "http://pb".to_string()
}

fn cache_of(commands: &[&str]) -> CommandManager {
    let items: Vec<SupabaseCommandItem> = commands
        .iter()
        .enumerate()
        .map(|(i, c)| record(c, &format!("id{i}"), &format!("f{i}.mp3")))
        .collect();
    CommandManager::build_command_map(&items, &api())
}

#[test]
fn exact_lookup_returns_the_locator() {
    let cache = cache_of(&["bruh"]);
    let (name, uri) = cache.get_sound_uri("bruh".to_string());
    assert_eq!(name, "bruh");
    assert_eq!(uri, Some("http://pb/api/files/col/id0/f0.mp3".to_string()));
}

#[test]
fn lookup_normalizes_case_and_whitespace() {
    // Keys are normalized on insertion, requests on lookup.
    let cache = cache_of(&["  BRUH "]);
    let (name, uri) = cache.get_sound_uri(" Bruh\t".to_string());
    assert_eq!(name, "bruh");
    assert!(uri.is_some());
}

#[test]
fn missing_sound_returns_none() {
    let cache = cache_of(&["bruh"]);
    let (name, uri) = cache.get_sound_uri("vine".to_string());
    assert_eq!(name, "vine");
    assert_eq!(uri, None);
}

#[test]
fn prefix_fallback_unique_match_resolves() {
    // "air" is not a key, but exactly one key starts with it.
    let cache = cache_of(&["airhorn"]);
    let (name, uri) = cache.get_sound_uri("air".to_string());
    assert_eq!(name, "airhorn");
    assert_eq!(uri, Some("http://pb/api/files/col/id0/f0.mp3".to_string()));
}

#[test]
fn prefix_fallback_ambiguous_returns_none() {
    // "ai" is a prefix of two keys: ambiguous, so not found.
    let cache = cache_of(&["airhorn", "air"]);
    let (name, uri) = cache.get_sound_uri("ai".to_string());
    assert_eq!(name, "ai");
    assert_eq!(uri, None);
}

#[test]
fn exact_match_wins_over_prefix_fallback() {
    let cache = cache_of(&["air", "airhorn"]);
    let (name, uri) = cache.get_sound_uri("air".to_string());
    assert_eq!(name, "air");
    // The locator of "air" itself, not of "airhorn".
    assert_eq!(uri, Some("http://pb/api/files/col/id0/f0.mp3".to_string()));
}

#[test]
fn variants_pick_one_of_the_locators() {
    // Two records under one command: lookup returns one of the two.
    let items = vec![
        record("bruh", "a", "one.mp3"),
        record("bruh", "b", "two.mp3"),
    ];
    let cache = CommandManager::build_command_map(&items, &api());
    for _ in 0..20 {
        let (_, uri) = cache.get_sound_uri("bruh".to_string());
        let uri = uri.expect("known command resolves");
        assert!(
            uri == "http://pb/api/files/col/a/one.mp3"
                || uri == "http://pb/api/files/col/b/two.mp3"
        );
    }
}

#[test]
fn command_list_is_sorted() {
    let cache = cache_of(&["zebra", "air", "mango"]);
    let names = cache.get_commands();
    assert_eq!(names, vec!["air".to_string(), "mango".to_string(), "zebra".to_string()]);
}

#[test]
fn human_readable_list_joins_sorted_names() {
    let cache = cache_of(&["zebra", "air", "mango"]);
    assert_eq!(cache.get_human_readable_command_list(), "air, mango, zebra");
}

#[test]
fn human_readable_list_of_empty_cache_is_empty() {
    let cache = CommandManager::new();
    assert_eq!(cache.get_human_readable_command_list(), "");
}

#[test]
fn autocomplete_filters_by_prefix() {
    let cache = cache_of(&["airhorn", "air", "bruh"]);
    let opts = cache.autocomplete("air");
    assert_eq!(opts, vec!["air".to_string(), "airhorn".to_string()]);
}

#[test]
fn autocomplete_caps_at_limit() {
    let many: Vec<String> = (0..30).map(|i| format!("sound{i:02}")).collect();
    let refs: Vec<&str> = many.iter().map(|s| s.as_str()).collect();
    let cache = cache_of(&refs);
    let opts = cache.autocomplete("sound");
    assert_eq!(opts.len(), AUTOCOMPLETE_LIMIT);
    assert_eq!(opts[0], "sound00");
    assert_eq!(opts[24], "sound24");
}

#[test]
fn refresh_replaces_map_wholesale() {
    let mut cache = cache_of(&["old_sound"]);
    // The upstream no longer lists "old_sound": a successful refresh must
    // not leak the stale entry.
    cache.apply_refresh(Some(vec![record("fresh", "n1", "n.mp3")]), &api());
    assert_eq!(cache.get_commands(), vec!["fresh".to_string()]);
    let (_, gone) = cache.get_sound_uri("old_sound".to_string());
    assert_eq!(gone, None);
}

#[test]
fn failed_refresh_keeps_old_map() {
    let mut cache = cache_of(&["bruh"]);
    let before = cache.get_human_readable_command_list();
    cache.apply_refresh(None, &api());
    assert_eq!(cache.get_human_readable_command_list(), before);
    let (_, uri) = cache.get_sound_uri("bruh".to_string());
    assert!(uri.is_some());
}

#[test]
fn empty_cache_serves_until_first_refresh() {
    let mut cache = CommandManager::new();
    let (name, uri) = cache.get_sound_uri("bruh".to_string());
    assert_eq!((name.as_str(), uri), ("bruh", None));
    cache.apply_refresh(Some(vec![record("bruh", "x", "x.mp3")]), &api());
    let (_, uri) = cache.get_sound_uri("bruh".to_string());
    assert!(uri.is_some());
}
