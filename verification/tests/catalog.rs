use bruhbot::catalog::{CatalogFetch, SupabaseCommandItem, SupabaseCommandsList, PAGE_SIZE};
use bruhbot::catalog::records_request_url;
use bruhbot::command_manager::CommandManager;

fn item(n: usize) -> SupabaseCommandItem {
    SupabaseCommandItem {
        collectionId: "col".to_string(),
        collectionName: "sounds".to_string(),
        command: format!("cmd{n}"),
        created: String::new(),
        id: format!("id{n}"),
        sound: format!("s{n}.mp3"),
        updated: String::new(),
    }
}

fn page_of(count: usize, page: usize, total: usize) -> SupabaseCommandsList {
    SupabaseCommandsList {
        page,
        perPage: PAGE_SIZE,
        totalItems: total,
        items: (0..count).map(|k| item(page * 1000 + k)).collect(),
    }
}

/// An upstream holding `total` records answers page `p` with up to
/// `PAGE_SIZE` records; drives the fetch to completion and counts requests.
fn run_fetch(total: usize) -> (usize, usize) {
    let mut fetch = CatalogFetch::begin();
    let mut requests = 0usize;
    while let Some(page) = fetch.next_request() {
        requests += 1;
        let sent = total.saturating_sub((page - 1) * PAGE_SIZE).min(PAGE_SIZE);
        fetch.absorb_page(page_of(sent, page, total));
    }
    (requests, fetch.items.len())
}

#[test]
fn pagination_stops_on_short_page() {
    // Two full pages and a final partial page of 37: exactly 3 requests and
    // 100 * 2 + 37 records.
    let (requests, records) = run_fetch(237);
    assert_eq!(requests, 3);
    assert_eq!(records, 237);
}

#[test]
fn pagination_single_short_page() {
    let (requests, records) = run_fetch(42);
    assert_eq!(requests, 1);
    assert_eq!(records, 42);
}

#[test]
fn pagination_empty_upstream() {
    let (requests, records) = run_fetch(0);
    assert_eq!(requests, 1);
    assert_eq!(records, 0);
}

#[test]
fn pagination_exact_multiple_needs_trailing_empty_page() {
    // 200 records: pages of 100, 100, then 0 — the short (empty) page is
    // what ends the fetch under the short-page rule.
    let (requests, records) = run_fetch(200);
    assert_eq!(requests, 3);
    assert_eq!(records, 200);
}

#[test]
fn totals_cross_check() {
    let mut fetch = CatalogFetch::begin();
    fetch.absorb_page(page_of(37, 1, 37));
    assert!(fetch.totals_agree());

    let mut fetch = CatalogFetch::begin();
    // Upstream reports an unreliable total of 9999; the short page still
    // terminates, and the cross-check reports the mismatch.
    fetch.absorb_page(page_of(37, 1, 9999));
    assert!(fetch.next_request().is_none());
    assert!(!fetch.totals_agree());
}

#[test]
fn request_url_exact() {
    let url = records_request_url(&"http://pb.local".to_string(), "sounds", 1, 100);
    assert_eq!(url, "http://pb.local/api/collections/sounds/records?page=1&perPage=100");
    let url = records_request_url(&"http://pb.local".to_string(), "sounds", 12, 100);
    assert_eq!(url, "http://pb.local/api/collections/sounds/records?page=12&perPage=100");
}

#[test]
fn resource_url_exact() {
    let mut it = item(1);
    it.collectionId = "abc123".to_string();
    it.id = "rec9".to_string();
    it.sound = "horn.mp3".to_string();
    let url = CommandManager::format_api_url(&it, &"https://base".to_string());
    assert_eq!(url, "https://base/api/files/abc123/rec9/horn.mp3");
}
