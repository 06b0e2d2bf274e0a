use bandrec::store::Store;
use bandrec::types::{Collector, Item, ItemType};
use bandrec::Error;

const NOW: i64 = 1_700_000_000;
const THIRTY_DAYS: i64 = 30 * 86400;

fn collector(fan_id: i64, username: &str) -> Collector {
    Collector {
        fan_id,
        username: username.to_string(),
        name: format!("name of {username}"),
        token: None,
    }
}

fn item(item_id: i64) -> Item {
    Item {
        item_id,
        item_type: ItemType::Album,
        item_title: format!("title {item_id}"),
        item_url: format!("https://band.bandcamp.com/album/{item_id}"),
        album_id: None,
        album_title: None,
        band_id: 10,
        band_name: "band".to_string(),
        token: None,
        also_collected_count: 0,
    }
}

#[test]
fn edge_insert_is_idempotent() {
    let mut store = Store::new();
    store.add_collector(&collector(1, "alice"));
    store.upsert_item(&item(7));
    let first = store.insert_collects(1, 7);
    assert!(first);
    for _ in 0..5 {
        let again = store.insert_collects(1, 7);
        assert!(!again);
    }
    assert_eq!(store.collects.len(), 1);
}

#[test]
fn collected_by_insert_is_idempotent() {
    let mut store = Store::new();
    store.add_collector(&collector(1, "alice"));
    store.upsert_item(&item(7));
    assert!(store.insert_collected_by(7, 1));
    assert!(!store.insert_collected_by(7, 1));
    assert_eq!(store.collected_by.len(), 1);
}

#[test]
fn collector_token_fill_is_monotone() {
    let mut store = Store::new();
    store.add_collector(&collector(1, "alice"));
    assert_eq!(store.collectors[0].token, None);

    let mut with_token = collector(1, "alice");
    with_token.token = Some("t1".to_string());
    store.add_collector(&with_token);
    assert_eq!(store.collectors[0].token, Some("t1".to_string()));

    let mut other_token = collector(1, "alice");
    other_token.token = Some("t2".to_string());
    store.add_collector(&other_token);
    assert_eq!(store.collectors[0].token, Some("t1".to_string()));

    store.add_collector(&collector(1, "alice"));
    assert_eq!(store.collectors[0].token, Some("t1".to_string()));
    assert_eq!(store.collectors.len(), 1);
}

#[test]
fn item_token_fill_is_monotone() {
    let mut store = Store::new();
    store.upsert_item(&item(5));
    let mut with_token = item(5);
    with_token.token = Some("cursor".to_string());
    store.upsert_item(&with_token);
    assert_eq!(store.items[0].token, Some("cursor".to_string()));
    let mut other = item(5);
    other.token = Some("other".to_string());
    store.upsert_item(&other);
    assert_eq!(store.items[0].token, Some("cursor".to_string()));
    assert_eq!(store.items.len(), 1);
}

#[test]
fn collector_freshness_window() {
    let mut store = Store::new();
    let name = "alice".to_string();
    assert!(!store.collector_fresh(&name, NOW));
    store.add_collector(&collector(1, "alice"));
    // last_updated is 0 until a crawl completes; an old store is stale
    assert!(!store.collector_fresh(&name, NOW));
    store.mark_collector_done(&name, NOW);
    assert!(store.collector_fresh(&name, NOW));
    assert!(store.collector_fresh(&name, NOW + THIRTY_DAYS - 1));
    assert!(!store.collector_fresh(&name, NOW + THIRTY_DAYS));
}

#[test]
fn item_freshness_window() {
    let mut store = Store::new();
    assert!(!store.item_fresh(5, NOW));
    store.upsert_item(&item(5));
    assert!(!store.item_fresh(5, NOW));
    store.mark_item_done(5, NOW);
    assert!(store.item_fresh(5, NOW + THIRTY_DAYS - 1));
    assert!(!store.item_fresh(5, NOW + THIRTY_DAYS));
}

#[test]
fn album_collapse_on_upsert() {
    let mut store = Store::new();
    let mut track = item(12);
    track.item_type = ItemType::Track;
    track.album_id = Some(77);
    track.album_title = Some("The Album".to_string());
    store.upsert_item(&track);
    assert_eq!(store.items.len(), 1);
    assert_eq!(store.items[0].item_id, 77);
    assert_eq!(store.items[0].item_title, "The Album".to_string());

    let loaded = store.get_item(77).unwrap();
    assert_eq!(loaded.item_id, 77);
    assert_eq!(loaded.album_id, None);
    assert_eq!(loaded.album_title, None);
    assert!(matches!(store.get_item(12), Err(Error::DbResultError)));
}

#[test]
fn get_item_missing_row() {
    let store = Store::new();
    assert!(matches!(store.get_item(1), Err(Error::DbResultError)));
}

#[test]
fn rollback_clears_only_that_fan() {
    let mut store = Store::new();
    store.add_collector(&collector(1, "bob"));
    store.add_collector(&collector(2, "carol"));
    store.upsert_item(&item(10));
    store.upsert_item(&item(11));
    assert!(store.insert_collects(1, 10));
    assert!(store.insert_collects(1, 11));
    assert!(store.insert_collects(2, 10));

    store.remove_collects(&"bob".to_string());
    assert_eq!(store.collects.len(), 1);

    // the next attempt sees the edges as new again: no spurious done signal
    assert!(store.insert_collects(1, 10));
    assert!(store.insert_collects(1, 11));
}

#[test]
fn queues_are_idempotent_sets() {
    let mut store = Store::new();
    store.insert_to_collection_queue(4);
    store.insert_to_collection_queue(4);
    store.insert_to_collection_queue(9);
    assert_eq!(store.collection_queue.len(), 2);

    store.insert_to_collected_by_queue(7);
    store.insert_to_collected_by_queue(7);
    assert_eq!(store.item_queue.len(), 1);

    store.remove_item_from_queue(7);
    assert_eq!(store.item_queue.len(), 0);
}

#[test]
fn next_collector_prefers_lowest_queued_fan() {
    let mut store = Store::new();
    store.add_collector(&collector(5, "eve"));
    store.add_collector(&collector(2, "bob"));
    store.insert_to_collection_queue(5);
    store.insert_to_collection_queue(2);
    let next = store.get_next_collector(false, NOW);
    assert_eq!(next, Some("bob".to_string()));
    // dequeue does not remove: the same collector is returned again
    let again = store.get_next_collector(false, NOW);
    assert_eq!(again, Some("bob".to_string()));

    store.remove_collector_from_queue(&"bob".to_string());
    assert_eq!(store.get_next_collector(false, NOW), Some("eve".to_string()));
    store.remove_collector_from_queue(&"eve".to_string());
    assert_eq!(store.get_next_collector(false, NOW), None);
}

#[test]
fn next_collector_falls_back_to_stale_in_crawl_mode() {
    let mut store = Store::new();
    store.add_collector(&collector(3, "old"));
    store.add_collector(&collector(8, "older"));
    store.mark_collector_done(&"old".to_string(), NOW);
    assert_eq!(store.get_next_collector(false, NOW), None);
    // both rows exist; only "older" (never crawled) is stale
    assert_eq!(store.get_next_collector(true, NOW), Some("older".to_string()));
    // once everything is fresh there is nothing to crawl
    store.mark_collector_done(&"older".to_string(), NOW);
    assert_eq!(store.get_next_collector(true, NOW), None);
}

#[test]
fn next_item_prefers_queue_then_stale() {
    let mut store = Store::new();
    store.upsert_item(&item(30));
    store.insert_to_collected_by_queue(42);
    store.insert_to_collected_by_queue(17);
    assert_eq!(store.get_next_item(false, NOW), Some(17));
    store.remove_item_from_queue(17);
    store.remove_item_from_queue(42);
    assert_eq!(store.get_next_item(false, NOW), None);
    assert_eq!(store.get_next_item(true, NOW), Some(30));
    store.mark_item_done(30, NOW);
    assert_eq!(store.get_next_item(true, NOW), None);
}

#[test]
fn collection_size_counts_the_join() {
    let mut store = Store::new();
    store.add_collector(&collector(1, "alice"));
    store.add_collector(&collector(2, "bob"));
    for id in [1, 2, 3] {
        store.upsert_item(&item(id));
    }
    store.insert_collects(1, 1);
    store.insert_collects(1, 2);
    store.insert_collects(2, 3);
    assert_eq!(store.get_collection_size(&"alice".to_string()), 2);
    assert_eq!(store.get_collection_size(&"bob".to_string()), 1);
    assert_eq!(store.get_collection_size(&"nobody".to_string()), 0);
}

#[test]
fn target_total_is_monotone() {
    let mut store = Store::new();
    store.insert_target(1, 1, 5, 5, 10);
    let t = store.get_target(1);
    assert_eq!((t.stage, t.count_left, t.count_total, t.eta), (1, 5, 5, 10));

    store.insert_target(1, 1, 3, 3, 6);
    let t = store.get_target(1);
    assert_eq!((t.stage, t.count_left, t.count_total, t.eta), (1, 3, 5, 6));

    store.insert_target(1, 1, 7, 7, 14);
    let t = store.get_target(1);
    assert_eq!((t.stage, t.count_left, t.count_total, t.eta), (1, 7, 7, 14));
}

#[test]
fn missing_target_is_stage_three_sentinel() {
    let mut store = Store::new();
    let t = store.get_target(99);
    assert_eq!(t.fan_id, 99);
    assert_eq!(t.stage, 3);
    assert_eq!(t.count_left, 0);
    assert_eq!(t.count_total, 0);
    assert_eq!(t.eta, 0);

    store.insert_target(99, 2, 1, 1, 3);
    store.delete_target(99);
    assert_eq!(store.get_target(99).stage, 3);
    assert_eq!(store.get_targets().len(), 0);
}
