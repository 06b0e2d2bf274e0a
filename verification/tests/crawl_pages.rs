use bandrec::collectors::{
    apply_collection_items, apply_collection_page, apply_collector_outcome,
    apply_initial_collection_page, classify_api_status, classify_initial_status,
    should_fetch_collection, WorkerAction,
};
use bandrec::items::{
    apply_collectors_batch, apply_collectors_page, apply_initial_collectors_page,
    apply_item_outcome, classify_item_page, is_bandcamp_url,
};
use bandrec::store::Store;
use bandrec::types::{
    AlbumProperties, CollectionData, Collector, CollectorsData, CollectorsResult, Item, ItemType,
};
use bandrec::Error;

const NOW: i64 = 1_700_000_000;

fn collector(fan_id: i64, username: &str) -> Collector {
    Collector {
        fan_id,
        username: username.to_string(),
        name: format!("name of {username}"),
        token: None,
    }
}

fn item(item_id: i64) -> Item {
    Item {
        item_id,
        item_type: ItemType::Album,
        item_title: format!("title {item_id}"),
        item_url: format!("https://band.bandcamp.com/album/{item_id}"),
        album_id: None,
        album_title: None,
        band_id: 10,
        band_name: "band".to_string(),
        token: None,
        also_collected_count: 0,
    }
}

fn item_with_token(item_id: i64, token: &str) -> Item {
    let mut it = item(item_id);
    it.token = Some(token.to_string());
    it
}

#[test]
fn status_classification() {
    assert!(matches!(classify_initial_status(429), Err(Error::RateLimit)));
    assert!(matches!(classify_initial_status(404), Err(Error::NotFoundError)));
    assert!(matches!(classify_initial_status(200), Ok(())));
    assert!(matches!(classify_initial_status(500), Ok(())));
    assert!(matches!(classify_api_status(429), Err(Error::RateLimit)));
    assert!(matches!(classify_api_status(404), Ok(())));
}

#[test]
fn item_page_classification() {
    assert!(matches!(classify_item_page(true, false), Ok(())));
    assert!(matches!(classify_item_page(true, true), Ok(())));
    assert!(matches!(classify_item_page(false, true), Err(Error::NotFoundError)));
    assert!(matches!(classify_item_page(false, false), Err(Error::PageError)));
}

#[test]
fn bandcamp_url_gate() {
    assert!(is_bandcamp_url("https://band.bandcamp.com/album/x"));
    assert!(is_bandcamp_url("http://a1-b.bandcamp.com"));
    assert!(is_bandcamp_url("https://x.bandcamp.com"));
    assert!(!is_bandcamp_url("https://example.com/foo"));
    assert!(!is_bandcamp_url("https://.bandcamp.com/a"));
    assert!(!is_bandcamp_url("ftp://x.bandcamp.com"));
    assert!(!is_bandcamp_url("https://x.bandcampxcom/a"));
    assert!(!is_bandcamp_url("bandcamp.com"));
    assert!(!is_bandcamp_url(""));
    // the host pattern is a prefix match: nothing after the domain is checked
    assert!(is_bandcamp_url("https://x.bandcamp.com.evil.example"));
}

#[test]
fn fetch_gate_honors_force_and_freshness() {
    let mut store = Store::new();
    store.add_collector(&collector(1, "alice"));
    store.mark_collector_done(&"alice".to_string(), NOW);
    assert!(!should_fetch_collection(&store, &"alice".to_string(), false, NOW));
    assert!(should_fetch_collection(&store, &"alice".to_string(), true, NOW));
    assert!(should_fetch_collection(&store, &"missing".to_string(), false, NOW));
}

#[test]
fn done_signal_stops_pagination() {
    let mut store = Store::new();
    store.add_collector(&collector(1, "alice"));
    // first page: everything new, more available -> continue with last token
    let page: Vec<Item> = vec![item_with_token(1, "t1"), item_with_token(2, "t2")];
    let next = apply_collection_page(&mut store, 1, &page, true, &"t0".to_string());
    assert_eq!(next, Some("t2".to_string()));
    assert_eq!(store.collects.len(), 2);

    // second page repeats a known item: the done signal stops the crawl
    let page2: Vec<Item> = vec![item_with_token(2, "t2"), item_with_token(3, "t3")];
    let next = apply_collection_page(&mut store, 1, &page2, true, &"t2".to_string());
    assert_eq!(next, None);
    // the new edge of the page is still recorded
    assert_eq!(store.collects.len(), 3);
}

#[test]
fn pagination_stops_when_remote_has_no_more() {
    let mut store = Store::new();
    store.add_collector(&collector(1, "alice"));
    let page: Vec<Item> = vec![item_with_token(1, "t1")];
    let next = apply_collection_page(&mut store, 1, &page, false, &"t0".to_string());
    assert_eq!(next, None);
}

#[test]
fn initial_page_decides_continuation() {
    let mut store = Store::new();
    let fan = collector(1, "alice");
    let data = CollectionData {
        last_token: Some("cursor".to_string()),
        item_count: 700,
        batch_size: 500,
    };
    let embedded: Vec<Item> = vec![item(1), item(2)];
    let next = apply_initial_collection_page(&mut store, &fan, &data, &embedded);
    assert_eq!(next, Some("cursor".to_string()));
    assert_eq!(store.collectors.len(), 1);
    assert_eq!(store.collects.len(), 2);

    // a small collection does not paginate
    let mut store2 = Store::new();
    let data2 = CollectionData {
        last_token: Some("cursor".to_string()),
        item_count: 2,
        batch_size: 500,
    };
    let next2 = apply_initial_collection_page(&mut store2, &fan, &data2, &embedded);
    assert_eq!(next2, None);
}

#[test]
fn collector_outcomes() {
    let mut store = Store::new();
    store.add_collector(&collector(1, "bob"));
    store.upsert_item(&item(10));
    store.upsert_item(&item(11));
    store.insert_collects(1, 10);
    store.insert_collects(1, 11);
    store.insert_to_collection_queue(1);

    // rate limit: rollback, stay queued, back off
    let action = apply_collector_outcome(&mut store, &"bob".to_string(), &Err(Error::RateLimit), NOW);
    assert_eq!(action, WorkerAction::Backoff);
    assert_eq!(store.collects.len(), 0);
    assert_eq!(store.collection_queue.len(), 1);
    assert_eq!(store.collectors[0].last_updated, 0);

    // transient: nothing changes
    let action =
        apply_collector_outcome(&mut store, &"bob".to_string(), &Err(Error::NetworkError), NOW);
    assert_eq!(action, WorkerAction::Proceed);
    assert_eq!(store.collection_queue.len(), 1);
    assert_eq!(store.collectors[0].last_updated, 0);

    // success: marked done and dequeued
    let action = apply_collector_outcome(&mut store, &"bob".to_string(), &Ok(()), NOW);
    assert_eq!(action, WorkerAction::Proceed);
    assert_eq!(store.collection_queue.len(), 0);
    assert_eq!(store.collectors[0].last_updated, NOW);
}

#[test]
fn not_found_collector_is_not_retried() {
    let mut store = Store::new();
    store.add_collector(&collector(1, "gone"));
    store.insert_to_collection_queue(1);
    let action =
        apply_collector_outcome(&mut store, &"gone".to_string(), &Err(Error::NotFoundError), NOW);
    assert_eq!(action, WorkerAction::Proceed);
    assert_eq!(store.collection_queue.len(), 0);
    assert_eq!(store.collectors[0].last_updated, NOW);
}

#[test]
fn collectors_batch_tracks_token_and_done() {
    let mut store = Store::new();
    store.upsert_item(&item(7));
    let mut bob = collector(2, "bob");
    bob.token = Some("tb".to_string());
    let carol = collector(3, "carol");
    let thumbs = vec![bob, carol];
    let (done, token) = apply_collectors_batch(&mut store, 7, &thumbs, "start".to_string());
    assert!(!done);
    // carol carries no token: the last one seen wins
    assert_eq!(token, "tb".to_string());
    assert_eq!(store.collected_by.len(), 2);
    assert_eq!(store.collectors.len(), 2);

    // replaying one thumb reports the duplicate
    let replay = vec![collector(2, "bob")];
    let (done, token) = apply_collectors_batch(&mut store, 7, &replay, "start".to_string());
    assert!(done);
    assert_eq!(token, "start".to_string());
}

#[test]
fn initial_collectors_page_needs_properties_to_paginate() {
    let mut store = Store::new();
    store.upsert_item(&item(7));
    let data = CollectorsData {
        thumbs: vec![collector(2, "bob")],
        more_thumbs_available: true,
        shown_thumbs: vec![],
    };
    let missing: Option<AlbumProperties> = None;
    let r = apply_initial_collectors_page(&mut store, 7, &data, &missing);
    assert!(matches!(r, Err(Error::PageError)));

    let mut store2 = Store::new();
    store2.upsert_item(&item(7));
    let props = Some(AlbumProperties { item_type: "a".to_string(), item_id: 7 });
    let r = apply_initial_collectors_page(&mut store2, 7, &data, &props).unwrap();
    let pr = r.unwrap();
    assert_eq!(pr.album_id, 7);
    assert_eq!(pr.album_type, "a".to_string());

    // without more thumbs there is nothing to paginate
    let mut store3 = Store::new();
    store3.upsert_item(&item(7));
    let data_done = CollectorsData {
        thumbs: vec![collector(2, "bob")],
        more_thumbs_available: false,
        shown_thumbs: vec![],
    };
    let r = apply_initial_collectors_page(&mut store3, 7, &data_done, &missing).unwrap();
    assert!(r.is_none());
}

#[test]
fn collectors_page_continues_until_done() {
    let mut store = Store::new();
    store.upsert_item(&item(7));
    let mut bob = collector(2, "bob");
    bob.token = Some("t2".to_string());
    let page = CollectorsResult { results: vec![bob], more_available: true };
    let next = apply_collectors_page(&mut store, 7, &page, &"t1".to_string());
    assert_eq!(next, Some("t2".to_string()));

    let replay = CollectorsResult {
        results: vec![collector(2, "bob")],
        more_available: true,
    };
    let next = apply_collectors_page(&mut store, 7, &replay, &"t2".to_string());
    assert_eq!(next, None);
}

#[test]
fn unreachable_url_item_is_marked_done_without_a_fetch() {
    // the worker never issues a request for a foreign host: the URL gate
    // classifies the item as not found, and the outcome marks it done
    let mut store = Store::new();
    let mut foreign = item(7);
    foreign.item_url = "https://example.com/foo".to_string();
    store.upsert_item(&foreign);
    store.insert_to_collected_by_queue(7);

    let fetched = store.get_item(7).unwrap();
    assert!(!is_bandcamp_url(&fetched.item_url));
    let action = apply_item_outcome(&mut store, 7, &Err(Error::NotFoundError), NOW);
    assert_eq!(action, WorkerAction::Proceed);
    assert_eq!(store.item_queue.len(), 0);
    assert_eq!(store.items[0].last_updated, NOW);
}

#[test]
fn item_rate_limit_rolls_back_collected_by() {
    let mut store = Store::new();
    store.upsert_item(&item(7));
    store.insert_to_collected_by_queue(7);
    let thumbs = vec![collector(2, "bob"), collector(3, "carol")];
    apply_collectors_batch(&mut store, 7, &thumbs, String::new());
    assert_eq!(store.collected_by.len(), 2);

    let action = apply_item_outcome(&mut store, 7, &Err(Error::RateLimit), NOW);
    assert_eq!(action, WorkerAction::Backoff);
    assert_eq!(store.collected_by.len(), 0);
    assert_eq!(store.item_queue.len(), 1);
    assert_eq!(store.items[0].last_updated, 0);
}

#[test]
fn collection_items_report_any_duplicate() {
    let mut store = Store::new();
    store.add_collector(&collector(1, "alice"));
    let first: Vec<Item> = vec![item(1), item(2)];
    assert!(!apply_collection_items(&mut store, 1, &first));
    // one known edge among new ones still fires the signal
    let second: Vec<Item> = vec![item(3), item(1), item(4)];
    assert!(apply_collection_items(&mut store, 1, &second));
    assert_eq!(store.collects.len(), 4);
}

#[test]
fn transient_item_failures_leave_the_store_alone() {
    let mut store = Store::new();
    store.upsert_item(&item(7));
    store.insert_to_collected_by_queue(7);
    for err in [Error::SerializationError, Error::NetworkError, Error::PageError] {
        let action = apply_item_outcome(&mut store, 7, &Err(err), NOW);
        assert_eq!(action, WorkerAction::Proceed);
        assert_eq!(store.item_queue.len(), 1);
        assert_eq!(store.items[0].last_updated, 0);
    }
}

#[test]
fn item_type_codec_round_trip() {
    let kinds = [
        ItemType::Album,
        ItemType::Track,
        ItemType::Package,
        ItemType::Lepledge,
        ItemType::Subscription,
    ];
    for kind in kinds {
        let tag = kind.to_tag();
        assert_eq!(ItemType::from_tag(&tag), Some(kind));
    }
    assert_eq!(ItemType::from_tag(&"album".to_string()), Some(ItemType::Album));
    assert_eq!(ItemType::from_tag(&"bogus".to_string()), None);
}
