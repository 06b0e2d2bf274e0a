use bandrec::progress_manager::{
    add_target, get_stage_1_requirements, get_stage_2_requirements, handle_stage_2,
    update_target,
};
use bandrec::store::Store;
use bandrec::types::{Collector, Item, ItemType};

const NOW: i64 = 1_700_000_000;

fn collector(fan_id: i64, username: &str) -> Collector {
    Collector {
        fan_id,
        username: username.to_string(),
        name: format!("name of {username}"),
        token: None,
    }
}

fn item(item_id: i64) -> Item {
    Item {
        item_id,
        item_type: ItemType::Album,
        item_title: format!("title {item_id}"),
        item_url: format!("https://band.bandcamp.com/album/{item_id}"),
        album_id: None,
        album_title: None,
        band_id: 10,
        band_name: "band".to_string(),
        token: None,
        also_collected_count: 0,
    }
}

fn alice_with_three_stale_items() -> Store {
    let mut store = Store::new();
    store.add_collector(&collector(1, "alice"));
    for id in [1, 2, 3] {
        store.upsert_item(&item(id));
        store.insert_collects(1, id);
    }
    store
}

#[test]
fn fresh_target_enters_stage_one() {
    // empty store but for alice and three never-crawled items
    let mut store = alice_with_three_stale_items();
    let target = add_target(&mut store, 1, NOW);
    assert_eq!(target.fan_id, 1);
    assert_eq!(target.stage, 1);
    assert_eq!(target.count_left, 3);
    assert_eq!(target.count_total, 3);
    assert_eq!(target.eta, 6);
    let mut queued = store.item_queue.clone();
    queued.sort();
    assert_eq!(queued, vec![1, 2, 3]);
}

#[test]
fn stage_transition_and_completion() {
    let mut store = alice_with_three_stale_items();
    add_target(&mut store, 1, NOW);
    for id in [1, 2, 3] {
        store.mark_item_done(id, NOW);
    }
    // stage 1 is empty now; nobody shares two items with alice
    update_target(&mut store, 1, NOW);
    let target = store.get_target(1);
    assert_eq!(target.stage, 3);
    assert_eq!(target.count_left, 0);
    assert_eq!(target.count_total, 0);
    assert_eq!(target.eta, 0);
    assert_eq!(store.get_targets().len(), 0);
}

#[test]
fn stage_one_requirements_are_the_stale_collected_items() {
    let mut store = alice_with_three_stale_items();
    store.mark_item_done(2, NOW);
    let reqs = get_stage_1_requirements(&store, 1, NOW);
    let mut sorted = reqs.clone();
    sorted.sort();
    assert_eq!(sorted, vec![1, 3]);
    // an item some other user collects does not count
    store.add_collector(&collector(9, "other"));
    store.upsert_item(&item(50));
    store.insert_collects(9, 50);
    let reqs = get_stage_1_requirements(&store, 1, NOW);
    assert_eq!(reqs.len(), 2);
}

#[test]
fn stage_two_requirements_need_two_shared_items_and_staleness() {
    let mut store = alice_with_three_stale_items();
    for id in [1, 2, 3] {
        store.mark_item_done(id, NOW);
    }
    // bob shares two items, carol one; both are stale (never crawled)
    store.add_collector(&collector(2, "bob"));
    store.add_collector(&collector(3, "carol"));
    store.insert_collected_by(1, 2);
    store.insert_collected_by(2, 2);
    store.insert_collected_by(3, 3);
    // alice's own collected-by edges must not requeue alice herself
    store.insert_collected_by(1, 1);
    store.insert_collected_by(2, 1);
    let reqs = get_stage_2_requirements(&store, 1, NOW);
    assert_eq!(reqs, vec![2]);

    // once bob is freshly crawled nothing is left
    store.mark_collector_done(&"bob".to_string(), NOW);
    assert_eq!(get_stage_2_requirements(&store, 1, NOW).len(), 0);
}

#[test]
fn stage_two_enqueues_and_eta_formula() {
    let mut store = alice_with_three_stale_items();
    for id in [1, 2, 3] {
        store.mark_item_done(id, NOW);
    }
    store.add_collector(&collector(2, "bob"));
    store.add_collector(&collector(5, "dora"));
    for fan in [2, 5] {
        store.insert_collected_by(1, fan);
        store.insert_collected_by(2, fan);
    }
    let target = add_target(&mut store, 1, NOW);
    assert_eq!(target.stage, 2);
    assert_eq!(target.count_left, 2);
    assert_eq!(target.count_total, 2);
    assert_eq!(target.eta, 6);
    let mut queued = store.collection_queue.clone();
    queued.sort();
    assert_eq!(queued, vec![2, 5]);
}

#[test]
fn update_does_not_reenqueue_within_a_stage() {
    let mut store = alice_with_three_stale_items();
    add_target(&mut store, 1, NOW);
    assert_eq!(store.item_queue.len(), 3);
    store.remove_item_from_queue(2);
    // a later tick keeps the target but does not re-enqueue the item
    update_target(&mut store, 1, NOW);
    assert_eq!(store.item_queue.len(), 2);
    let target = store.get_target(1);
    assert_eq!(target.stage, 1);
    assert_eq!(target.count_left, 3);
}

#[test]
fn successive_upserts_keep_totals_monotone() {
    let mut store = alice_with_three_stale_items();
    add_target(&mut store, 1, NOW);
    // two items done: fewer left, total unchanged
    store.mark_item_done(1, NOW);
    store.mark_item_done(2, NOW);
    update_target(&mut store, 1, NOW);
    let target = store.get_target(1);
    assert_eq!(target.stage, 1);
    assert_eq!(target.count_left, 1);
    assert_eq!(target.count_total, 3);
    assert_eq!(target.eta, 2);
}

#[test]
fn empty_stage_two_deletes_target() {
    let mut store = Store::new();
    store.add_collector(&collector(1, "alice"));
    store.insert_target(1, 2, 4, 4, 12);
    handle_stage_2(&mut store, 1, Some(4), NOW);
    assert_eq!(store.get_target(1).stage, 3);
}
