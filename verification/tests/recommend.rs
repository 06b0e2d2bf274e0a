use bandrec::analyze::{
    boost_weights, compute_overlaps, get_relevant_users, get_user_recommendations, score_items,
    SCORE_SCALE,
};
use bandrec::store::Store;
use bandrec::types::{Collector, Item, ItemType};
use bandrec::Error;

fn collector(fan_id: i64, username: &str) -> Collector {
    Collector {
        fan_id,
        username: username.to_string(),
        name: format!("name of {username}"),
        token: None,
    }
}

fn item(item_id: i64) -> Item {
    Item {
        item_id,
        item_type: ItemType::Album,
        item_title: format!("title {item_id}"),
        item_url: format!("https://band.bandcamp.com/album/{item_id}"),
        album_id: None,
        album_title: None,
        band_id: 10,
        band_name: "band".to_string(),
        token: None,
        also_collected_count: 0,
    }
}

/// u collects {1,2,3}; a {1,2,4}; b {1,2,3,5}; c {4,5}.
fn scoring_store() -> Store {
    let mut store = Store::new();
    store.add_collector(&collector(1, "u"));
    store.add_collector(&collector(2, "a"));
    store.add_collector(&collector(3, "b"));
    store.add_collector(&collector(4, "c"));
    for id in 1..=5 {
        store.upsert_item(&item(id));
    }
    for id in [1, 2, 3] {
        store.insert_collects(1, id);
    }
    for id in [1, 2, 4] {
        store.insert_collects(2, id);
    }
    for id in [1, 2, 3, 5] {
        store.insert_collects(3, id);
    }
    for id in [4, 5] {
        store.insert_collects(4, id);
    }
    store
}

#[test]
fn scoring_example_with_square_boost() {
    let store = scoring_store();
    let result = get_user_recommendations(&store, &"u".to_string(), 2).unwrap();
    // overlaps: a=2, b=3, c=0 (not relevant); weights a=4, b=9
    // item 4 <- 4 (from a), item 5 <- 9 (from b)
    assert_eq!(result.len(), 2);
    assert_eq!(result[0].item.item_id, 5);
    assert_eq!(result[0].score, 9 * SCORE_SCALE);
    assert_eq!(result[1].item.item_id, 4);
    assert_eq!(result[1].score, 4 * SCORE_SCALE);
}

#[test]
fn no_recommended_item_is_already_collected() {
    let store = scoring_store();
    let result = get_user_recommendations(&store, &"u".to_string(), 2).unwrap();
    for entry in &result {
        assert!(![1, 2, 3].contains(&entry.item.item_id));
    }
}

#[test]
fn scores_are_positive_and_non_increasing() {
    let store = scoring_store();
    for boost in 1..=5 {
        let result = get_user_recommendations(&store, &"u".to_string(), boost).unwrap();
        assert!(result.len() <= 50);
        for entry in &result {
            assert!(entry.score > 0);
        }
        for pair in result.windows(2) {
            assert!(pair[0].score >= pair[1].score);
        }
    }
}

#[test]
fn linear_boost_still_excludes_weight_one() {
    let store = scoring_store();
    let result = get_user_recommendations(&store, &"u".to_string(), 1).unwrap();
    // weights: a=2, b=3; scores: item 4 <- 2, item 5 <- 3
    assert_eq!(result.len(), 2);
    assert_eq!(result[0].item.item_id, 5);
    assert_eq!(result[0].score, 3 * SCORE_SCALE);
    assert_eq!(result[1].item.item_id, 4);
    assert_eq!(result[1].score, 2 * SCORE_SCALE);
}

#[test]
fn unknown_user_is_not_found() {
    let store = scoring_store();
    let result = get_user_recommendations(&store, &"nobody".to_string(), 2);
    assert!(matches!(result, Err(Error::NotFoundError)));
}

#[test]
fn user_with_tiny_collection_has_no_own_row() {
    let mut store = Store::new();
    store.add_collector(&collector(1, "solo"));
    store.upsert_item(&item(9));
    store.insert_collects(1, 9);
    let result = get_user_recommendations(&store, &"solo".to_string(), 2);
    assert!(matches!(result, Err(Error::DbResultError)));
}

#[test]
fn result_is_capped_at_fifty() {
    let mut store = Store::new();
    store.add_collector(&collector(1, "u"));
    store.add_collector(&collector(2, "big"));
    store.upsert_item(&item(1));
    store.upsert_item(&item(2));
    for id in [1, 2] {
        store.insert_collects(1, id);
        store.insert_collects(2, id);
    }
    for id in 100..160 {
        store.upsert_item(&item(id));
        store.insert_collects(2, id);
    }
    let result = get_user_recommendations(&store, &"u".to_string(), 2).unwrap();
    assert_eq!(result.len(), 50);
    for entry in &result {
        assert_eq!(entry.score, 4 * SCORE_SCALE);
    }
}

#[test]
fn relevant_users_include_the_target_and_full_item_sets() {
    let store = scoring_store();
    let users = get_relevant_users(&store, &"u".to_string());
    let mut fans: Vec<i64> = users.iter().map(|u| u.fan_id).collect();
    fans.sort();
    assert_eq!(fans, vec![1, 2, 3]);
    for user in &users {
        if user.fan_id == 3 {
            assert_eq!(user.items, vec![1, 2, 3, 5]);
        }
    }
    assert_eq!(get_relevant_users(&store, &"nobody".to_string()).len(), 0);
}

#[test]
fn staged_pipeline_matches_integer_weights() {
    let store = scoring_store();
    let users = get_relevant_users(&store, &"u".to_string());
    let target = users.iter().position(|u| u.fan_id == 1).unwrap();
    let forbidden = users[target].items.clone();
    let overlaps = compute_overlaps(&users, &forbidden);
    let weights = boost_weights(&overlaps, 2);
    for (k, user) in users.iter().enumerate() {
        let expected: u64 = match user.fan_id {
            1 => 9,
            2 => 4,
            3 => 9,
            _ => unreachable!(),
        };
        assert_eq!(overlaps[k] * overlaps[k], expected);
        assert_eq!(weights[k], expected * SCORE_SCALE);
    }
    let scored = score_items(&users, &weights, &forbidden);
    assert_eq!(scored.len(), 2);
    assert_eq!(scored[0].item_id, 5);
    assert_eq!(scored[0].score, 9 * SCORE_SCALE);
}

#[test]
fn fractional_weights_can_be_supplied_directly() {
    // a boundary that computes non-integer boosts hands scaled weights in;
    // a weight of exactly one unit is excluded by the strict gate
    let store = scoring_store();
    let users = get_relevant_users(&store, &"u".to_string());
    let target = users.iter().position(|u| u.fan_id == 1).unwrap();
    let forbidden = users[target].items.clone();
    let weights: Vec<u64> = users
        .iter()
        .map(|u| if u.fan_id == 2 { SCORE_SCALE } else { 5 * SCORE_SCALE / 2 })
        .collect();
    let scored = score_items(&users, &weights, &forbidden);
    // user a (weight exactly 1.0) is gated out, so item 4 is never scored
    assert_eq!(scored.len(), 1);
    assert_eq!(scored[0].item_id, 5);
    assert_eq!(scored[0].score, 5 * SCORE_SCALE / 2);
}
