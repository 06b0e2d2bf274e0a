//! The collector-side crawl: applying fetched collection pages to the
//! store, the paginator's done signal, and the worker's bookkeeping
//! after a crawl attempt.
//!
//! Fetching itself is I/O and lives outside the crate; the boundary
//! hands in the decoded pages and the HTTP status codes.

use vstd::prelude::*;
use crate::store::{
    collapsed_item_id, collector_fresh_at, drop_key, fan_for_username, has_edge, has_fan,
    insert_edge, mark_collector_rows, upsert_collector_rows, upsert_item_rows, CollectorRow, Edge,
    ItemRow, Store,
};
use crate::types::{Collector, CollectionData, Item};
use crate::Error;

verus! {

/// What the worker does after a crawl attempt: go on to the next tick,
/// or back off for the rate-limit pause first.
#[derive(Clone, Copy, Debug, PartialEq, Eq, Structural)]
pub enum WorkerAction {
    Proceed,
    Backoff,
}

/// Classify the HTTP status of an initial page fetch: too many
/// requests is the rate limit, a missing page is not found, anything
/// else proceeds to the body.
pub fn classify_initial_status(status: u16) -> (r: Result<(), Error>)
    ensures
        r == (if status == 429 {
            Err::<(), Error>(Error::RateLimit)
        } else if status == 404 {
            Err::<(), Error>(Error::NotFoundError)
        } else {
            Ok::<(), Error>(())
        }),
{
    if status == 429 {
        Err(Error::RateLimit)
    } else if status == 404 {
        Err(Error::NotFoundError)
    } else {
        Ok(())
    }
}

/// Classify the HTTP status of a paginated API call: only the rate
/// limit is detected here; other failures surface when the body does
/// not decode.
pub fn classify_api_status(status: u16) -> (r: Result<(), Error>)
    ensures
        r == (if status == 429 {
            Err::<(), Error>(Error::RateLimit)
        } else {
            Ok::<(), Error>(())
        }),
{
    if status == 429 {
        Err(Error::RateLimit)
    } else {
        Ok(())
    }
}

/// Whether a collector crawl should hit the network: always when
/// forced, otherwise only when the collector is missing or stale.
pub fn should_fetch_collection(store: &Store, name: &String, force: bool, now: i64) -> (r: bool)
    requires
        store.wf(),
        now >= 0,
    ensures
        r == (force || !collector_fresh_at(store.collectors@, name@, now as int)),
{
    if force {
        true
    } else {
        !store.collector_fresh(name, now)
    }
}

/// The item table after a whole page of collection items is upserted,
/// in page order.
pub open spec fn page_items_after(rows: Seq<ItemRow>, items: Seq<Item>) -> Seq<ItemRow>
    decreases items.len(),
{
    if items.len() == 0 {
        rows
    } else {
        upsert_item_rows(page_items_after(rows, items.drop_last()), items.last())
    }
}

/// The collects relation after a whole page of collection items is
/// recorded for one fan, in page order.
pub open spec fn page_edges_after(es: Seq<Edge>, fan: i64, items: Seq<Item>) -> Seq<Edge>
    decreases items.len(),
{
    if items.len() == 0 {
        es
    } else {
        insert_edge(
            page_edges_after(es, fan, items.drop_last()),
            Edge { fan_id: fan, item_id: collapsed_item_id(items.last()) },
        )
    }
}

/// The paginator's done signal: some insert of the page reported the
/// edge as already present. Everything older than a fully known page
/// is already known, so the crawl can stop.
pub open spec fn page_any_duplicate(es: Seq<Edge>, fan: i64, items: Seq<Item>) -> bool
    decreases items.len(),
{
    if items.len() == 0 {
        false
    } else {
        page_any_duplicate(es, fan, items.drop_last()) || has_edge(
            page_edges_after(es, fan, items.drop_last()),
            fan as int,
            collapsed_item_id(items.last()) as int,
        )
    }
}

/// A page whose edges are all known before it is applied reports the
/// done signal (provided it has any item at all); a page is never
/// reported done when none of its edges was known or repeated.
pub proof fn lemma_done_signal(es: Seq<Edge>, fan: i64, items: Seq<Item>)
    ensures
        items.len() > 0 && (forall|k: int|
            0 <= k < items.len() ==> has_edge(
                es,
                fan as int,
                collapsed_item_id(#[trigger] items[k]) as int,
            )) ==> page_any_duplicate(es, fan, items),
        (forall|k: int|
            0 <= k < items.len() ==> !has_edge(
                es,
                fan as int,
                collapsed_item_id(#[trigger] items[k]) as int,
            )) && (forall|a: int, b: int|
            0 <= a < b < items.len() ==> collapsed_item_id(items[a]) != collapsed_item_id(
                items[b],
            )) ==> !page_any_duplicate(es, fan, items),
    decreases items.len(),
{
    if items.len() > 0 {
        lemma_done_signal(es, fan, items.drop_last());
        assert(forall|k: int| 0 <= k < items.len() - 1 ==> items.drop_last()[k] == items[k]);
        if items.len() > 0 && (forall|k: int|
            0 <= k < items.len() ==> has_edge(
                es,
                fan as int,
                collapsed_item_id(#[trigger] items[k]) as int,
            )) {
            lemma_page_edges_grow(es, fan, items.drop_last());
            assert(has_edge(es, fan as int, collapsed_item_id(items[0]) as int));
            if items.len() == 1 {
                assert(items.drop_last().len() == 0);
                assert(page_edges_after(es, fan, items.drop_last()) == es);
                assert(has_edge(es, fan as int, collapsed_item_id(items.last()) as int));
            } else {
                assert(page_any_duplicate(es, fan, items.drop_last()));
            }
        }
        if (forall|k: int|
            0 <= k < items.len() ==> !has_edge(
                es,
                fan as int,
                collapsed_item_id(#[trigger] items[k]) as int,
            )) && (forall|a: int, b: int|
            0 <= a < b < items.len() ==> collapsed_item_id(items[a]) != collapsed_item_id(
                items[b],
            )) {
            assert(!page_any_duplicate(es, fan, items.drop_last())) by {
                assert(forall|k: int|
                    0 <= k < items.drop_last().len() ==> !has_edge(
                        es,
                        fan as int,
                        collapsed_item_id(#[trigger] items.drop_last()[k]) as int,
                    ));
                assert(forall|a: int, b: int|
                    0 <= a < b < items.drop_last().len() ==> collapsed_item_id(
                        items.drop_last()[a],
                    ) != collapsed_item_id(items.drop_last()[b]));
            }
            lemma_page_edges_exact(es, fan, items.drop_last());
            assert(!has_edge(
                page_edges_after(es, fan, items.drop_last()),
                fan as int,
                collapsed_item_id(items.last()) as int,
            )) by {
                assert(!has_edge(es, fan as int, collapsed_item_id(items.last()) as int));
                assert(forall|k: int|
                    0 <= k < items.drop_last().len() ==> collapsed_item_id(
                        #[trigger] items.drop_last()[k],
                    ) != collapsed_item_id(items.last())) by {
                    assert(forall|k: int|
                        0 <= k < items.len() - 1 ==> collapsed_item_id(#[trigger] items[k])
                            != collapsed_item_id(items[items.len() - 1]));
                }
            }
        }
    }
}

/// Applying a page only grows the edge relation.
pub proof fn lemma_page_edges_grow(es: Seq<Edge>, fan: i64, items: Seq<Item>)
    ensures
        forall|f: int, i: int|
            has_edge(es, f, i) ==> #[trigger] has_edge(page_edges_after(es, fan, items), f, i),
    decreases items.len(),
{
    if items.len() > 0 {
        lemma_page_edges_grow(es, fan, items.drop_last());
        let prev = page_edges_after(es, fan, items.drop_last());
        let e = Edge { fan_id: fan, item_id: collapsed_item_id(items.last()) };
        assert forall|f: int, i: int| has_edge(es, f, i) implies #[trigger] has_edge(
            page_edges_after(es, fan, items),
            f,
            i,
        ) by {
            assert(has_edge(prev, f, i));
            if !has_edge(prev, e.fan_id as int, e.item_id as int) {
                let k = choose|k: int|
                    0 <= k < prev.len() && prev[k].fan_id == f && prev[k].item_id == i;
                assert(prev.push(e)[k] == prev[k]);
            }
        }
    }
}

/// After a page of previously unknown, pairwise distinct edges, the
/// relation holds exactly the old edges plus the page's.
pub proof fn lemma_page_edges_exact(es: Seq<Edge>, fan: i64, items: Seq<Item>)
    ensures
        forall|f: int, i: int|
            #[trigger] has_edge(page_edges_after(es, fan, items), f, i) <==> (has_edge(es, f, i)
                || (f == fan as int && exists|k: int|
                0 <= k < items.len() && collapsed_item_id(#[trigger] items[k]) as int == i)),
    decreases items.len(),
{
    if items.len() > 0 {
        lemma_page_edges_exact(es, fan, items.drop_last());
        let prev = page_edges_after(es, fan, items.drop_last());
        let res = page_edges_after(es, fan, items);
        let e = Edge { fan_id: fan, item_id: collapsed_item_id(items.last()) };
        assert(forall|k: int| 0 <= k < items.len() - 1 ==> items.drop_last()[k] == items[k]);
        assert forall|f: int, i: int| #[trigger] has_edge(res, f, i) implies (has_edge(es, f, i)
            || (f == fan as int && exists|k: int|
            0 <= k < items.len() && collapsed_item_id(#[trigger] items[k]) as int == i)) by {
            if has_edge(prev, e.fan_id as int, e.item_id as int) {
                assert(res == prev);
                if !has_edge(es, f, i) && has_edge(prev, f, i) {
                    let k = choose|k: int|
                        0 <= k < items.drop_last().len() && collapsed_item_id(
                            #[trigger] items.drop_last()[k],
                        ) as int == i;
                    assert(collapsed_item_id(items[k]) as int == i);
                }
            } else {
                assert(res == prev.push(e));
                let k0 = choose|k0: int|
                    0 <= k0 < res.len() && res[k0].fan_id == f && res[k0].item_id == i;
                if k0 == res.len() - 1 {
                    assert(res[k0] == e);
                    assert(collapsed_item_id(items[items.len() - 1]) as int == i);
                } else {
                    assert(prev[k0] == res[k0]);
                    assert(has_edge(prev, f, i));
                    if !has_edge(es, f, i) {
                        let k = choose|k: int|
                            0 <= k < items.drop_last().len() && collapsed_item_id(
                                #[trigger] items.drop_last()[k],
                            ) as int == i;
                        assert(collapsed_item_id(items[k]) as int == i);
                    }
                }
            }
        }
        assert forall|f: int, i: int|
            (has_edge(es, f, i) || (f == fan as int && exists|k: int|
                0 <= k < items.len() && collapsed_item_id(#[trigger] items[k]) as int
                    == i)) implies #[trigger] has_edge(res, f, i) by {
            if has_edge(es, f, i) {
                lemma_page_edges_grow(es, fan, items);
            } else {
                let k = choose|k: int|
                    0 <= k < items.len() && collapsed_item_id(#[trigger] items[k]) as int == i;
                if k < items.len() - 1 {
                    assert(collapsed_item_id(items.drop_last()[k]) as int == i);
                    assert(has_edge(prev, f, i));
                    if !has_edge(prev, e.fan_id as int, e.item_id as int) {
                        let j = choose|j: int|
                            0 <= j < prev.len() && prev[j].fan_id == f && prev[j].item_id == i;
                        assert(res[j] == prev[j]);
                    }
                } else {
                    if has_edge(prev, e.fan_id as int, e.item_id as int) {
                        assert(res == prev);
                    } else {
                        assert(res[res.len() - 1] == e);
                    }
                }
            }
        }
    }
}

/// Record a page of collection items for one fan: upsert every item
/// and its collects edge, and report the done signal.
pub fn apply_collection_items(store: &mut Store, fan_id: i64, items: &Vec<Item>) -> (done: bool)
    requires
        old(store).wf(),
        has_fan(old(store).collectors@, fan_id as int),
    ensures
        final(store).wf(),
        final(store).items@ == page_items_after(old(store).items@, items@),
        final(store).collects@ == page_edges_after(old(store).collects@, fan_id, items@),
        done == page_any_duplicate(old(store).collects@, fan_id, items@),
        crate::store::same_collectors(*old(store), *final(store)),
        crate::store::same_collected_by(*old(store), *final(store)),
        crate::store::same_queues(*old(store), *final(store)),
        crate::store::same_targets(*old(store), *final(store)),
{
    let mut done = false;
    let n = items.len();
    let mut k: usize = 0;
    while k < n
        invariant
            n == items@.len(),
            k <= n,
            store.wf(),
            has_fan(store.collectors@, fan_id as int),
            store.items@ == page_items_after(old(store).items@, items@.subrange(0, k as int)),
            store.collects@ == page_edges_after(
                old(store).collects@,
                fan_id,
                items@.subrange(0, k as int),
            ),
            done == page_any_duplicate(
                old(store).collects@,
                fan_id,
                items@.subrange(0, k as int),
            ),
            crate::store::same_collectors(*old(store), *store),
            crate::store::same_collected_by(*old(store), *store),
            crate::store::same_queues(*old(store), *store),
            crate::store::same_targets(*old(store), *store),
        decreases n - k,
    {
        proof {
            let pre = items@.subrange(0, k as int);
            let cur = items@.subrange(0, k as int + 1);
            assert(cur.drop_last() =~= pre);
            assert(cur.last() == items@[k as int]);
        }
        let newly = store.add_item_for_collector(fan_id, &items[k]);
        done = done || !newly;
        k += 1;
    }
    proof {
        assert(items@.subrange(0, n as int) =~= items@);
    }
    done
}

/// Record the initial page of a collector crawl: store the fan, apply
/// the embedded items, and decide whether the paginated endpoint
/// should be called — only when the done signal did not fire and the
/// remote reports more items than the embedded batch. The result is
/// the pagination token to continue with, if any.
pub fn apply_initial_collection_page(
    store: &mut Store,
    fan_data: &Collector,
    data: &CollectionData,
    items: &Vec<Item>,
) -> (r: Option<String>)
    requires
        old(store).wf(),
    ensures
        final(store).wf(),
        final(store).collectors@ == upsert_collector_rows(old(store).collectors@, *fan_data),
        final(store).items@ == page_items_after(old(store).items@, items@),
        final(store).collects@ == page_edges_after(
            old(store).collects@,
            fan_data.fan_id,
            items@,
        ),
        r == (if !page_any_duplicate(old(store).collects@, fan_data.fan_id, items@)
            && data.item_count > data.batch_size {
            data.last_token
        } else {
            None::<String>
        }),
        crate::store::same_collected_by(*old(store), *final(store)),
        crate::store::same_queues(*old(store), *final(store)),
        crate::store::same_targets(*old(store), *final(store)),
{
    store.add_collector(fan_data);
    let done = apply_collection_items(store, fan_data.fan_id, items);
    let more_available = !done && data.item_count > data.batch_size;
    if more_available {
        match &data.last_token {
            Some(t) => Some(t.clone()),
            None => None,
        }
    } else {
        None
    }
}

/// Record one page of the paginated collection endpoint and decide
/// how to continue: the token advances to the last item's token, and
/// the crawl continues only when the done signal did not fire and the
/// remote has more pages.
pub fn apply_collection_page(
    store: &mut Store,
    fan_id: i64,
    items: &Vec<Item>,
    more_available: bool,
    last_token: &String,
) -> (r: Option<String>)
    requires
        old(store).wf(),
        has_fan(old(store).collectors@, fan_id as int),
        forall|k: int| 0 <= k < items@.len() ==> (#[trigger] items@[k]).token.is_some(),
    ensures
        final(store).wf(),
        final(store).items@ == page_items_after(old(store).items@, items@),
        final(store).collects@ == page_edges_after(old(store).collects@, fan_id, items@),
        r == (if page_any_duplicate(old(store).collects@, fan_id, items@) || !more_available {
            None::<String>
        } else if items@.len() > 0 {
            Some(items@.last().token.unwrap())
        } else {
            Some(*last_token)
        }),
        crate::store::same_collectors(*old(store), *final(store)),
        crate::store::same_collected_by(*old(store), *final(store)),
        crate::store::same_queues(*old(store), *final(store)),
        crate::store::same_targets(*old(store), *final(store)),
{
    let done = apply_collection_items(store, fan_id, items);
    if done || !more_available {
        None
    } else if items.len() > 0 {
        match &items[items.len() - 1].token {
            Some(t) => Some(t.clone()),
            None => {
                proof {
                    assert(items@[items@.len() - 1].token.is_some());
                }
                None
            },
        }
    } else {
        Some(last_token.clone())
    }
}

/// Marking a crawl done changes no username and no fan id, so
/// username resolution is unchanged.
pub proof fn lemma_mark_preserves_lookup(
    rows: Seq<CollectorRow>,
    marked: Seq<char>,
    now: i64,
    name: Seq<char>,
)
    ensures
        fan_for_username(mark_collector_rows(rows, marked, now), name) == fan_for_username(
            rows,
            name,
        ),
    decreases rows.len(),
{
    let m = mark_collector_rows(rows, marked, now);
    if rows.len() > 0 {
        lemma_mark_preserves_lookup(rows.drop_first(), marked, now, name);
        assert(m.drop_first() =~= mark_collector_rows(rows.drop_first(), marked, now));
        assert(m.first().username == rows.first().username);
        assert(m.first().fan_id == rows.first().fan_id);
    }
}

/// The worker's bookkeeping after a collector crawl attempt. Success
/// and not-found mark the collector done and dequeue it; a rate limit
/// rolls the fan's edges back and asks the worker to back off; any
/// other failure leaves everything as it was for a retry.
pub fn apply_collector_outcome(
    store: &mut Store,
    name: &String,
    outcome: &Result<(), Error>,
    now: i64,
) -> (action: WorkerAction)
    requires
        old(store).wf(),
        now >= 0,
    ensures
        final(store).wf(),
        action == (match outcome {
            Err(Error::RateLimit) => WorkerAction::Backoff,
            _ => WorkerAction::Proceed,
        }),
        (match outcome {
            Ok(()) | Err(Error::NotFoundError) => {
                &&& final(store).collectors@ == mark_collector_rows(
                    old(store).collectors@,
                    name@,
                    now,
                )
                &&& final(store).collection_queue@ == (match fan_for_username(
                    old(store).collectors@,
                    name@,
                ) {
                    Some(fan) => drop_key(old(store).collection_queue@, fan),
                    None => old(store).collection_queue@,
                })
                &&& final(store).item_queue@ == old(store).item_queue@
                &&& crate::store::same_items(*old(store), *final(store))
                &&& crate::store::same_collects(*old(store), *final(store))
                &&& crate::store::same_collected_by(*old(store), *final(store))
                &&& crate::store::same_targets(*old(store), *final(store))
            },
            Err(Error::RateLimit) => {
                &&& final(store).collects@ == (match fan_for_username(
                    old(store).collectors@,
                    name@,
                ) {
                    Some(fan) => crate::store::drop_fan_edges(old(store).collects@, fan),
                    None => old(store).collects@,
                })
                &&& crate::store::same_collectors(*old(store), *final(store))
                &&& crate::store::same_items(*old(store), *final(store))
                &&& crate::store::same_collected_by(*old(store), *final(store))
                &&& crate::store::same_queues(*old(store), *final(store))
                &&& crate::store::same_targets(*old(store), *final(store))
            },
            Err(_) => *final(store) == *old(store),
        }),
{
    match outcome {
        Ok(()) => {
            store.mark_collector_done(name, now);
            proof {
                lemma_mark_preserves_lookup(old(store).collectors@, name@, now, name@);
            }
            store.remove_collector_from_queue(name);
            WorkerAction::Proceed
        },
        Err(Error::NotFoundError) => {
            store.mark_collector_done(name, now);
            proof {
                lemma_mark_preserves_lookup(old(store).collectors@, name@, now, name@);
            }
            store.remove_collector_from_queue(name);
            WorkerAction::Proceed
        },
        Err(Error::RateLimit) => {
            store.remove_collects(name);
            WorkerAction::Backoff
        },
        Err(_) => WorkerAction::Proceed,
    }
}

} // verus!