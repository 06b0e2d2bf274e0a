//! Planning and tracking of recommendation requests.
//!
//! A request for a fan expands into two stages of crawl work: stage 1
//! refreshes every stale item the fan collects, stage 2 refreshes
//! every stale collector discovered through those items. The target
//! row records the remaining work; its total only ever grows within a
//! stage, and the target is deleted once both stages are empty.

use vstd::prelude::*;
use crate::store::{
    drop_target, has_edge, stale_fan, stale_item, upsert_target_rows, vec_contains_key, Edge,
    ItemRow, Store,
};
use crate::types::Target;

verus! {

/// Estimated seconds of crawl work per stale item of stage 1.
pub const STAGE_1_PER_ITEM: i64 = 2;

/// Estimated seconds of crawl work per stale collector of stage 2.
pub const STAGE_2_PER_ITEM: i64 = 3;

/// A count clamped into the signed range a target row stores.
pub open spec fn sat_i64(n: int) -> int {
    if n > i64::MAX {
        i64::MAX as int
    } else {
        n
    }
}

/// A product clamped into the signed range a target row stores.
pub open spec fn sat_mul(n: int, per: int) -> int {
    if n * per > i64::MAX {
        i64::MAX as int
    } else {
        n * per
    }
}

fn sat_count(n: usize) -> (c: i64)
    ensures
        c as int == sat_i64(n as int),
{
    if (n as u64) > (i64::MAX as u64) {
        i64::MAX
    } else {
        n as i64
    }
}

fn sat_eta(n: usize, per: i64) -> (e: i64)
    requires
        1 <= per,
    ensures
        e as int == sat_mul(n as int, per as int),
{
    let c = sat_count(n);
    match c.checked_mul(per) {
        Some(v) => {
            proof {
                if (n as int) > i64::MAX {
                    assert(per as int == 1) by (nonlinear_arith)
                        requires
                            (c as int) == i64::MAX,
                            (c as int) * (per as int) <= i64::MAX,
                            per as int >= 1,
                    ;
                    assert((n as int) * (per as int) == n as int) by (nonlinear_arith)
                        requires
                            per as int == 1,
                    ;
                }
            }
            v
        },
        None => {
            proof {
                if (n as int) <= i64::MAX {
                } else {
                    assert((n as int) * (per as int) >= (c as int) * (per as int))
                        by (nonlinear_arith)
                        requires
                            (n as int) >= (c as int),
                            per >= 1,
                    ;
                }
            }
            i64::MAX
        },
    }
}

/// The stage-1 requirement list of a fan: the items the fan collects
/// whose row is stale, in edge-table order.
pub open spec fn stage1_reqs(es: Seq<Edge>, items: Seq<ItemRow>, fan: i64, now: int) -> Seq<i64>
    decreases es.len(),
{
    if es.len() == 0 {
        Seq::empty()
    } else {
        let rest = stage1_reqs(es.drop_last(), items, fan, now);
        if es.last().fan_id == fan && stale_item(items, es.last().item_id as int, now) {
            rest.push(es.last().item_id)
        } else {
            rest
        }
    }
}

/// Compute the stage-1 requirements of a fan.
pub fn get_stage_1_requirements(store: &Store, fan_id: i64, now: i64) -> (r: Vec<i64>)
    requires
        store.wf(),
        now >= 0,
    ensures
        r@ == stage1_reqs(store.collects@, store.items@, fan_id, now as int),
{
    let mut out: Vec<i64> = Vec::new();
    let n = store.collects.len();
    let mut k: usize = 0;
    while k < n
        invariant
            store.wf(),
            now >= 0,
            n == store.collects@.len(),
            k <= n,
            out@ == stage1_reqs(
                store.collects@.subrange(0, k as int),
                store.items@,
                fan_id,
                now as int,
            ),
        decreases n - k,
    {
        proof {
            let pre = store.collects@.subrange(0, k as int);
            let cur = store.collects@.subrange(0, k as int + 1);
            assert(cur.drop_last() =~= pre);
            assert(cur.last() == store.collects@[k as int]);
        }
        let e = store.collects[k];
        if e.fan_id == fan_id {
            if store.item_stale(e.item_id, now) {
                out.push(e.item_id);
            }
        }
        k += 1;
    }
    proof {
        assert(store.collects@.subrange(0, n as int) =~= store.collects@);
    }
    out
}

/// How many collected-by edges tie user `u` to items the target fan
/// collects.
pub open spec fn shared_cb_count(cb: Seq<Edge>, cs: Seq<Edge>, target: i64, u: i64) -> nat
    decreases cb.len(),
{
    if cb.len() == 0 {
        0
    } else {
        shared_cb_count(cb.drop_last(), cs, target, u) + (if cb.last().fan_id == u && has_edge(
            cs,
            target as int,
            cb.last().item_id as int,
        ) {
            1nat
        } else {
            0nat
        })
    }
}

/// A user belongs to stage 2 of a target iff it is another user whose
/// collector row is stale and who shares at least two collected items
/// with the target fan.
pub open spec fn stage2_qualifies(s: Store, target: i64, u: i64, now: int) -> bool {
    u != target && stale_fan(s.collectors@, u as int, now) && shared_cb_count(
        s.collected_by@,
        s.collects@,
        target,
        u,
    ) >= 2
}

/// The stage-2 requirement list drawn from the first `k` collected-by
/// edges: qualifying users in first-occurrence order, each once.
pub open spec fn stage2_reqs_upto(s: Store, target: i64, now: int, k: int) -> Seq<i64>
    decreases k,
{
    if k <= 0 {
        Seq::empty()
    } else {
        let rest = stage2_reqs_upto(s, target, now, k - 1);
        let u = s.collected_by@[k - 1].fan_id;
        if stage2_qualifies(s, target, u, now) && !rest.contains(u) {
            rest.push(u)
        } else {
            rest
        }
    }
}

/// The stage-2 requirement list of a fan.
pub open spec fn stage2_reqs(s: Store, target: i64, now: int) -> Seq<i64> {
    stage2_reqs_upto(s, target, now, s.collected_by@.len() as int)
}

fn count_shared(store: &Store, target: i64, u: i64) -> (c: u64)
    ensures
        c == shared_cb_count(store.collected_by@, store.collects@, target, u),
{
    let mut count: u64 = 0;
    let n = store.collected_by.len();
    let mut k: usize = 0;
    while k < n
        invariant
            n == store.collected_by@.len(),
            k <= n,
            count <= k,
            count == shared_cb_count(
                store.collected_by@.subrange(0, k as int),
                store.collects@,
                target,
                u,
            ),
        decreases n - k,
    {
        proof {
            let pre = store.collected_by@.subrange(0, k as int);
            let cur = store.collected_by@.subrange(0, k as int + 1);
            assert(cur.drop_last() =~= pre);
            assert(cur.last() == store.collected_by@[k as int]);
        }
        let e = store.collected_by[k];
        if e.fan_id == u {
            if crate::store::find_edge(&store.collects, target, e.item_id) {
                count += 1;
            }
        }
        k += 1;
    }
    proof {
        assert(store.collected_by@.subrange(0, n as int) =~= store.collected_by@);
    }
    count
}

/// Compute the stage-2 requirements of a fan.
pub fn get_stage_2_requirements(store: &Store, fan_id: i64, now: i64) -> (r: Vec<i64>)
    requires
        store.wf(),
        now >= 0,
    ensures
        r@ == stage2_reqs(*store, fan_id, now as int),
{
    let mut out: Vec<i64> = Vec::new();
    let n = store.collected_by.len();
    let mut k: usize = 0;
    while k < n
        invariant
            store.wf(),
            now >= 0,
            n == store.collected_by@.len(),
            k <= n,
            out@ == stage2_reqs_upto(*store, fan_id, now as int, k as int),
        decreases n - k,
    {
        let u = store.collected_by[k].fan_id;
        if !vec_contains_key(&out, u) {
            if u != fan_id && store.fan_stale(u, now) {
                let c = count_shared(store, fan_id, u);
                if c >= 2 {
                    out.push(u);
                }
            }
        }
        k += 1;
    }
    out
}

/// Every entry of the stage-2 list qualifies, every qualifying user
/// is listed, and no user is listed twice.
pub proof fn lemma_stage2_reqs_elems(s: Store, target: i64, now: int)
    ensures
        forall|u: i64|
            #[trigger] stage2_reqs(s, target, now).contains(u) <==> stage2_qualifies(
                s,
                target,
                u,
                now,
            ),
        crate::store::unique_keys(stage2_reqs(s, target, now)),
{
    lemma_stage2_upto(s, target, now, s.collected_by@.len() as int);
    assert forall|u: i64| stage2_qualifies(s, target, u, now) implies #[trigger] stage2_reqs(
        s,
        target,
        now,
    ).contains(u) by {
        lemma_shared_count_witness(s.collected_by@, s.collects@, target, u);
    };
}

proof fn lemma_stage2_upto(s: Store, target: i64, now: int, k: int)
    requires
        0 <= k <= s.collected_by@.len(),
    ensures
        forall|u: i64|
            #[trigger] stage2_reqs_upto(s, target, now, k).contains(u) <==> (stage2_qualifies(
                s,
                target,
                u,
                now,
            ) && exists|j: int| 0 <= j < k && s.collected_by@[j].fan_id == u),
        crate::store::unique_keys(stage2_reqs_upto(s, target, now, k)),
    decreases k,
{
    if k > 0 {
        lemma_stage2_upto(s, target, now, k - 1);
        let rest = stage2_reqs_upto(s, target, now, k - 1);
        let res = stage2_reqs_upto(s, target, now, k);
        let u0 = s.collected_by@[k - 1].fan_id;
        assert forall|u: i64| #[trigger] res.contains(u) implies (stage2_qualifies(
            s,
            target,
            u,
            now,
        ) && exists|j: int| 0 <= j < k && s.collected_by@[j].fan_id == u) by {
            let i = choose|i: int| 0 <= i < res.len() && res[i] == u;
            if stage2_qualifies(s, target, u0, now) && !rest.contains(u0) && i == res.len() - 1 {
                assert(u == u0);
                assert(s.collected_by@[k - 1].fan_id == u);
            } else {
                assert(rest.contains(u)) by {
                    assert(rest[i] == res[i]);
                }
            }
        };
        assert forall|u: i64|
            stage2_qualifies(s, target, u, now) && (exists|j: int|
                0 <= j < k && s.collected_by@[j].fan_id == u) implies #[trigger] res.contains(
            u,
        ) by {
            let j = choose|j: int| 0 <= j < k && s.collected_by@[j].fan_id == u;
            if j < k - 1 {
                assert(rest.contains(u));
                let i = choose|i: int| 0 <= i < rest.len() && rest[i] == u;
                if stage2_qualifies(s, target, u0, now) && !rest.contains(u0) {
                    assert(res[i] == rest[i]);
                } else {
                    assert(res == rest);
                }
            } else {
                assert(u == u0);
                if rest.contains(u0) {
                    let i = choose|i: int| 0 <= i < rest.len() && rest[i] == u0;
                    if stage2_qualifies(s, target, u0, now) && !rest.contains(u0) {
                    } else {
                        assert(res == rest);
                        assert(res.contains(u));
                    }
                } else {
                    assert(res[res.len() - 1] == u0);
                }
            }
        };
        if stage2_qualifies(s, target, u0, now) && !rest.contains(u0) {
            assert(crate::store::unique_keys(res)) by {
                assert(forall|i: int| 0 <= i < rest.len() ==> res[i] == rest[i]);
                assert(res[res.len() - 1] == u0);
                assert forall|a: int, b: int| 0 <= a < b < res.len() implies res[a] != res[b] by {
                    if b == res.len() - 1 {
                        assert(rest.contains(rest[a]));
                    }
                }
            }
        }
    }
}

proof fn lemma_shared_count_witness(cb: Seq<Edge>, cs: Seq<Edge>, target: i64, u: i64)
    ensures
        shared_cb_count(cb, cs, target, u) >= 1 ==> exists|j: int|
            0 <= j < cb.len() && cb[j].fan_id == u,
    decreases cb.len(),
{
    if cb.len() > 0 {
        lemma_shared_count_witness(cb.drop_last(), cs, target, u);
        if shared_cb_count(cb, cs, target, u) >= 1 {
            if cb.last().fan_id == u && has_edge(cs, target as int, cb.last().item_id as int) {
                assert(cb[cb.len() - 1].fan_id == u);
            } else {
                let j = choose|j: int|
                    0 <= j < cb.drop_last().len() && cb.drop_last()[j].fan_id == u;
                assert(cb[j].fan_id == u);
            }
        }
    }
}

/// A queue after a batch of idempotent enqueues, in batch order.
pub open spec fn enqueue_all(q: Seq<i64>, xs: Seq<i64>) -> Seq<i64>
    decreases xs.len(),
{
    if xs.len() == 0 {
        q
    } else {
        let prev = enqueue_all(q, xs.drop_last());
        if prev.contains(xs.last()) {
            prev
        } else {
            prev.push(xs.last())
        }
    }
}

/// A batch of idempotent enqueues reaches exactly the keys that were
/// queued or in the batch.
pub proof fn lemma_enqueue_all_elems(q: Seq<i64>, xs: Seq<i64>)
    ensures
        forall|x: i64| #[trigger] enqueue_all(q, xs).contains(x) <==> q.contains(x) || xs.contains(
            x,
        ),
    decreases xs.len(),
{
    if xs.len() > 0 {
        lemma_enqueue_all_elems(q, xs.drop_last());
        let prev = enqueue_all(q, xs.drop_last());
        let res = enqueue_all(q, xs);
        assert(forall|j: int|
            0 <= j < xs.drop_last().len() ==> xs.contains(#[trigger] xs.drop_last()[j])) by {
            assert(forall|j: int| 0 <= j < xs.drop_last().len() ==> xs.drop_last()[j] == xs[j]);
        }
        assert(xs.contains(xs.last())) by {
            assert(xs[xs.len() - 1] == xs.last());
        }
        assert forall|x: i64| #[trigger] res.contains(x) implies q.contains(x) || xs.contains(
            x,
        ) by {
            let i = choose|i: int| 0 <= i < res.len() && res[i] == x;
            if !prev.contains(xs.last()) && i == res.len() - 1 {
                assert(x == xs.last());
            } else {
                assert(prev.contains(x)) by {
                    assert(prev[i] == res[i]);
                }
            }
        };
        assert forall|x: i64| q.contains(x) || xs.contains(x) implies #[trigger] res.contains(
            x,
        ) by {
            if prev.contains(x) {
                let i = choose|i: int| 0 <= i < prev.len() && prev[i] == x;
                if prev.contains(xs.last()) {
                    assert(res == prev);
                } else {
                    assert(res[i] == prev[i]);
                }
            } else {
                if q.contains(x) {
                    assert(prev.contains(x));
                } else {
                    let j = choose|j: int| 0 <= j < xs.len() && xs[j] == x;
                    if j < xs.len() - 1 {
                        assert(xs.drop_last()[j] == x);
                        assert(xs.drop_last().contains(x));
                        assert(prev.contains(x));
                    } else {
                        assert(x == xs.last());
                        assert(res[res.len() - 1] == xs.last());
                    }
                }
            }
        };
    }
}

fn enqueue_items(store: &mut Store, xs: &Vec<i64>)
    requires
        old(store).wf(),
    ensures
        final(store).wf(),
        final(store).item_queue@ == enqueue_all(old(store).item_queue@, xs@),
        final(store).collection_queue@ == old(store).collection_queue@,
        crate::store::same_collectors(*old(store), *final(store)),
        crate::store::same_items(*old(store), *final(store)),
        crate::store::same_collects(*old(store), *final(store)),
        crate::store::same_collected_by(*old(store), *final(store)),
        crate::store::same_targets(*old(store), *final(store)),
{
    let n = xs.len();
    let mut k: usize = 0;
    while k < n
        invariant
            n == xs@.len(),
            k <= n,
            store.wf(),
            store.item_queue@ == enqueue_all(old(store).item_queue@, xs@.subrange(0, k as int)),
            store.collection_queue@ == old(store).collection_queue@,
            crate::store::same_collectors(*old(store), *store),
            crate::store::same_items(*old(store), *store),
            crate::store::same_collects(*old(store), *store),
            crate::store::same_collected_by(*old(store), *store),
            crate::store::same_targets(*old(store), *store),
        decreases n - k,
    {
        proof {
            let pre = xs@.subrange(0, k as int);
            let cur = xs@.subrange(0, k as int + 1);
            assert(cur.drop_last() =~= pre);
            assert(cur.last() == xs@[k as int]);
        }
        store.insert_to_collected_by_queue(xs[k]);
        k += 1;
    }
    proof {
        assert(xs@.subrange(0, n as int) =~= xs@);
    }
}

fn enqueue_collectors(store: &mut Store, xs: &Vec<i64>)
    requires
        old(store).wf(),
    ensures
        final(store).wf(),
        final(store).collection_queue@ == enqueue_all(old(store).collection_queue@, xs@),
        final(store).item_queue@ == old(store).item_queue@,
        crate::store::same_collectors(*old(store), *final(store)),
        crate::store::same_items(*old(store), *final(store)),
        crate::store::same_collects(*old(store), *final(store)),
        crate::store::same_collected_by(*old(store), *final(store)),
        crate::store::same_targets(*old(store), *final(store)),
{
    let n = xs.len();
    let mut k: usize = 0;
    while k < n
        invariant
            n == xs@.len(),
            k <= n,
            store.wf(),
            store.collection_queue@ == enqueue_all(
                old(store).collection_queue@,
                xs@.subrange(0, k as int),
            ),
            store.item_queue@ == old(store).item_queue@,
            crate::store::same_collectors(*old(store), *store),
            crate::store::same_items(*old(store), *store),
            crate::store::same_collects(*old(store), *store),
            crate::store::same_collected_by(*old(store), *store),
            crate::store::same_targets(*old(store), *store),
        decreases n - k,
    {
        proof {
            let pre = xs@.subrange(0, k as int);
            let cur = xs@.subrange(0, k as int + 1);
            assert(cur.drop_last() =~= pre);
            assert(cur.last() == xs@[k as int]);
        }
        store.insert_to_collection_queue(xs[k]);
        k += 1;
    }
    proof {
        assert(xs@.subrange(0, n as int) =~= xs@);
    }
}

/// What a stage-2 pass leaves behind: with work left, the target is
/// upserted at stage 2 and (on first entry) the collectors are
/// enqueued; with none, the target is deleted.
pub open spec fn stage2_outcome(pre: Store, post: Store, fan_id: i64, old_count: Option<
    i64,
>, now: int) -> bool {
    let r2 = stage2_reqs(pre, fan_id, now);
    &&& (r2.len() > 0 ==> {
        &&& post.targets@ == upsert_target_rows(
            pre.targets@,
            fan_id,
            2,
            sat_i64(r2.len() as int) as i64,
            (match old_count {
                Some(c) => c,
                None => sat_i64(r2.len() as int) as i64,
            }),
            sat_mul(r2.len() as int, STAGE_2_PER_ITEM as int) as i64,
        )
        &&& post.collection_queue@ == (if old_count.is_none() {
            enqueue_all(pre.collection_queue@, r2)
        } else {
            pre.collection_queue@
        })
    })
    &&& (r2.len() == 0 ==> {
        &&& post.targets@ == drop_target(pre.targets@, fan_id)
        &&& post.collection_queue@ == pre.collection_queue@
    })
    &&& post.item_queue@ == pre.item_queue@
    &&& crate::store::same_collectors(pre, post)
    &&& crate::store::same_items(pre, post)
    &&& crate::store::same_collects(pre, post)
    &&& crate::store::same_collected_by(pre, post)
}

/// Run a stage-2 pass for a fan: recompute the requirements, then
/// upsert or delete the target, enqueuing work on first entry into
/// the stage.
pub fn handle_stage_2(store: &mut Store, fan_id: i64, old_count: Option<i64>, now: i64)
    requires
        old(store).wf(),
        now >= 0,
    ensures
        final(store).wf(),
        stage2_outcome(*old(store), *final(store), fan_id, old_count, now as int),
{
    let requirements = get_stage_2_requirements(store, fan_id, now);
    if requirements.len() > 0 {
        let count = sat_count(requirements.len());
        let total = match old_count {
            Some(c) => c,
            None => count,
        };
        let eta = sat_eta(requirements.len(), STAGE_2_PER_ITEM);
        store.insert_target(fan_id, 2, count, total, eta);
        if old_count.is_none() {
            enqueue_collectors(store, &requirements);
        }
    } else {
        store.delete_target(fan_id);
    }
}

/// What a stage-1 pass leaves behind: with work left, the target is
/// upserted at stage 1 and (on first entry) the items are enqueued;
/// with none, the pass falls through to a first-entry stage-2 pass.
pub open spec fn stage1_outcome(pre: Store, post: Store, fan_id: i64, old_count: Option<
    i64,
>, now: int) -> bool {
    let r1 = stage1_reqs(pre.collects@, pre.items@, fan_id, now);
    &&& (r1.len() > 0 ==> {
        &&& post.targets@ == upsert_target_rows(
            pre.targets@,
            fan_id,
            1,
            sat_i64(r1.len() as int) as i64,
            (match old_count {
                Some(c) => c,
                None => sat_i64(r1.len() as int) as i64,
            }),
            sat_mul(r1.len() as int, STAGE_1_PER_ITEM as int) as i64,
        )
        &&& post.item_queue@ == (if old_count.is_none() {
            enqueue_all(pre.item_queue@, r1)
        } else {
            pre.item_queue@
        })
        &&& post.collection_queue@ == pre.collection_queue@
        &&& crate::store::same_collectors(pre, post)
        &&& crate::store::same_items(pre, post)
        &&& crate::store::same_collects(pre, post)
        &&& crate::store::same_collected_by(pre, post)
    })
    &&& (r1.len() == 0 ==> stage2_outcome(pre, post, fan_id, None, now))
}

/// Run a stage-1 pass for a fan; when stage 1 has no work left, fall
/// through to stage 2.
pub fn handle_stage_1(store: &mut Store, fan_id: i64, old_count: Option<i64>, now: i64)
    requires
        old(store).wf(),
        now >= 0,
    ensures
        final(store).wf(),
        stage1_outcome(*old(store), *final(store), fan_id, old_count, now as int),
{
    let requirements = get_stage_1_requirements(store, fan_id, now);
    if requirements.len() > 0 {
        let count = sat_count(requirements.len());
        let total = match old_count {
            Some(c) => c,
            None => count,
        };
        let eta = sat_eta(requirements.len(), STAGE_1_PER_ITEM);
        store.insert_target(fan_id, 1, count, total, eta);
        if old_count.is_none() {
            enqueue_items(store, &requirements);
        }
    } else {
        handle_stage_2(store, fan_id, None, now);
    }
}

/// Register a recommendation request: plan the stages and return the
/// resulting target, or the stage-3 sentinel when nothing is left to
/// crawl.
pub fn add_target(store: &mut Store, fan_id: i64, now: i64) -> (r: Target)
    requires
        old(store).wf(),
        now >= 0,
    ensures
        final(store).wf(),
        stage1_outcome(*old(store), *final(store), fan_id, None, now as int),
        crate::store::has_target(final(store).targets@, fan_id as int) ==> r
            == crate::store::target_row_for(final(store).targets@, fan_id as int),
        !crate::store::has_target(final(store).targets@, fan_id as int) ==> r == (Target {
            fan_id,
            stage: 3,
            count_left: 0,
            count_total: 0,
            eta: 0,
        }),
{
    handle_stage_1(store, fan_id, None, now);
    store.get_target(fan_id)
}

/// One background tick for one fan: re-run the pass of the stage its
/// target is in; a stage-3 or missing target is left alone.
pub fn update_target(store: &mut Store, fan_id: i64, now: i64)
    requires
        old(store).wf(),
        now >= 0,
    ensures
        final(store).wf(),
        (crate::store::has_target(old(store).targets@, fan_id as int)
            && crate::store::target_row_for(old(store).targets@, fan_id as int).stage == 1)
            ==> stage1_outcome(
            *old(store),
            *final(store),
            fan_id,
            Some(
                crate::store::target_row_for(old(store).targets@, fan_id as int).count_total,
            ),
            now as int,
        ),
        (crate::store::has_target(old(store).targets@, fan_id as int)
            && crate::store::target_row_for(old(store).targets@, fan_id as int).stage == 2)
            ==> stage2_outcome(
            *old(store),
            *final(store),
            fan_id,
            Some(
                crate::store::target_row_for(old(store).targets@, fan_id as int).count_total,
            ),
            now as int,
        ),
        (!crate::store::has_target(old(store).targets@, fan_id as int)
            || (crate::store::target_row_for(old(store).targets@, fan_id as int).stage != 1
            && crate::store::target_row_for(old(store).targets@, fan_id as int).stage != 2))
            ==> *final(store) == *old(store),
{
    let target = store.get_target(fan_id);
    if target.stage == 1 {
        handle_stage_1(store, fan_id, Some(target.count_total), now);
    } else if target.stage == 2 {
        handle_stage_2(store, fan_id, Some(target.count_total), now);
    }
}

} // verus!
