//! The recommender: a pure scoring pass over the bipartite collection
//! graph.
//!
//! Every user who shares at least two collected items with the target
//! user contributes the weight `overlap ^ similar_boost` to each item
//! of theirs the target does not collect; items are ranked by
//! accumulated score and the top 50 are returned. Scores are held in
//! fixed point with [`SCORE_SCALE`] as the unit, so the whole pass is
//! integer arithmetic; only a user whose weight strictly exceeds one
//! unit contributes.

use vstd::prelude::*;
use crate::store::{has_edge, item_of_row, item_row_for, Edge, Store};
use crate::types::Item;
use crate::Error;

verus! {

/// Fixed-point unit of recommendation scores: this value stands for
/// the real weight 1.0.
pub const SCORE_SCALE: u64 = 1000000;

/// One relevant user of a recommendation pass: a fan and every item
/// it collects.
pub struct UserItems {
    pub fan_id: i64,
    pub items: Vec<i64>,
}

/// One recommended item id with its accumulated fixed-point score.
#[derive(Clone, Copy, Debug, PartialEq, Eq, Structural)]
pub struct ScoredId {
    pub item_id: i64,
    pub score: u64,
}

/// A recommended item with its fixed-point score attached.
pub struct ScoredItem {
    pub item: Item,
    pub score: u64,
}

/// The count of `pre`'s edges that belong to user `u` and whose item
/// the target collects; membership is tested in the whole relation
/// `cs`.
pub open spec fn shared_count_with(pre: Seq<Edge>, cs: Seq<Edge>, target: i64, u: i64) -> nat
    decreases pre.len(),
{
    if pre.len() == 0 {
        0
    } else {
        shared_count_with(pre.drop_last(), cs, target, u) + (if pre.last().fan_id == u
            && has_edge(cs, target as int, pre.last().item_id as int) {
            1nat
        } else {
            0nat
        })
    }
}

/// How many collects edges tie user `u` to items the target fan
/// collects.
pub open spec fn shared_collects_count(cs: Seq<Edge>, target: i64, u: i64) -> nat {
    shared_count_with(cs, cs, target, u)
}

/// A user is relevant to a target iff it shares at least two
/// collected items with it; the target itself qualifies through its
/// own collection.
pub open spec fn relevant_user(cs: Seq<Edge>, target: i64, u: i64) -> bool {
    shared_collects_count(cs, target, u) >= 2
}

/// The items a fan collects, in edge-table order.
pub open spec fn items_of_fan(cs: Seq<Edge>, u: i64) -> Seq<i64>
    decreases cs.len(),
{
    if cs.len() == 0 {
        Seq::empty()
    } else {
        let rest = items_of_fan(cs.drop_last(), u);
        if cs.last().fan_id == u {
            rest.push(cs.last().item_id)
        } else {
            rest
        }
    }
}

/// The relevant fans drawn from the first `k` collects edges, in
/// first-occurrence order, each once.
pub open spec fn relevant_fans_upto(cs: Seq<Edge>, target: i64, k: int) -> Seq<i64>
    decreases k,
{
    if k <= 0 {
        Seq::empty()
    } else {
        let rest = relevant_fans_upto(cs, target, k - 1);
        let u = cs[k - 1].fan_id;
        if relevant_user(cs, target, u) && !rest.contains(u) {
            rest.push(u)
        } else {
            rest
        }
    }
}

/// The relevant fans of a target, in first-occurrence order.
pub open spec fn relevant_fans(cs: Seq<Edge>, target: i64) -> Seq<i64> {
    relevant_fans_upto(cs, target, cs.len() as int)
}

/// Every listed fan is relevant, every relevant fan with an edge is
/// listed, and none is listed twice.
pub proof fn lemma_relevant_fans_elems(cs: Seq<Edge>, target: i64)
    ensures
        forall|u: i64|
            #[trigger] relevant_fans(cs, target).contains(u) <==> relevant_user(cs, target, u),
        crate::store::unique_keys(relevant_fans(cs, target)),
{
    lemma_relevant_upto(cs, target, cs.len() as int);
    assert forall|u: i64| relevant_user(cs, target, u) implies #[trigger] relevant_fans(
        cs,
        target,
    ).contains(u) by {
        lemma_shared_collects_witness(cs, target, u);
    };
}

proof fn lemma_relevant_upto(cs: Seq<Edge>, target: i64, k: int)
    requires
        0 <= k <= cs.len(),
    ensures
        forall|u: i64|
            #[trigger] relevant_fans_upto(cs, target, k).contains(u) <==> (relevant_user(
                cs,
                target,
                u,
            ) && exists|j: int| 0 <= j < k && cs[j].fan_id == u),
        crate::store::unique_keys(relevant_fans_upto(cs, target, k)),
    decreases k,
{
    if k > 0 {
        lemma_relevant_upto(cs, target, k - 1);
        let rest = relevant_fans_upto(cs, target, k - 1);
        let res = relevant_fans_upto(cs, target, k);
        let u0 = cs[k - 1].fan_id;
        assert forall|u: i64| #[trigger] res.contains(u) implies (relevant_user(cs, target, u)
            && exists|j: int| 0 <= j < k && cs[j].fan_id == u) by {
            let i = choose|i: int| 0 <= i < res.len() && res[i] == u;
            if relevant_user(cs, target, u0) && !rest.contains(u0) && i == res.len() - 1 {
                assert(u == u0);
                assert(cs[k - 1].fan_id == u);
            } else {
                assert(rest.contains(u)) by {
                    assert(rest[i] == res[i]);
                }
            }
        };
        assert forall|u: i64|
            relevant_user(cs, target, u) && (exists|j: int| 0 <= j < k && cs[j].fan_id == u)
            implies #[trigger] res.contains(u) by {
            let j = choose|j: int| 0 <= j < k && cs[j].fan_id == u;
            if j < k - 1 {
                assert(rest.contains(u));
                let i = choose|i: int| 0 <= i < rest.len() && rest[i] == u;
                if relevant_user(cs, target, u0) && !rest.contains(u0) {
                    assert(res[i] == rest[i]);
                } else {
                    assert(res == rest);
                }
            } else {
                assert(u == u0);
                if rest.contains(u0) {
                    if relevant_user(cs, target, u0) && !rest.contains(u0) {
                    } else {
                        assert(res == rest);
                        assert(res.contains(u));
                    }
                } else {
                    assert(res[res.len() - 1] == u0);
                }
            }
        };
        if relevant_user(cs, target, u0) && !rest.contains(u0) {
            assert(crate::store::unique_keys(res)) by {
                assert(forall|i: int| 0 <= i < rest.len() ==> res[i] == rest[i]);
                assert(res[res.len() - 1] == u0);
                assert forall|a: int, b: int| 0 <= a < b < res.len() implies res[a] != res[b] by {
                    if b == res.len() - 1 {
                        assert(rest.contains(rest[a]));
                    }
                }
            }
        }
    }
}

proof fn lemma_shared_collects_witness(cs: Seq<Edge>, target: i64, u: i64)
    ensures
        shared_collects_count(cs, target, u) >= 1 ==> exists|j: int|
            0 <= j < cs.len() && cs[j].fan_id == u,
{
    lemma_shared_with_witness(cs, cs, target, u);
}

proof fn lemma_shared_with_witness(pre: Seq<Edge>, cs: Seq<Edge>, target: i64, u: i64)
    ensures
        shared_count_with(pre, cs, target, u) >= 1 ==> exists|j: int|
            0 <= j < pre.len() && pre[j].fan_id == u,
    decreases pre.len(),
{
    if pre.len() > 0 {
        lemma_shared_with_witness(pre.drop_last(), cs, target, u);
        if shared_count_with(pre, cs, target, u) >= 1 {
            if pre.last().fan_id == u && has_edge(cs, target as int, pre.last().item_id as int) {
                assert(pre[pre.len() - 1].fan_id == u);
            } else {
                let j = choose|j: int|
                    0 <= j < pre.drop_last().len() && pre.drop_last()[j].fan_id == u;
                assert(pre[j].fan_id == u);
            }
        }
    }
}

fn count_shared_collects(store: &Store, target: i64, u: i64) -> (c: u64)
    ensures
        c == shared_collects_count(store.collects@, target, u),
{
    let mut count: u64 = 0;
    let n = store.collects.len();
    let mut k: usize = 0;
    while k < n
        invariant
            n == store.collects@.len(),
            k <= n,
            count <= k,
            count == shared_count_with(
                store.collects@.subrange(0, k as int),
                store.collects@,
                target,
                u,
            ),
        decreases n - k,
    {
        proof {
            let pre = store.collects@.subrange(0, k as int);
            let cur = store.collects@.subrange(0, k as int + 1);
            assert(cur.drop_last() =~= pre);
            assert(cur.last() == store.collects@[k as int]);
        }
        let e = store.collects[k];
        if e.fan_id == u {
            if crate::store::find_edge(&store.collects, target, e.item_id) {
                count += 1;
            }
        }
        k += 1;
    }
    proof {
        assert(store.collects@.subrange(0, n as int) =~= store.collects@);
    }
    count
}

/// Gather the relevant users of a recommendation pass: every user who
/// shares at least two collected items with the user under this
/// username (the target user included), each with its full item list.
/// An unknown username yields no users.
pub fn get_relevant_users(store: &Store, name: &String) -> (r: Vec<UserItems>)
    requires
        store.wf(),
    ensures
        (match crate::store::fan_for_username(store.collectors@, name@) {
            Some(target) => {
                &&& r@.len() == relevant_fans(store.collects@, target).len()
                &&& forall|k: int|
                    0 <= k < r@.len() ==> (#[trigger] r@[k]).fan_id == relevant_fans(
                        store.collects@,
                        target,
                    )[k] && r@[k].items@ == items_of_fan(store.collects@, r@[k].fan_id)
            },
            None => r@.len() == 0,
        }),
{
    let target = match store.get_fan_id_for_username(name) {
        Some(t) => t,
        None => {
            return Vec::new();
        },
    };
    let mut out: Vec<UserItems> = Vec::new();
    let n = store.collects.len();
    let mut k: usize = 0;
    while k < n
        invariant
            store.wf(),
            n == store.collects@.len(),
            k <= n,
            out@.len() == relevant_fans_upto(store.collects@, target, k as int).len(),
            forall|j: int|
                0 <= j < out@.len() ==> (#[trigger] out@[j]).fan_id == relevant_fans_upto(
                    store.collects@,
                    target,
                    k as int,
                )[j] && out@[j].items@ == items_of_fan(store.collects@, out@[j].fan_id),
        decreases n - k,
    {
        let u = store.collects[k].fan_id;
        let ghost pre = relevant_fans_upto(store.collects@, target, k as int);
        let ghost cur = relevant_fans_upto(store.collects@, target, k as int + 1);
        proof {
            assert(store.collects@[k as int].fan_id == u);
        }
        let mut already = false;
        let mut j: usize = 0;
        while j < out.len()
            invariant
                j <= out@.len(),
                out@.len() == pre.len(),
                forall|i: int| 0 <= i < out@.len() ==> (#[trigger] out@[i]).fan_id == pre[i],
                already == exists|i: int| 0 <= i < j && pre[i] == u,
            decreases out@.len() - j,
        {
            if out[j].fan_id == u {
                already = true;
                proof {
                    assert(pre[j as int] == u);
                }
            }
            j += 1;
        }
        proof {
            if already {
                assert(pre.contains(u));
            } else {
                if pre.contains(u) {
                    let i = choose|i: int| 0 <= i < pre.len() && pre[i] == u;
                    assert(false);
                }
            }
        }
        if !already {
            let c = count_shared_collects(store, target, u);
            if c >= 2 {
                let items = collect_items_of_fan(store, u);
                out.push(UserItems { fan_id: u, items });
                proof {
                    assert(cur =~= pre.push(u));
                    assert(forall|i: int| 0 <= i < pre.len() ==> cur[i] == pre[i]);
                }
            }
        }
        k += 1;
    }
    out
}

fn collect_items_of_fan(store: &Store, u: i64) -> (r: Vec<i64>)
    ensures
        r@ == items_of_fan(store.collects@, u),
{
    let mut out: Vec<i64> = Vec::new();
    let n = store.collects.len();
    let mut k: usize = 0;
    while k < n
        invariant
            n == store.collects@.len(),
            k <= n,
            out@ == items_of_fan(store.collects@.subrange(0, k as int), u),
        decreases n - k,
    {
        proof {
            let pre = store.collects@.subrange(0, k as int);
            let cur = store.collects@.subrange(0, k as int + 1);
            assert(cur.drop_last() =~= pre);
            assert(cur.last() == store.collects@[k as int]);
        }
        let e = store.collects[k];
        if e.fan_id == u {
            out.push(e.item_id);
        }
        k += 1;
    }
    proof {
        assert(store.collects@.subrange(0, n as int) =~= store.collects@);
    }
    out
}

/// A sum clamped into the unsigned range a score is stored in.
pub open spec fn sat64(x: int) -> int {
    if x > u64::MAX {
        u64::MAX as int
    } else {
        x
    }
}

/// How often an item id occurs in a list.
pub open spec fn count_occ(items: Seq<i64>, i: i64) -> nat
    decreases items.len(),
{
    if items.len() == 0 {
        0
    } else {
        count_occ(items.drop_last(), i) + (if items.last() == i {
            1nat
        } else {
            0nat
        })
    }
}

/// The value view of the relevant users: fan and item list.
pub open spec fn user_views(users: Seq<UserItems>) -> Seq<(i64, Seq<i64>)> {
    Seq::new(users.len(), |k: int| (users[k].fan_id, users[k].items@))
}

/// What one weighted user adds to the score of item `i`: its weight
/// per occurrence, but only when the weight strictly exceeds one
/// fixed-point unit and the target does not collect the item.
pub open spec fn user_term(u: (i64, Seq<i64>), w: u64, fb: Seq<i64>, i: i64) -> int {
    if w > SCORE_SCALE && !fb.contains(i) {
        w * count_occ(u.1, i)
    } else {
        0
    }
}

/// The score of item `i` accumulated over the first `k` users.
pub open spec fn total_score_upto(
    users: Seq<(i64, Seq<i64>)>,
    weights: Seq<u64>,
    fb: Seq<i64>,
    i: i64,
    k: int,
) -> int
    decreases k,
{
    if k <= 0 {
        0
    } else {
        total_score_upto(users, weights, fb, i, k - 1) + user_term(users[k - 1], weights[k - 1], fb, i)
    }
}

/// The exact (unclamped) score of item `i` over all users.
pub open spec fn total_score(
    users: Seq<(i64, Seq<i64>)>,
    weights: Seq<u64>,
    fb: Seq<i64>,
    i: i64,
) -> int {
    total_score_upto(users, weights, fb, i, users.len() as int)
}

/// Scores never go negative.
pub proof fn lemma_total_nonneg(
    users: Seq<(i64, Seq<i64>)>,
    weights: Seq<u64>,
    fb: Seq<i64>,
    i: i64,
    k: int,
)
    ensures
        total_score_upto(users, weights, fb, i, k) >= 0,
    decreases k,
{
    if k > 0 {
        lemma_total_nonneg(users, weights, fb, i, k - 1);
        lemma_user_term_nonneg(users[k - 1], weights[k - 1], fb, i);
    }
}

proof fn lemma_user_term_nonneg(u: (i64, Seq<i64>), w: u64, fb: Seq<i64>, i: i64)
    ensures
        user_term(u, w, fb, i) >= 0,
{
    if w > SCORE_SCALE && !fb.contains(i) {
        assert((w as int) * (count_occ(u.1, i) as int) >= 0) by (nonlinear_arith)
            requires
                w as int >= 0,
                count_occ(u.1, i) as int >= 0,
        ;
    }
}

/// An item the target collects scores zero: every term is gated out.
pub proof fn lemma_total_forbidden(
    users: Seq<(i64, Seq<i64>)>,
    weights: Seq<u64>,
    fb: Seq<i64>,
    i: i64,
    k: int,
)
    requires
        fb.contains(i),
    ensures
        total_score_upto(users, weights, fb, i, k) == 0,
    decreases k,
{
    if k > 0 {
        lemma_total_forbidden(users, weights, fb, i, k - 1);
    }
}

/// A positively scored item occurs in some user's item list.
pub proof fn lemma_total_score_witness(
    users: Seq<(i64, Seq<i64>)>,
    weights: Seq<u64>,
    fb: Seq<i64>,
    i: i64,
    k: int,
)
    requires
        total_score_upto(users, weights, fb, i, k) > 0,
        k <= users.len(),
    ensures
        exists|u: int, j: int|
            0 <= u < users.len() && 0 <= j < users[u].1.len() && users[u].1[j] == i,
    decreases k,
{
    if k > 0 {
        if total_score_upto(users, weights, fb, i, k - 1) > 0 {
            lemma_total_score_witness(users, weights, fb, i, k - 1);
        } else {
            lemma_total_nonneg(users, weights, fb, i, k - 1);
            assert(user_term(users[k - 1], weights[k - 1], fb, i) > 0);
            assert(count_occ(users[k - 1].1, i) > 0) by {
                if count_occ(users[k - 1].1, i) == 0 {
                    assert((weights[k - 1] as int) * (count_occ(users[k - 1].1, i) as int) == 0)
                        by (nonlinear_arith)
                        requires
                            count_occ(users[k - 1].1, i) as int == 0,
                    ;
                }
            }
            lemma_count_occ_witness(users[k - 1].1, i);
            let items = users[k - 1].1;
            let j = choose|j: int| 0 <= j < items.len() && #[trigger] items[j] == i;
            assert(0 <= k - 1 < users.len() && 0 <= j < users[k - 1].1.len() && users[k
                - 1].1[j] == i);
        }
    }
}

proof fn lemma_count_occ_witness(items: Seq<i64>, i: i64)
    requires
        count_occ(items, i) > 0,
    ensures
        exists|j: int| 0 <= j < items.len() && items[j] == i,
    decreases items.len(),
{
    if items.len() > 0 {
        if items.last() == i {
            assert(items[items.len() - 1] == i);
        } else {
            lemma_count_occ_witness(items.drop_last(), i);
            let j = choose|j: int|
                0 <= j < items.drop_last().len() && items.drop_last()[j] == i;
            assert(items[j] == i);
        }
    }
}

/// No two accumulator entries share an item id.
pub open spec fn distinct_ids(acc: Seq<ScoredId>) -> bool {
    forall|a: int, b: int| 0 <= a < b < acc.len() ==> acc[a].item_id != acc[b].item_id
}

/// Whether the accumulator holds an entry for this item.
pub open spec fn acc_has(acc: Seq<ScoredId>, i: i64) -> bool {
    exists|k: int| 0 <= k < acc.len() && acc[k].item_id == i
}

/// The accumulated score of an item, zero when absent.
pub open spec fn acc_score(acc: Seq<ScoredId>, i: i64) -> int {
    if acc_has(acc, i) {
        acc[choose|k: int| 0 <= k < acc.len() && acc[k].item_id == i].score as int
    } else {
        0
    }
}

/// Under distinctness, any entry carrying the id gives the score.
pub proof fn lemma_acc_score_at(acc: Seq<ScoredId>, i: i64, k: int)
    requires
        distinct_ids(acc),
        0 <= k < acc.len(),
        acc[k].item_id == i,
    ensures
        acc_score(acc, i) == acc[k].score as int,
        acc_has(acc, i),
{
    assert(acc_has(acc, i));
    let j = choose|j: int| 0 <= j < acc.len() && acc[j].item_id == i;
    if j != k {
        if j < k {
            assert(acc[j].item_id != acc[k].item_id);
        } else {
            assert(acc[k].item_id != acc[j].item_id);
        }
    }
}

fn bump(acc: &mut Vec<ScoredId>, id: i64, w: u64)
    requires
        distinct_ids(old(acc)@),
        w > 0,
    ensures
        distinct_ids(final(acc)@),
        acc_score(final(acc)@, id) == sat64(acc_score(old(acc)@, id) + w),
        acc_has(final(acc)@, id),
        forall|x: i64|
            x != id ==> acc_score(final(acc)@, x) == acc_score(old(acc)@, x) && (acc_has(
                final(acc)@,
                x,
            ) <==> acc_has(old(acc)@, x)),
{
    let n = acc.len();
    let mut k: usize = 0;
    while k < n
        invariant
            n == acc@.len(),
            k <= n,
            *acc == *old(acc),
            distinct_ids(acc@),
            w > 0,
            forall|j: int| 0 <= j < k ==> acc@[j].item_id != id,
        decreases n - k,
    {
        if acc[k].item_id == id {
            let s = acc[k].score;
            let ns = match s.checked_add(w) {
                Some(v) => v,
                None => u64::MAX,
            };
            acc[k] = ScoredId { item_id: id, score: ns };
            proof {
                lemma_acc_score_at(old(acc)@, id, k as int);
                assert(distinct_ids(final(acc)@)) by {
                    assert(forall|j: int|
                        0 <= j < final(acc)@.len() ==> (#[trigger] final(acc)@[j]).item_id == old(
                            acc,
                        )@[j].item_id);
                }
                lemma_acc_score_at(final(acc)@, id, k as int);
                assert forall|x: i64| x != id implies acc_score(final(acc)@, x) == acc_score(
                    old(acc)@,
                    x,
                ) && (acc_has(final(acc)@, x) <==> acc_has(old(acc)@, x)) by {
                    if acc_has(old(acc)@, x) {
                        let j = choose|j: int|
                            0 <= j < old(acc)@.len() && old(acc)@[j].item_id == x;
                        assert(final(acc)@[j].item_id == x);
                        lemma_acc_score_at(old(acc)@, x, j);
                        lemma_acc_score_at(final(acc)@, x, j);
                    } else {
                        if acc_has(final(acc)@, x) {
                            let j = choose|j: int|
                                0 <= j < final(acc)@.len() && final(acc)@[j].item_id == x;
                            assert(old(acc)@[j].item_id == x);
                        }
                    }
                };
            }
            return ;
        }
        k += 1;
    }
    acc.push(ScoredId { item_id: id, score: w });
    proof {
        let pre = old(acc)@;
        let post = final(acc)@;
        assert(forall|j: int| 0 <= j < pre.len() ==> post[j] == pre[j]);
        assert(post[pre.len() as int] == (ScoredId { item_id: id, score: w }));
        assert(distinct_ids(post));
        assert(!acc_has(pre, id));
        lemma_acc_score_at(post, id, pre.len() as int);
        assert forall|x: i64| x != id implies acc_score(post, x) == acc_score(pre, x) && (
        acc_has(post, x) <==> acc_has(pre, x)) by {
            if acc_has(pre, x) {
                let j = choose|j: int| 0 <= j < pre.len() && pre[j].item_id == x;
                assert(post[j].item_id == x);
                lemma_acc_score_at(pre, x, j);
                lemma_acc_score_at(post, x, j);
            } else {
                if acc_has(post, x) {
                    let j = choose|j: int| 0 <= j < post.len() && post[j].item_id == x;
                    assert(j < pre.len() ==> pre[j].item_id == x);
                    assert(j == pre.len());
                }
            }
        };
    }
}

/// The score of item `i` over the first `k` users and the first `j`
/// items of user `k`.
pub open spec fn partial_score(
    users: Seq<(i64, Seq<i64>)>,
    weights: Seq<u64>,
    fb: Seq<i64>,
    i: i64,
    k: int,
    j: int,
) -> int {
    total_score_upto(users, weights, fb, i, k) + (if 0 <= k < users.len() && weights[k]
        > SCORE_SCALE && !fb.contains(i) {
        weights[k] * count_occ(users[k].1.subrange(0, j), i)
    } else {
        0
    })
}

proof fn lemma_partial_nonneg(
    users: Seq<(i64, Seq<i64>)>,
    weights: Seq<u64>,
    fb: Seq<i64>,
    i: i64,
    k: int,
    j: int,
)
    ensures
        partial_score(users, weights, fb, i, k, j) >= 0,
{
    lemma_total_nonneg(users, weights, fb, i, k);
    if 0 <= k < users.len() && weights[k] > SCORE_SCALE && !fb.contains(i) {
        assert((weights[k] as int) * (count_occ(users[k].1.subrange(0, j), i) as int) >= 0)
            by (nonlinear_arith)
            requires
                weights[k] as int >= 0,
                count_occ(users[k].1.subrange(0, j), i) as int >= 0,
        ;
    }
}

proof fn lemma_sat_add(a: int, b: int)
    requires
        a >= 0,
        b >= 0,
    ensures
        sat64(sat64(a) + b) == sat64(a + b),
{
}

/// Accumulate the weighted scores of every item the relevant users
/// collect and the target does not; an item's entry is exactly the
/// clamped total of its users' weights, and every positively scored
/// item has an entry.
pub fn accumulate_scores(users: &Vec<UserItems>, weights: &Vec<u64>, forbidden: &Vec<i64>) -> (r:
    Vec<ScoredId>)
    requires
        weights@.len() == users@.len(),
    ensures
        distinct_ids(r@),
        forall|k: int|
            0 <= k < r@.len() ==> ((#[trigger] r@[k]).score as int == sat64(
                total_score(user_views(users@), weights@, forbidden@, r@[k].item_id),
            ) && r@[k].score > 0 && !forbidden@.contains(r@[k].item_id)),
        forall|i: i64|
            #[trigger] total_score(user_views(users@), weights@, forbidden@, i) > 0 ==> acc_has(
                r@,
                i,
            ),
{
    let ghost uv = user_views(users@);
    let mut acc: Vec<ScoredId> = Vec::new();
    let n = users.len();
    let mut k: usize = 0;
    proof {
        assert(forall|i: i64|
            #[trigger] acc_score(acc@, i) == sat64(
                total_score_upto(uv, weights@, forbidden@, i, 0),
            ));
    }
    while k < n
        invariant
            n == users@.len(),
            weights@.len() == n,
            k <= n,
            uv == user_views(users@),
            distinct_ids(acc@),
            forall|i: i64|
                #[trigger] acc_score(acc@, i) == sat64(
                    total_score_upto(uv, weights@, forbidden@, i, k as int),
                ),
            forall|i: i64|
                #[trigger] acc_has(acc@, i) <==> total_score_upto(
                    uv,
                    weights@,
                    forbidden@,
                    i,
                    k as int,
                ) > 0,
        decreases n - k,
    {
        let w = weights[k];
        proof {
            assert(uv[k as int] == (users@[k as int].fan_id, users@[k as int].items@));
        }
        if w > SCORE_SCALE {
            let m = users[k].items.len();
            let mut j: usize = 0;
            proof {
                assert forall|i: i64| #[trigger] acc_score(acc@, i) == sat64(
                    partial_score(uv, weights@, forbidden@, i, k as int, 0),
                ) && (acc_has(acc@, i) <==> partial_score(uv, weights@, forbidden@, i, k as int, 0)
                    > 0) by {
                    assert(uv[k as int].1.subrange(0, 0) =~= Seq::<i64>::empty());
                    assert(count_occ(uv[k as int].1.subrange(0, 0), i) == 0);
                    assert((w as int) * 0 == 0) by (nonlinear_arith);
                };
            }
            while j < m
                invariant
                    n == users@.len(),
                    weights@.len() == n,
                    k < n,
                    uv == user_views(users@),
                    m == users@[k as int].items@.len(),
                    j <= m,
                    w == weights@[k as int],
                    w > SCORE_SCALE,
                    distinct_ids(acc@),
                    forall|i: i64|
                        #[trigger] acc_score(acc@, i) == sat64(
                            partial_score(uv, weights@, forbidden@, i, k as int, j as int),
                        ),
                    forall|i: i64|
                        #[trigger] acc_has(acc@, i) <==> partial_score(
                            uv,
                            weights@,
                            forbidden@,
                            i,
                            k as int,
                            j as int,
                        ) > 0,
                decreases m - j,
            {
                let it = users[k].items[j];
                let ghost items = uv[k as int].1;
                proof {
                    assert(uv[k as int] == (users@[k as int].fan_id, users@[k as int].items@));
                    assert(items[j as int] == it);
                    let pre = items.subrange(0, j as int);
                    let cur = items.subrange(0, j as int + 1);
                    assert(cur.drop_last() =~= pre);
                    assert(cur.last() == items[j as int]);
                }
                if !crate::store::vec_contains_key(forbidden, it) {
                    bump(&mut acc, it, w);
                    proof {
                        assert forall|i: i64| #[trigger] acc_score(acc@, i) == sat64(
                            partial_score(uv, weights@, forbidden@, i, k as int, j as int + 1),
                        ) && (acc_has(acc@, i) <==> partial_score(
                            uv,
                            weights@,
                            forbidden@,
                            i,
                            k as int,
                            j as int + 1,
                        ) > 0) by {
                            let p0 = partial_score(uv, weights@, forbidden@, i, k as int, j as int);
                            let p1 = partial_score(
                                uv,
                                weights@,
                                forbidden@,
                                i,
                                k as int,
                                j as int + 1,
                            );
                            let c0 = count_occ(items.subrange(0, j as int), i);
                            let c1 = count_occ(items.subrange(0, j as int + 1), i);
                            if i == it {
                                assert(c1 == c0 + 1);
                                assert((w as int) * (c0 + 1) == (w as int) * (c0 as int) + w)
                                    by (nonlinear_arith)
                                ;
                                assert(p1 == p0 + w);
                                lemma_partial_nonneg(uv, weights@, forbidden@, i, k as int, j as int);
                                lemma_sat_add(p0, w as int);
                            } else {
                                assert(c1 == c0);
                                assert(p1 == p0);
                            }
                        };
                    }
                } else {
                    proof {
                        assert forall|i: i64| #[trigger] acc_score(acc@, i) == sat64(
                            partial_score(uv, weights@, forbidden@, i, k as int, j as int + 1),
                        ) && (acc_has(acc@, i) <==> partial_score(
                            uv,
                            weights@,
                            forbidden@,
                            i,
                            k as int,
                            j as int + 1,
                        ) > 0) by {
                            let c0 = count_occ(items.subrange(0, j as int), i);
                            let c1 = count_occ(items.subrange(0, j as int + 1), i);
                            if i == it {
                                assert(forbidden@.contains(i));
                            } else {
                                assert(c1 == c0);
                            }
                        };
                    }
                }
                j += 1;
            }
            proof {
                assert forall|i: i64| #[trigger] acc_score(acc@, i) == sat64(
                    total_score_upto(uv, weights@, forbidden@, i, k as int + 1),
                ) by {
                    assert(uv[k as int].1.subrange(0, m as int) =~= uv[k as int].1);
                };
                assert forall|i: i64| #[trigger] acc_has(acc@, i) <==> total_score_upto(
                    uv,
                    weights@,
                    forbidden@,
                    i,
                    k as int + 1,
                ) > 0 by {
                    assert(uv[k as int].1.subrange(0, m as int) =~= uv[k as int].1);
                    assert(acc_has(acc@, i) <==> partial_score(
                        uv,
                        weights@,
                        forbidden@,
                        i,
                        k as int,
                        m as int,
                    ) > 0);
                };
            }
        } else {
            proof {
                assert forall|i: i64| #[trigger] acc_score(acc@, i) == sat64(
                    total_score_upto(uv, weights@, forbidden@, i, k as int + 1),
                ) by {
                    assert(user_term(uv[k as int], weights@[k as int], forbidden@, i) == 0);
                };
                assert forall|i: i64| #[trigger] acc_has(acc@, i) <==> total_score_upto(
                    uv,
                    weights@,
                    forbidden@,
                    i,
                    k as int + 1,
                ) > 0 by {
                    assert(user_term(uv[k as int], weights@[k as int], forbidden@, i) == 0);
                    assert(acc_has(acc@, i) <==> total_score_upto(
                        uv,
                        weights@,
                        forbidden@,
                        i,
                        k as int,
                    ) > 0);
                };
            }
        }
        k += 1;
    }
    proof {
        assert forall|k2: int|
            0 <= k2 < acc@.len() implies ((#[trigger] acc@[k2]).score as int == sat64(
            total_score(uv, weights@, forbidden@, acc@[k2].item_id),
        ) && acc@[k2].score > 0 && !forbidden@.contains(acc@[k2].item_id)) by {
            let i = acc@[k2].item_id;
            lemma_acc_score_at(acc@, i, k2);
            assert(acc_has(acc@, i));
            lemma_total_nonneg(uv, weights@, forbidden@, i, n as int);
            if forbidden@.contains(i) {
                lemma_total_forbidden(uv, weights@, forbidden@, i, n as int);
            }
        };
    }
    acc
}

/// Select the recommendation list: the (up to) 50 highest-scored
/// entries, highest first; entries of equal score are taken in an
/// unspecified order.
pub fn top_scores(scored: Vec<ScoredId>) -> (r: Vec<ScoredId>)
    requires
        distinct_ids(scored@),
    ensures
        scored@.len() <= 50 ==> r@.len() == scored@.len(),
        scored@.len() > 50 ==> r@.len() == 50,
        forall|a: int, b: int| 0 <= a < b < r@.len() ==> r@[a].score >= r@[b].score,
        distinct_ids(r@),
        forall|k: int| 0 <= k < r@.len() ==> scored@.contains(#[trigger] r@[k]),
        forall|j: int|
            0 <= j < scored@.len() ==> r@.contains(#[trigger] scored@[j]) || (r@.len() == 50
                && scored@[j].score <= r@[r@.len() - 1].score),
{
    let ghost init = scored@;
    let mut rem = scored;
    let mut out: Vec<ScoredId> = Vec::new();
    while out.len() < 50 && rem.len() > 0
        invariant
            distinct_ids(out@),
            distinct_ids(rem@),
            forall|a: int, b: int|
                0 <= a < out@.len() && 0 <= b < rem@.len() ==> (#[trigger] out@[a]).item_id != (
                #[trigger] rem@[b]).item_id,
            out@.len() + rem@.len() == init.len(),
            out@.len() <= 50,
            forall|k: int| 0 <= k < out@.len() ==> init.contains(#[trigger] out@[k]),
            forall|k: int| 0 <= k < rem@.len() ==> init.contains(#[trigger] rem@[k]),
            forall|j: int|
                0 <= j < init.len() ==> out@.contains(#[trigger] init[j]) || rem@.contains(
                    init[j],
                ),
            forall|a: int, b: int| 0 <= a < b < out@.len() ==> out@[a].score >= out@[b].score,
            forall|a: int, b: int|
                0 <= a < out@.len() && 0 <= b < rem@.len() ==> (#[trigger] rem@[b]).score <= (
                #[trigger] out@[a]).score,
        decreases rem@.len(),
    {
        let mut mi: usize = 0;
        let mut mk: usize = 1;
        while mk < rem.len()
            invariant
                rem@.len() > 0,
                mi < rem@.len(),
                mk <= rem@.len(),
                forall|j: int| 0 <= j < mk ==> (#[trigger] rem@[j]).score <= rem@[mi as int].score,
            decreases rem@.len() - mk,
        {
            if rem[mk].score > rem[mi].score {
                mi = mk;
            }
            mk += 1;
        }
        let chosen = rem[mi];
        let ghost out_pre = out@;
        let ghost rem_pre = rem@;
        out.push(chosen);
        rem.remove(mi);
        proof {
            let rem_post = rem@;
            let out_post = out@;
            assert(out_post == out_pre.push(chosen));
            assert(out_post[out_post.len() - 1] == chosen);
            assert(forall|j: int| 0 <= j < out_pre.len() ==> out_post[j] == out_pre[j]);
            assert(rem_post =~= rem_pre.subrange(0, mi as int) + rem_pre.subrange(
                mi as int + 1,
                rem_pre.len() as int,
            ));
            assert(forall|j: int| 0 <= j < mi ==> rem_post[j] == rem_pre[j]);
            assert(forall|j: int|
                mi <= j < rem_post.len() ==> rem_post[j] == rem_pre[j + 1]);
            assert(init.contains(chosen)) by {
                assert(rem_pre[mi as int] == chosen);
            }
            assert forall|j: int|
                0 <= j < init.len() implies out_post.contains(#[trigger] init[j])
                || rem_post.contains(init[j]) by {
                if out_pre.contains(init[j]) {
                    let a = choose|a: int| 0 <= a < out_pre.len() && out_pre[a] == init[j];
                    assert(out_post[a] == init[j]);
                } else if rem_pre.contains(init[j]) {
                    let b = choose|b: int| 0 <= b < rem_pre.len() && rem_pre[b] == init[j];
                    if b == mi {
                        assert(out_post[out_post.len() - 1] == init[j]);
                    } else if b < mi {
                        assert(rem_post[b] == init[j]);
                    } else {
                        assert(rem_post[b - 1] == init[j]);
                    }
                }
            };
            assert forall|k: int| 0 <= k < rem_post.len() implies init.contains(
                #[trigger] rem_post[k],
            ) by {
                if k < mi {
                    assert(rem_post[k] == rem_pre[k]);
                } else {
                    assert(rem_post[k] == rem_pre[k + 1]);
                }
            };
            assert forall|a: int, b: int|
                0 <= a < b < rem_post.len() implies rem_post[a].item_id
                != rem_post[b].item_id by {
                let a2: int = if a < mi {
                    a
                } else {
                    a + 1
                };
                let b2: int = if b < mi {
                    b
                } else {
                    b + 1
                };
                assert(rem_post[a] == rem_pre[a2] && rem_post[b] == rem_pre[b2]);
            };
            assert forall|a: int, b: int|
                0 <= a < out_post.len() && 0 <= b < rem_post.len() implies (
            #[trigger] out_post[a]).item_id != (#[trigger] rem_post[b]).item_id by {
                let b2: int = if b < mi {
                    b
                } else {
                    b + 1
                };
                assert(rem_post[b] == rem_pre[b2]);
                if a < out_post.len() - 1 {
                    assert(out_post[a] == out_pre[a]);
                } else {
                    assert(out_post[a] == rem_pre[mi as int]);
                }
            };
            assert forall|a: int, b: int|
                0 <= a < out_post.len() && 0 <= b < rem_post.len() implies (
            #[trigger] rem_post[b]).score <= (#[trigger] out_post[a]).score by {
                let b2: int = if b < mi {
                    b
                } else {
                    b + 1
                };
                assert(rem_post[b] == rem_pre[b2]);
                assert(rem_pre[b2].score <= chosen.score);
                if a < out_post.len() - 1 {
                    assert(out_post[a] == out_pre[a]);
                    assert(rem_pre[b2].score <= out_pre[a].score);
                } else {
                    assert(out_post[a] == chosen);
                }
            };
            assert forall|a: int, b: int|
                0 <= a < b < out_post.len() implies out_post[a].score >= out_post[b].score by {
                if b < out_post.len() - 1 {
                    assert(out_post[a] == out_pre[a] && out_post[b] == out_pre[b]);
                } else {
                    assert(out_post[b] == chosen);
                    assert(out_post[a] == out_pre[a]);
                    assert(rem_pre[mi as int].score <= out_pre[a].score);
                }
            };
        }
    }
    proof {
        if rem@.len() > 0 {
            assert(out@.len() == 50);
        }
        assert forall|j: int|
            0 <= j < init.len() implies out@.contains(#[trigger] init[j]) || (out@.len() == 50
            && init[j].score <= out@[out@.len() - 1].score) by {
            if !out@.contains(init[j]) {
                assert(rem@.contains(init[j]));
                let b = choose|b: int| 0 <= b < rem@.len() && rem@[b] == init[j];
                assert(rem@[b].score <= out@[out@.len() - 1].score);
            }
        };
    }
    out
}

/// How many of a user's items the target also collects.
pub open spec fn overlap_count(items: Seq<i64>, fb: Seq<i64>) -> nat
    decreases items.len(),
{
    if items.len() == 0 {
        0
    } else {
        overlap_count(items.drop_last(), fb) + (if fb.contains(items.last()) {
            1nat
        } else {
            0nat
        })
    }
}

/// The overlap of each relevant user with the target's collection.
pub fn compute_overlaps(users: &Vec<UserItems>, forbidden: &Vec<i64>) -> (r: Vec<u64>)
    ensures
        r@.len() == users@.len(),
        forall|k: int|
            0 <= k < r@.len() ==> #[trigger] r@[k] == overlap_count(
                users@[k].items@,
                forbidden@,
            ),
{
    let mut out: Vec<u64> = Vec::new();
    let n = users.len();
    let mut k: usize = 0;
    while k < n
        invariant
            n == users@.len(),
            k <= n,
            out@.len() == k,
            forall|j: int|
                0 <= j < k ==> #[trigger] out@[j] == overlap_count(
                    users@[j].items@,
                    forbidden@,
                ),
        decreases n - k,
    {
        let items = &users[k].items;
        let m = items.len();
        let mut count: u64 = 0;
        let mut j: usize = 0;
        while j < m
            invariant
                m == items@.len(),
                j <= m,
                count <= j,
                count == overlap_count(items@.subrange(0, j as int), forbidden@),
            decreases m - j,
        {
            proof {
                let pre = items@.subrange(0, j as int);
                let cur = items@.subrange(0, j as int + 1);
                assert(cur.drop_last() =~= pre);
                assert(cur.last() == items@[j as int]);
            }
            if crate::store::vec_contains_key(forbidden, items[j]) {
                count += 1;
            }
            j += 1;
        }
        proof {
            assert(items@.subrange(0, m as int) =~= items@);
        }
        out.push(count);
        k += 1;
    }
    out
}

/// `s ^ b` as a mathematical power.
pub open spec fn pow_nat(s: nat, b: nat) -> nat
    decreases b,
{
    if b == 0 {
        1
    } else {
        s * pow_nat(s, (b - 1) as nat)
    }
}

/// The fixed-point weight of an overlap under an integer boost,
/// clamped into the score range.
pub open spec fn boost_weight(s: nat, b: nat) -> int {
    sat64(pow_nat(s, b) * SCORE_SCALE)
}

proof fn lemma_sat_mul64(a: int, b: int)
    requires
        a >= 0,
        b >= 1 || a <= u64::MAX,
        b >= 0,
    ensures
        sat64(sat64(a) * b) == sat64(a * b),
{
    if a > u64::MAX {
        assert(a * b >= (u64::MAX as int) * b) by (nonlinear_arith)
            requires
                a >= u64::MAX as int,
                b >= 0,
        ;
        if b >= 1 {
            assert((u64::MAX as int) * b >= u64::MAX as int) by (nonlinear_arith)
                requires
                    b >= 1,
            ;
            assert(a * b > u64::MAX) by (nonlinear_arith)
                requires
                    a > u64::MAX as int,
                    b >= 1,
            ;
        }
    }
}

/// The weights a whole overlap vector maps to under an integer boost.
pub fn boost_weights(overlaps: &Vec<u64>, boost: u64) -> (r: Vec<u64>)
    requires
        1 <= boost <= 5,
    ensures
        r@.len() == overlaps@.len(),
        forall|k: int|
            0 <= k < r@.len() ==> (#[trigger] r@[k]) as int == boost_weight(
                overlaps@[k] as nat,
                boost as nat,
            ),
{
    let mut out: Vec<u64> = Vec::new();
    let n = overlaps.len();
    let mut k: usize = 0;
    while k < n
        invariant
            n == overlaps@.len(),
            k <= n,
            1 <= boost <= 5,
            out@.len() == k,
            forall|j: int|
                0 <= j < k ==> (#[trigger] out@[j]) as int == boost_weight(
                    overlaps@[j] as nat,
                    boost as nat,
                ),
        decreases n - k,
    {
        let s = overlaps[k];
        let mut p: u64 = 1;
        let mut t: u64 = 0;
        while t < boost
            invariant
                t <= boost,
                boost <= 5,
                p as int == sat64(pow_nat(s as nat, t as nat) as int),
            decreases boost - t,
        {
            let np = match p.checked_mul(s) {
                Some(v) => v,
                None => u64::MAX,
            };
            proof {
                let pw = pow_nat(s as nat, t as nat) as int;
                assert(pow_nat(s as nat, (t + 1) as nat) == (s as nat) * pow_nat(
                    s as nat,
                    t as nat,
                ));
                assert((s as int) * pw == pw * (s as int)) by (nonlinear_arith);
                if s >= 1 || pw <= u64::MAX {
                    lemma_sat_mul64(pw, s as int);
                }
                if s == 0 {
                    assert(pw * 0 == 0) by (nonlinear_arith);
                    assert((p as int) * 0 == 0) by (nonlinear_arith);
                }
                assert(pw >= 0);
                assert((p as int) * (s as int) == sat64(pw) * (s as int));
            }
            p = np;
            t += 1;
        }
        let w = match p.checked_mul(SCORE_SCALE) {
            Some(v) => v,
            None => u64::MAX,
        };
        proof {
            let pw = pow_nat(s as nat, boost as nat) as int;
            lemma_sat_mul64(pw, SCORE_SCALE as int);
        }
        out.push(w);
        k += 1;
    }
    out
}

/// Run the scoring pass: accumulate the weighted scores and keep the
/// top 50. The result is pinned up to the order of equal scores:
/// every entry carries the exact clamped total of its item, and every
/// positively scored item is either listed or displaced by an entry
/// scoring at least as much.
pub fn score_items(users: &Vec<UserItems>, weights: &Vec<u64>, forbidden: &Vec<i64>) -> (r: Vec<
    ScoredId,
>)
    requires
        weights@.len() == users@.len(),
    ensures
        r@.len() <= 50,
        distinct_ids(r@),
        forall|a: int, b: int| 0 <= a < b < r@.len() ==> r@[a].score >= r@[b].score,
        forall|k: int|
            0 <= k < r@.len() ==> ((#[trigger] r@[k]).score as int == sat64(
                total_score(user_views(users@), weights@, forbidden@, r@[k].item_id),
            ) && r@[k].score > 0 && !forbidden@.contains(r@[k].item_id) && total_score(
                user_views(users@),
                weights@,
                forbidden@,
                r@[k].item_id,
            ) > 0),
        forall|i: i64|
            #[trigger] total_score(user_views(users@), weights@, forbidden@, i) > 0 ==> ((exists|
                k: int,
            |
                0 <= k < r@.len() && (#[trigger] r@[k]).item_id == i) || (r@.len() == 50 && sat64(
                total_score(user_views(users@), weights@, forbidden@, i),
            ) <= r@[r@.len() - 1].score as int)),
{
    let acc = accumulate_scores(users, weights, forbidden);
    let r = top_scores(acc);
    proof {
        let uv = user_views(users@);
        assert forall|k: int|
            0 <= k < r@.len() implies ((#[trigger] r@[k]).score as int == sat64(
            total_score(uv, weights@, forbidden@, r@[k].item_id),
        ) && r@[k].score > 0 && !forbidden@.contains(r@[k].item_id) && total_score(
            uv,
            weights@,
            forbidden@,
            r@[k].item_id,
        ) > 0) by {
            let j = choose|j: int| 0 <= j < acc@.len() && acc@[j] == r@[k];
            assert(acc@[j].score as int == sat64(
                total_score(uv, weights@, forbidden@, acc@[j].item_id),
            ));
            lemma_total_nonneg(uv, weights@, forbidden@, r@[k].item_id, uv.len() as int);
        };
        assert forall|i: i64|
            #[trigger] total_score(uv, weights@, forbidden@, i) > 0 implies ((exists|k: int|
            0 <= k < r@.len() && (#[trigger] r@[k]).item_id == i) || (r@.len() == 50 && sat64(
            total_score(uv, weights@, forbidden@, i),
        ) <= r@[r@.len() - 1].score as int)) by {
            assert(acc_has(acc@, i));
            let j = choose|j: int| 0 <= j < acc@.len() && acc@[j].item_id == i;
            assert(acc@[j].score as int == sat64(total_score(uv, weights@, forbidden@, i)));
            if r@.contains(acc@[j]) {
                let k = choose|k: int| 0 <= k < r@.len() && r@[k] == acc@[j];
                assert(0 <= k < r@.len() && r@[k].item_id == i);
            }
        };
    }
    r
}

/// Load the full item row of each scored id and attach the score.
/// A scored id without a row is the store's missing-result failure;
/// under the relational invariants this cannot happen for ids drawn
/// from edges.
pub fn attach_items(store: &Store, scored: &Vec<ScoredId>) -> (r: Result<Vec<ScoredItem>, Error>)
    requires
        store.wf(),
    ensures
        (match r {
            Ok(list) => {
                &&& list@.len() == scored@.len()
                &&& forall|k: int|
                    0 <= k < list@.len() ==> crate::store::has_item(
                        store.items@,
                        (#[trigger] scored@[k]).item_id as int,
                    ) && list@[k].item == item_of_row(
                        item_row_for(store.items@, scored@[k].item_id as int),
                    ) && list@[k].score == scored@[k].score
            },
            Err(e) => e == Error::DbResultError && exists|k: int|
                0 <= k < scored@.len() && !crate::store::has_item(
                    store.items@,
                    (#[trigger] scored@[k]).item_id as int,
                ),
        }),
{
    let mut out: Vec<ScoredItem> = Vec::new();
    let n = scored.len();
    let mut k: usize = 0;
    while k < n
        invariant
            store.wf(),
            n == scored@.len(),
            k <= n,
            out@.len() == k,
            forall|j: int|
                0 <= j < k ==> crate::store::has_item(
                    store.items@,
                    (#[trigger] scored@[j]).item_id as int,
                ) && out@[j].item == item_of_row(
                    item_row_for(store.items@, scored@[j].item_id as int),
                ) && out@[j].score == scored@[j].score,
        decreases n - k,
    {
        match store.get_item(scored[k].item_id) {
            Ok(item) => {
                out.push(ScoredItem { item, score: scored[k].score });
            },
            Err(e) => {
                proof {
                    assert(!crate::store::has_item(
                        store.items@,
                        scored@[k as int].item_id as int,
                    ));
                }
                return Err(e);
            },
        }
        k += 1;
    }
    Ok(out)
}

/// Every item a fan's item list names is tied to the fan by an edge.
pub proof fn lemma_items_of_fan_edges(cs: Seq<Edge>, u: i64)
    ensures
        forall|j: int|
            0 <= j < items_of_fan(cs, u).len() ==> has_edge(
                cs,
                u as int,
                (#[trigger] items_of_fan(cs, u)[j]) as int,
            ),
    decreases cs.len(),
{
    if cs.len() > 0 {
        lemma_items_of_fan_edges(cs.drop_last(), u);
        let res = items_of_fan(cs, u);
        let rest = items_of_fan(cs.drop_last(), u);
        assert forall|j: int| 0 <= j < res.len() implies has_edge(
            cs,
            u as int,
            (#[trigger] res[j]) as int,
        ) by {
            if cs.last().fan_id == u && j == res.len() - 1 {
                assert(res[j] == cs.last().item_id);
                assert(cs[cs.len() - 1].fan_id == u && cs[cs.len() - 1].item_id == res[j]);
            } else {
                assert(res[j] == rest[j]);
                assert(has_edge(cs.drop_last(), u as int, rest[j] as int));
                let e = choose|e: int|
                    0 <= e < cs.drop_last().len() && cs.drop_last()[e].fan_id == u
                        && cs.drop_last()[e].item_id == rest[j];
                assert(cs[e] == cs.drop_last()[e]);
            }
        }
    }
}

/// The relevant users of a target as value pairs, as the scoring pass
/// sees them.
pub open spec fn rec_model(cs: Seq<Edge>, target: i64) -> Seq<(i64, Seq<i64>)> {
    Seq::new(
        relevant_fans(cs, target).len(),
        |k: int|
            (relevant_fans(cs, target)[k], items_of_fan(cs, relevant_fans(cs, target)[k])),
    )
}

/// The weight each relevant user carries under an integer boost.
pub open spec fn rec_weights(cs: Seq<Edge>, target: i64, boost: u64) -> Seq<u64> {
    Seq::new(
        relevant_fans(cs, target).len(),
        |k: int|
            boost_weight(
                overlap_count(
                    items_of_fan(cs, relevant_fans(cs, target)[k]),
                    items_of_fan(cs, target),
                ) as nat,
                boost as nat,
            ) as u64,
    )
}

/// The exact (unclamped) recommendation score of an item for a target
/// under an integer boost.
pub open spec fn rec_total(s: Store, target: i64, boost: u64, i: i64) -> int {
    total_score(
        rec_model(s.collects@, target),
        rec_weights(s.collects@, target, boost),
        items_of_fan(s.collects@, target),
        i,
    )
}

/// What a successful recommendation list promises: at most 50 items,
/// scores exactly the clamped totals, strictly positive and
/// non-increasing; no listed item is in the target's own collection;
/// and every positively scored item is listed unless displaced by 50
/// entries scoring at least as much.
pub open spec fn recommendations_ok(s: Store, target: i64, boost: u64, list: Seq<
    ScoredItem,
>) -> bool {
    &&& list.len() <= 50
    &&& (forall|a: int, b: int| 0 <= a < b < list.len() ==> list[a].score >= list[b].score)
    &&& (forall|a: int, b: int|
        0 <= a < b < list.len() ==> list[a].item.item_id != list[b].item.item_id)
    &&& (forall|k: int|
        0 <= k < list.len() ==> {
            let i = (#[trigger] list[k]).item.item_id;
            &&& !items_of_fan(s.collects@, target).contains(i)
            &&& rec_total(s, target, boost, i) > 0
            &&& list[k].score as int == sat64(rec_total(s, target, boost, i))
            &&& list[k].score > 0
            &&& crate::store::has_item(s.items@, i as int)
            &&& list[k].item == item_of_row(item_row_for(s.items@, i as int))
        })
    &&& (forall|i: i64|
        #[trigger] rec_total(s, target, boost, i) > 0 ==> ((exists|k: int|
            0 <= k < list.len() && (#[trigger] list[k]).item.item_id == i) || (list.len() == 50
            && sat64(rec_total(s, target, boost, i)) <= list[list.len() - 1].score as int)))
}

fn copy_ids(v: &Vec<i64>) -> (r: Vec<i64>)
    ensures
        r@ == v@,
{
    let mut out: Vec<i64> = Vec::new();
    let mut k: usize = 0;
    while k < v.len()
        invariant
            k <= v@.len(),
            out@ == v@.subrange(0, k as int),
        decreases v@.len() - k,
    {
        out.push(v[k]);
        proof {
            assert(out@ =~= v@.subrange(0, k as int + 1));
        }
        k += 1;
    }
    proof {
        assert(v@.subrange(0, v@.len() as int) =~= v@);
    }
    out
}

/// Compute the ranked recommendation list of a user under an integer
/// boost exponent. An unknown username is not found; a known user who
/// collects fewer than two items has no relevant-user row of its own,
/// which surfaces as the store's missing-result failure.
pub fn get_user_recommendations(store: &Store, username: &String, similar_boost: u64) -> (r:
    Result<Vec<ScoredItem>, Error>)
    requires
        store.wf(),
        1 <= similar_boost <= 5,
    ensures
        (match crate::store::fan_for_username(store.collectors@, username@) {
            None => r == Err::<Vec<ScoredItem>, Error>(Error::NotFoundError),
            Some(target) => {
                if !relevant_fans(store.collects@, target).contains(target) {
                    r == Err::<Vec<ScoredItem>, Error>(Error::DbResultError)
                } else {
                    match r {
                        Ok(list) => recommendations_ok(*store, target, similar_boost, list@),
                        Err(_) => false,
                    }
                }
            },
        }),
{
    let target = match store.get_fan_id_for_username(username) {
        Some(t) => t,
        None => {
            return Err(Error::NotFoundError);
        },
    };
    let users = get_relevant_users(store, username);
    let ghost cs = store.collects@;
    let ghost fans = relevant_fans(cs, target);
    let mut ti: usize = 0;
    let mut found = false;
    let n = users.len();
    let mut k: usize = 0;
    while k < n
        invariant
            n == users@.len(),
            k <= n,
            found ==> ti < n && users@[ti as int].fan_id == target,
            !found ==> forall|j: int| 0 <= j < k ==> users@[j].fan_id != target,
        decreases n - k,
    {
        if users[k].fan_id == target {
            ti = k;
            found = true;
        }
        k += 1;
    }
    if !found {
        proof {
            if fans.contains(target) {
                let j = choose|j: int| 0 <= j < fans.len() && fans[j] == target;
                assert(users@[j].fan_id == target);
            }
        }
        return Err(Error::DbResultError);
    }
    let forbidden = copy_ids(&users[ti].items);
    proof {
        assert(users@[ti as int].fan_id == fans[ti as int]);
        assert(fans[ti as int] == target);
        assert(forbidden@ == items_of_fan(cs, target));
        assert(fans.contains(target)) by {
            assert(fans[ti as int] == target);
        }
    }
    let overlaps = compute_overlaps(&users, &forbidden);
    let weights = boost_weights(&overlaps, similar_boost);
    proof {
        assert(user_views(users@) =~= rec_model(cs, target)) by {
            assert(forall|j: int|
                0 <= j < users@.len() ==> user_views(users@)[j] == (
                (#[trigger] users@[j]).fan_id, users@[j].items@));
            assert(forall|j: int|
                0 <= j < users@.len() ==> (#[trigger] users@[j]).items@ == items_of_fan(
                    cs,
                    fans[j],
                ) && users@[j].fan_id == fans[j]);
        }
        assert(weights@ =~= rec_weights(cs, target, similar_boost)) by {
            assert(forall|j: int|
                0 <= j < users@.len() ==> (#[trigger] weights@[j]) as int == boost_weight(
                    overlap_count(users@[j].items@, forbidden@) as nat,
                    similar_boost as nat,
                ));
            assert(forall|j: int|
                0 <= j < users@.len() ==> (#[trigger] users@[j]).items@ == items_of_fan(
                    cs,
                    fans[j],
                ) && users@[j].fan_id == fans[j]);
        }
    }
    let scored = score_items(&users, &weights, &forbidden);
    proof {
        assert forall|k2: int|
            0 <= k2 < scored@.len() implies crate::store::has_item(
            store.items@,
            (#[trigger] scored@[k2]).item_id as int,
        ) by {
            let uv = user_views(users@);
            let i = scored@[k2].item_id;
            assert(total_score(uv, weights@, forbidden@, i) > 0);
            lemma_total_score_witness(uv, weights@, forbidden@, i, uv.len() as int);
            let (u, j) = choose|u: int, j: int|
                0 <= u < uv.len() && 0 <= j < uv[u].1.len() && #[trigger] uv[u].1[j] == i;
            assert(uv[u].1 == items_of_fan(cs, fans[u]));
            lemma_items_of_fan_edges(cs, fans[u]);
            assert(has_edge(cs, fans[u] as int, i as int));
            let e = choose|e: int|
                0 <= e < cs.len() && cs[e].fan_id == fans[u] && cs[e].item_id == i;
            assert(crate::store::has_item(store.items@, (cs[e]).item_id as int));
        };
    }
    match attach_items(store, &scored) {
        Ok(list) => {
            proof {
                assert forall|k2: int|
                    0 <= k2 < list@.len() implies (#[trigger] list@[k2]).item.item_id
                    == scored@[k2].item_id by {
                    let i = scored@[k2].item_id;
                    let row = item_row_for(store.items@, i as int);
                    let w = choose|w: int|
                        0 <= w < store.items@.len() && store.items@[w].item_id == i;
                    crate::store::lemma_item_row_for(store.items@, i as int, w);
                    assert(row.item_id == i);
                };
                assert(recommendations_ok(*store, target, similar_boost, list@)) by {
                    assert(forall|a: int, b: int|
                        0 <= a < b < list@.len() ==> (#[trigger] list@[a]).score >= (
                        #[trigger] list@[b]).score);
                    assert forall|k2: int| 0 <= k2 < list@.len() implies {
                        let i = (#[trigger] list@[k2]).item.item_id;
                        &&& !items_of_fan(store.collects@, target).contains(i)
                        &&& rec_total(*store, target, similar_boost, i) > 0
                        &&& list@[k2].score as int == sat64(
                            rec_total(*store, target, similar_boost, i),
                        )
                        &&& list@[k2].score > 0
                        &&& crate::store::has_item(store.items@, i as int)
                        &&& list@[k2].item == item_of_row(item_row_for(store.items@, i as int))
                    } by {
                        assert(list@[k2].item.item_id == scored@[k2].item_id);
                        assert(scored@[k2].score as int == sat64(
                            total_score(
                                user_views(users@),
                                weights@,
                                forbidden@,
                                scored@[k2].item_id,
                            ),
                        ));
                    };
                    assert forall|i: i64|
                        #[trigger] rec_total(*store, target, similar_boost, i) > 0 implies ((
                    exists|k2: int|
                        0 <= k2 < list@.len() && (#[trigger] list@[k2]).item.item_id == i) || (
                    list@.len() == 50 && sat64(rec_total(*store, target, similar_boost, i))
                        <= list@[list@.len() - 1].score as int)) by {
                        assert(total_score(user_views(users@), weights@, forbidden@, i) > 0);
                        if exists|k2: int|
                            0 <= k2 < scored@.len() && (#[trigger] scored@[k2]).item_id == i {
                            let k2 = choose|k2: int|
                                0 <= k2 < scored@.len() && (#[trigger] scored@[k2]).item_id
                                    == i;
                            assert(list@[k2].item.item_id == i);
                        }
                    };
                }
            }
            Ok(list)
        },
        Err(e) => {
            proof {
                assert(false);
            }
            Err(e)
        },
    }
}

} // verus!
