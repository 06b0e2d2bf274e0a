//! The relational cache at the heart of the engine: collectors, items,
//! the two edge relations of the bipartite collection graph, the two
//! work queues and the progress targets.
//!
//! Every operation is specified against the row sequences themselves;
//! the well-formedness predicate [`Store::wf`] pins the relational
//! invariants: keys are unique, edges are unique on their pair and
//! reference existing rows, and timestamps are never negative.

use vstd::prelude::*;
use crate::types::{Collector, Item, ItemType, Target};

verus! {

/// Freshness window in seconds: an entity is fresh for 30 days.
pub const THIRTY_DAYS: i64 = 2592000;

/// One edge of the bipartite graph: `fan_id` collects `item_id`.
#[derive(Clone, Copy, Debug, PartialEq, Eq, Structural)]
pub struct Edge {
    pub fan_id: i64,
    pub item_id: i64,
}

/// Stored collector row. `last_updated == 0` means "never fully
/// crawled"; it is set to the crawl time only when a full crawl of the
/// collector's collection completes.
#[derive(Clone, Debug)]
pub struct CollectorRow {
    pub fan_id: i64,
    pub username: String,
    pub name: String,
    pub token: Option<String>,
    pub last_updated: i64,
}

/// Stored item row; the album collapse of [`Store::upsert_item`] has
/// already been applied, so the row carries no album fields.
#[derive(Clone, Debug)]
pub struct ItemRow {
    pub item_id: i64,
    pub item_type: ItemType,
    pub item_title: String,
    pub item_url: String,
    pub band_id: i64,
    pub band_name: String,
    pub token: Option<String>,
    pub also_collected_count: i64,
    pub last_updated: i64,
}

/// Whether some collector row carries this fan id.
pub open spec fn has_fan(rows: Seq<CollectorRow>, fan: int) -> bool {
    exists|k: int| 0 <= k < rows.len() && rows[k].fan_id == fan
}

/// Whether some item row carries this item id.
pub open spec fn has_item(rows: Seq<ItemRow>, item: int) -> bool {
    exists|k: int| 0 <= k < rows.len() && rows[k].item_id == item
}

/// Whether the edge `(fan, item)` is present.
pub open spec fn has_edge(es: Seq<Edge>, fan: int, item: int) -> bool {
    exists|k: int| 0 <= k < es.len() && es[k].fan_id == fan && es[k].item_id == item
}

/// Collector rows are keyed by fan id.
pub open spec fn unique_fans(rows: Seq<CollectorRow>) -> bool {
    forall|i: int, j: int|
        0 <= i < j < rows.len() ==> rows[i].fan_id != rows[j].fan_id
}

/// Item rows are keyed by item id.
pub open spec fn unique_items(rows: Seq<ItemRow>) -> bool {
    forall|i: int, j: int|
        0 <= i < j < rows.len() ==> rows[i].item_id != rows[j].item_id
}

/// Edges are unique on the `(fan_id, item_id)` pair.
pub open spec fn unique_edges(es: Seq<Edge>) -> bool {
    forall|i: int, j: int|
        0 <= i < j < es.len() ==> !(es[i].fan_id == es[j].fan_id && es[i].item_id == es[j].item_id)
}

/// A queue holds each key at most once.
pub open spec fn unique_keys(q: Seq<i64>) -> bool {
    forall|i: int, j: int| 0 <= i < j < q.len() ==> q[i] != q[j]
}

/// Targets are keyed by fan id.
pub open spec fn unique_target_fans(ts: Seq<Target>) -> bool {
    forall|i: int, j: int|
        0 <= i < j < ts.len() ==> ts[i].fan_id != ts[j].fan_id
}

/// Every edge references an existing collector row and an existing
/// item row.
pub open spec fn edges_closed(es: Seq<Edge>, cs: Seq<CollectorRow>, is: Seq<ItemRow>) -> bool {
    forall|k: int|
        0 <= k < es.len() ==> has_fan(cs, (#[trigger] es[k]).fan_id as int) && has_item(
            is,
            es[k].item_id as int,
        )
}

/// Crawl timestamps are epoch seconds, never negative.
pub open spec fn collectors_timestamped(rows: Seq<CollectorRow>) -> bool {
    forall|k: int| 0 <= k < rows.len() ==> #[trigger] rows[k].last_updated >= 0
}

/// Crawl timestamps are epoch seconds, never negative.
pub open spec fn items_timestamped(rows: Seq<ItemRow>) -> bool {
    forall|k: int| 0 <= k < rows.len() ==> #[trigger] rows[k].last_updated >= 0
}

/// The relational cache. A single process owns it; workers and the
/// progress manager share it through the operations below.
pub struct Store {
    pub collectors: Vec<CollectorRow>,
    pub items: Vec<ItemRow>,
    pub collects: Vec<Edge>,
    pub collected_by: Vec<Edge>,
    pub collection_queue: Vec<i64>,
    pub item_queue: Vec<i64>,
    pub targets: Vec<Target>,
}

pub open spec fn same_collectors(a: Store, b: Store) -> bool {
    a.collectors@ == b.collectors@
}

pub open spec fn same_items(a: Store, b: Store) -> bool {
    a.items@ == b.items@
}

pub open spec fn same_collects(a: Store, b: Store) -> bool {
    a.collects@ == b.collects@
}

pub open spec fn same_collected_by(a: Store, b: Store) -> bool {
    a.collected_by@ == b.collected_by@
}

pub open spec fn same_queues(a: Store, b: Store) -> bool {
    a.collection_queue@ == b.collection_queue@ && a.item_queue@ == b.item_queue@
}

pub open spec fn same_targets(a: Store, b: Store) -> bool {
    a.targets@ == b.targets@
}

/// The row a first-seen collector is stored as: token taken as given,
/// never crawled yet.
pub open spec fn new_collector_row(c: Collector) -> CollectorRow {
    CollectorRow {
        fan_id: c.fan_id,
        username: c.username,
        name: c.name,
        token: c.token,
        last_updated: 0,
    }
}

/// Monotone token fill: an upsert writes the incoming token only into
/// a row whose token is still null; everything else keeps its stored
/// value, so `last_updated` never regresses.
pub open spec fn merge_collector_row(row: CollectorRow, c: Collector) -> CollectorRow {
    CollectorRow {
        fan_id: row.fan_id,
        username: row.username,
        name: row.name,
        token: if row.token.is_none() {
            c.token
        } else {
            row.token
        },
        last_updated: row.last_updated,
    }
}

/// The whole collector table after an upsert: token fill on the row
/// carrying the fan id, or a new row appended.
pub open spec fn upsert_collector_rows(rows: Seq<CollectorRow>, c: Collector) -> Seq<
    CollectorRow,
> {
    if has_fan(rows, c.fan_id as int) {
        Seq::new(
            rows.len(),
            |k: int|
                if rows[k].fan_id == c.fan_id {
                    merge_collector_row(rows[k], c)
                } else {
                    rows[k]
                },
        )
    } else {
        rows.push(new_collector_row(c))
    }
}

/// The item identity used for storage and edges: the album container
/// when the remote record distinguishes one, else the item itself.
pub open spec fn collapsed_item_id(i: Item) -> i64 {
    match i.album_id {
        Some(album) => album,
        None => i.item_id,
    }
}

/// The row a first-seen item is stored as, album collapse applied.
pub open spec fn new_item_row(i: Item) -> ItemRow {
    ItemRow {
        item_id: collapsed_item_id(i),
        item_type: i.item_type,
        item_title: if i.album_title.is_some() {
            i.album_title.unwrap()
        } else {
            i.item_title
        },
        item_url: i.item_url,
        band_id: i.band_id,
        band_name: i.band_name,
        token: i.token,
        also_collected_count: i.also_collected_count,
        last_updated: 0,
    }
}

/// Monotone token fill for items, as [`merge_collector_row`] for
/// collectors.
pub open spec fn merge_item_row(row: ItemRow, i: Item) -> ItemRow {
    ItemRow {
        item_id: row.item_id,
        item_type: row.item_type,
        item_title: row.item_title,
        item_url: row.item_url,
        band_id: row.band_id,
        band_name: row.band_name,
        token: if row.token.is_none() {
            i.token
        } else {
            row.token
        },
        also_collected_count: row.also_collected_count,
        last_updated: row.last_updated,
    }
}

/// The whole item table after an upsert.
pub open spec fn upsert_item_rows(rows: Seq<ItemRow>, i: Item) -> Seq<ItemRow> {
    if has_item(rows, collapsed_item_id(i) as int) {
        Seq::new(
            rows.len(),
            |k: int|
                if rows[k].item_id == collapsed_item_id(i) {
                    merge_item_row(rows[k], i)
                } else {
                    rows[k]
                },
        )
    } else {
        rows.push(new_item_row(i))
    }
}

/// Inserting an edge is a no-op when the pair is already present.
pub open spec fn insert_edge(es: Seq<Edge>, e: Edge) -> Seq<Edge> {
    if has_edge(es, e.fan_id as int, e.item_id as int) {
        es
    } else {
        es.push(e)
    }
}

/// How often the pair of `e` occurs.
pub open spec fn edge_count(es: Seq<Edge>, e: Edge) -> nat
    decreases es.len(),
{
    if es.len() == 0 {
        0
    } else {
        edge_count(es.drop_last(), e) + (if es.last().fan_id == e.fan_id && es.last().item_id
            == e.item_id {
            1nat
        } else {
            0nat
        })
    }
}

proof fn lemma_edge_count_positive(es: Seq<Edge>, e: Edge)
    ensures
        edge_count(es, e) >= 1 <==> has_edge(es, e.fan_id as int, e.item_id as int),
    decreases es.len(),
{
    if es.len() > 0 {
        lemma_edge_count_positive(es.drop_last(), e);
        if has_edge(es.drop_last(), e.fan_id as int, e.item_id as int) {
            let k = choose|k: int|
                0 <= k < es.drop_last().len() && es.drop_last()[k].fan_id == e.fan_id
                    && es.drop_last()[k].item_id == e.item_id;
            assert(es[k] == es.drop_last()[k]);
        }
        if has_edge(es, e.fan_id as int, e.item_id as int) && !(es.last().fan_id == e.fan_id
            && es.last().item_id == e.item_id) {
            let k = choose|k: int|
                0 <= k < es.len() && es[k].fan_id == e.fan_id && es[k].item_id == e.item_id;
            assert(es.drop_last()[k] == es[k]);
        }
    }
}

proof fn lemma_edge_count_at_most_one(es: Seq<Edge>, e: Edge)
    requires
        unique_edges(es),
    ensures
        edge_count(es, e) <= 1,
    decreases es.len(),
{
    if es.len() > 0 {
        assert(unique_edges(es.drop_last())) by {
            assert(forall|i: int, j: int|
                0 <= i < j < es.drop_last().len() ==> es.drop_last()[i] == es[i]
                    && es.drop_last()[j] == es[j]);
        }
        lemma_edge_count_at_most_one(es.drop_last(), e);
        if es.last().fan_id == e.fan_id && es.last().item_id == e.item_id {
            lemma_edge_count_positive(es.drop_last(), e);
            if has_edge(es.drop_last(), e.fan_id as int, e.item_id as int) {
                let k = choose|k: int|
                    0 <= k < es.drop_last().len() && es.drop_last()[k].fan_id == e.fan_id
                        && es.drop_last()[k].item_id == e.item_id;
                assert(es[k] == es.drop_last()[k]);
                assert(!(es[k].fan_id == es[es.len() - 1].fan_id && es[k].item_id == es[es.len()
                    - 1].item_id));
            }
        }
    }
}

/// Edge idempotence: inserting a pair that is already present changes
/// nothing and is reported as a duplicate. Under the uniqueness
/// invariant, however often the same pair is inserted, exactly one
/// copy is present, and only an insert into a table without the pair
/// is reported as new.
pub proof fn lemma_edge_insert_idempotent(es: Seq<Edge>, e: Edge)
    requires
        unique_edges(es),
    ensures
        insert_edge(insert_edge(es, e), e) == insert_edge(es, e),
        has_edge(insert_edge(es, e), e.fan_id as int, e.item_id as int),
        edge_count(insert_edge(es, e), e) == 1,
        !has_edge(es, e.fan_id as int, e.item_id as int) ==> edge_count(es, e) == 0,
        unique_edges(insert_edge(es, e)),
{
    let es1 = insert_edge(es, e);
    if has_edge(es, e.fan_id as int, e.item_id as int) {
        lemma_edge_count_positive(es, e);
        lemma_edge_count_at_most_one(es, e);
    } else {
        lemma_edge_count_positive(es, e);
        assert(es1 == es.push(e));
        assert(es1.drop_last() == es);
        assert(es1.last() == e);
        assert(has_edge(es1, e.fan_id as int, e.item_id as int)) by {
            assert(es1[es.len() as int] == e);
        }
        assert(unique_edges(es1)) by {
            assert(forall|i: int| 0 <= i < es.len() ==> es1[i] == es[i]);
            assert(forall|i: int, j: int|
                0 <= i < j < es1.len() && j < es.len() ==> !(es1[i].fan_id == es1[j].fan_id
                    && es1[i].item_id == es1[j].item_id));
            assert(forall|i: int| 0 <= i < es.len() ==> !(es1[i].fan_id == e.fan_id
                && es1[i].item_id == e.item_id));
        }
    }
}

impl Store {
    /// Relational invariants of the cache.
    pub open spec fn wf(self) -> bool {
        &&& unique_fans(self.collectors@)
        &&& unique_items(self.items@)
        &&& unique_edges(self.collects@)
        &&& unique_edges(self.collected_by@)
        &&& unique_keys(self.collection_queue@)
        &&& unique_keys(self.item_queue@)
        &&& unique_target_fans(self.targets@)
        &&& edges_closed(self.collects@, self.collectors@, self.items@)
        &&& edges_closed(self.collected_by@, self.collectors@, self.items@)
        &&& collectors_timestamped(self.collectors@)
        &&& items_timestamped(self.items@)
    }

    /// An empty cache, as a fresh database starts.
    pub fn new() -> (r: Store)
        ensures
            r.wf(),
            r.collectors@.len() == 0,
            r.items@.len() == 0,
            r.collects@.len() == 0,
            r.collected_by@.len() == 0,
            r.collection_queue@.len() == 0,
            r.item_queue@.len() == 0,
            r.targets@.len() == 0,
    {
        Store {
            collectors: Vec::new(),
            items: Vec::new(),
            collects: Vec::new(),
            collected_by: Vec::new(),
            collection_queue: Vec::new(),
            item_queue: Vec::new(),
            targets: Vec::new(),
        }
    }

    fn find_collector(&self, fan_id: i64) -> (r: Option<usize>)
        ensures
            (match r {
                Some(i) => 0 <= i < self.collectors@.len() && self.collectors@[i as int].fan_id
                    == fan_id,
                None => !has_fan(self.collectors@, fan_id as int),
            }),
    {
        let mut k: usize = 0;
        while k < self.collectors.len()
            invariant
                k <= self.collectors@.len(),
                forall|j: int| 0 <= j < k ==> self.collectors@[j].fan_id != fan_id,
            decreases self.collectors@.len() - k,
        {
            if self.collectors[k].fan_id == fan_id {
                return Some(k);
            }
            k += 1;
        }
        None
    }

    /// Idempotent collector upsert: a first-seen fan id is appended as
    /// a new row; an existing row only has a null token filled in, and
    /// keeps its name, username and crawl timestamp.
    pub fn add_collector(&mut self, c: &Collector)
        requires
            old(self).wf(),
        ensures
            final(self).wf(),
            final(self).collectors@.len() == old(self).collectors@.len() + (if has_fan(
                old(self).collectors@,
                c.fan_id as int,
            ) {
                0int
            } else {
                1int
            }),
            forall|k: int|
                0 <= k < old(self).collectors@.len() ==> final(self).collectors@[k] == (if old(
                    self,
                ).collectors@[k].fan_id == c.fan_id {
                    merge_collector_row(old(self).collectors@[k], *c)
                } else {
                    old(self).collectors@[k]
                }),
            !has_fan(old(self).collectors@, c.fan_id as int) ==> final(self).collectors@ == old(
                self,
            ).collectors@.push(new_collector_row(*c)),
            final(self).collectors@ == upsert_collector_rows(old(self).collectors@, *c),
            has_fan(final(self).collectors@, c.fan_id as int),
            same_items(*old(self), *final(self)),
            same_collects(*old(self), *final(self)),
            same_collected_by(*old(self), *final(self)),
            same_queues(*old(self), *final(self)),
            same_targets(*old(self), *final(self)),
    {
        match self.find_collector(c.fan_id) {
            Some(i) => {
                if self.collectors[i].token.is_none() {
                    self.collectors[i].token = clone_opt_string(&c.token);
                }
                proof {
                    assert(has_fan(old(self).collectors@, c.fan_id as int)) by {
                        assert(old(self).collectors@[i as int].fan_id == c.fan_id);
                    }
                    assert(final(self).collectors@[i as int] == merge_collector_row(
                        old(self).collectors@[i as int],
                        *c,
                    ));
                    assert(final(self).collectors@ =~= upsert_collector_rows(
                        old(self).collectors@,
                        *c,
                    ));
                    assert(has_fan(final(self).collectors@, c.fan_id as int)) by {
                        assert(final(self).collectors@[i as int].fan_id == c.fan_id);
                    }
                    assert(forall|k: int|
                        0 <= k < old(self).collectors@.len() && #[trigger] old(
                            self,
                        ).collectors@[k].fan_id == c.fan_id ==> k == i);
                    assert forall|f: int| has_fan(old(self).collectors@, f) implies has_fan(
                        final(self).collectors@,
                        f,
                    ) by {
                        let k = choose|k: int|
                            0 <= k < old(self).collectors@.len() && old(
                                self,
                            ).collectors@[k].fan_id == f;
                        assert(final(self).collectors@[k].fan_id == f);
                    };
                    lemma_closed_under_same_fans(
                        old(self).collects@,
                        old(self).collectors@,
                        final(self).collectors@,
                        old(self).items@,
                    );
                    lemma_closed_under_same_fans(
                        old(self).collected_by@,
                        old(self).collectors@,
                        final(self).collectors@,
                        old(self).items@,
                    );
                }
            },
            None => {
                let row = CollectorRow {
                    fan_id: c.fan_id,
                    username: c.username.clone(),
                    name: c.name.clone(),
                    token: clone_opt_string(&c.token),
                    last_updated: 0,
                };
                proof {
                    assert(row == new_collector_row(*c));
                }
                self.collectors.push(row);
                proof {
                    let post = final(self).collectors@;
                    let pre = old(self).collectors@;
                    assert(forall|k: int| 0 <= k < pre.len() ==> post[k] == pre[k]);
                    assert(post[pre.len() as int].fan_id == c.fan_id);
                    assert(unique_fans(post));
                    assert forall|f: int| has_fan(pre, f) implies has_fan(post, f) by {
                        let k = choose|k: int| 0 <= k < pre.len() && pre[k].fan_id == f;
                        assert(post[k].fan_id == f);
                    };
                    lemma_closed_under_same_fans(
                        old(self).collects@,
                        pre,
                        post,
                        old(self).items@,
                    );
                    lemma_closed_under_same_fans(
                        old(self).collected_by@,
                        pre,
                        post,
                        old(self).items@,
                    );
                }
            },
        }
    }
    fn find_item(&self, item_id: i64) -> (r: Option<usize>)
        ensures
            (match r {
                Some(i) => 0 <= i < self.items@.len() && self.items@[i as int].item_id == item_id,
                None => !has_item(self.items@, item_id as int),
            }),
    {
        let mut k: usize = 0;
        while k < self.items.len()
            invariant
                k <= self.items@.len(),
                forall|j: int| 0 <= j < k ==> self.items@[j].item_id != item_id,
            decreases self.items@.len() - k,
        {
            if self.items[k].item_id == item_id {
                return Some(k);
            }
            k += 1;
        }
        None
    }

    /// Idempotent item upsert with the album collapse: the row is
    /// keyed by the album container's id when one is given, and the
    /// album title replaces the track title. An existing row only has
    /// a null token filled in.
    pub fn upsert_item(&mut self, i: &Item)
        requires
            old(self).wf(),
        ensures
            final(self).wf(),
            final(self).items@ == upsert_item_rows(old(self).items@, *i),
            has_item(final(self).items@, collapsed_item_id(*i) as int),
            forall|k: int|
                0 <= k < old(self).items@.len() ==> final(self).items@[k] == (if old(
                    self,
                ).items@[k].item_id == collapsed_item_id(*i) {
                    merge_item_row(old(self).items@[k], *i)
                } else {
                    old(self).items@[k]
                }),
            same_collectors(*old(self), *final(self)),
            same_collects(*old(self), *final(self)),
            same_collected_by(*old(self), *final(self)),
            same_queues(*old(self), *final(self)),
            same_targets(*old(self), *final(self)),
    {
        let id: i64 = match i.album_id {
            Some(album) => album,
            None => i.item_id,
        };
        match self.find_item(id) {
            Some(k) => {
                if self.items[k].token.is_none() {
                    self.items[k].token = clone_opt_string(&i.token);
                }
                proof {
                    assert(has_item(old(self).items@, id as int)) by {
                        assert(old(self).items@[k as int].item_id == id);
                    }
                    assert(final(self).items@[k as int] == merge_item_row(
                        old(self).items@[k as int],
                        *i,
                    ));
                    assert(final(self).items@ =~= upsert_item_rows(old(self).items@, *i));
                    assert(has_item(final(self).items@, id as int)) by {
                        assert(final(self).items@[k as int].item_id == id);
                    }
                    assert forall|f: int| has_item(old(self).items@, f) implies has_item(
                        final(self).items@,
                        f,
                    ) by {
                        let j = choose|j: int|
                            0 <= j < old(self).items@.len() && old(self).items@[j].item_id == f;
                        assert(final(self).items@[j].item_id == f);
                    };
                    lemma_closed_under_same_items(
                        old(self).collects@,
                        old(self).collectors@,
                        old(self).items@,
                        final(self).items@,
                    );
                    lemma_closed_under_same_items(
                        old(self).collected_by@,
                        old(self).collectors@,
                        old(self).items@,
                        final(self).items@,
                    );
                }
            },
            None => {
                let title: String = match &i.album_title {
                    Some(t) => t.clone(),
                    None => i.item_title.clone(),
                };
                let row = ItemRow {
                    item_id: id,
                    item_type: i.item_type,
                    item_title: title,
                    item_url: i.item_url.clone(),
                    band_id: i.band_id,
                    band_name: i.band_name.clone(),
                    token: clone_opt_string(&i.token),
                    also_collected_count: i.also_collected_count,
                    last_updated: 0,
                };
                proof {
                    assert(row == new_item_row(*i));
                }
                self.items.push(row);
                proof {
                    let post = final(self).items@;
                    let pre = old(self).items@;
                    assert(forall|k: int| 0 <= k < pre.len() ==> post[k] == pre[k]);
                    assert(post[pre.len() as int].item_id == id);
                    assert(unique_items(post));
                    assert(has_item(post, id as int));
                    assert forall|f: int| has_item(pre, f) implies has_item(post, f) by {
                        let j = choose|j: int| 0 <= j < pre.len() && pre[j].item_id == f;
                        assert(post[j].item_id == f);
                    };
                    lemma_closed_under_same_items(
                        old(self).collects@,
                        old(self).collectors@,
                        pre,
                        post,
                    );
                    lemma_closed_under_same_items(
                        old(self).collected_by@,
                        old(self).collectors@,
                        pre,
                        post,
                    );
                }
            },
        }
    }

    /// Idempotent edge insert into the collects relation. Reports
    /// whether the edge was newly inserted; a duplicate changes
    /// nothing. This report is the source of the paginator's done
    /// signal.
    pub fn insert_collects(&mut self, fan_id: i64, item_id: i64) -> (newly: bool)
        requires
            old(self).wf(),
            has_fan(old(self).collectors@, fan_id as int),
            has_item(old(self).items@, item_id as int),
        ensures
            final(self).wf(),
            newly == !has_edge(old(self).collects@, fan_id as int, item_id as int),
            final(self).collects@ == insert_edge(old(self).collects@, (Edge { fan_id, item_id })),
            has_edge(final(self).collects@, fan_id as int, item_id as int),
            same_collectors(*old(self), *final(self)),
            same_items(*old(self), *final(self)),
            same_collected_by(*old(self), *final(self)),
            same_queues(*old(self), *final(self)),
            same_targets(*old(self), *final(self)),
    {
        proof {
            lemma_edge_insert_idempotent(old(self).collects@, (Edge { fan_id, item_id }));
        }
        let present = find_edge(&self.collects, fan_id, item_id);
        if !present {
            self.collects.push(Edge { fan_id, item_id });
            proof {
                let pre = old(self).collects@;
                let post = final(self).collects@;
                assert(forall|k: int| 0 <= k < pre.len() ==> post[k] == pre[k]);
                assert(edges_closed(post, final(self).collectors@, final(self).items@)) by {
                    assert(post[pre.len() as int] == (Edge { fan_id, item_id }));
                }
            }
        }
        !present
    }

    /// Idempotent edge insert into the collected-by relation,
    /// symmetric to [`Store::insert_collects`].
    pub fn insert_collected_by(&mut self, item_id: i64, fan_id: i64) -> (newly: bool)
        requires
            old(self).wf(),
            has_fan(old(self).collectors@, fan_id as int),
            has_item(old(self).items@, item_id as int),
        ensures
            final(self).wf(),
            newly == !has_edge(old(self).collected_by@, fan_id as int, item_id as int),
            final(self).collected_by@ == insert_edge(
                old(self).collected_by@,
                (Edge { fan_id, item_id }),
            ),
            has_edge(final(self).collected_by@, fan_id as int, item_id as int),
            same_collectors(*old(self), *final(self)),
            same_items(*old(self), *final(self)),
            same_collects(*old(self), *final(self)),
            same_queues(*old(self), *final(self)),
            same_targets(*old(self), *final(self)),
    {
        proof {
            lemma_edge_insert_idempotent(old(self).collected_by@, (Edge { fan_id, item_id }));
        }
        let present = find_edge(&self.collected_by, fan_id, item_id);
        if !present {
            self.collected_by.push(Edge { fan_id, item_id });
            proof {
                let pre = old(self).collected_by@;
                let post = final(self).collected_by@;
                assert(forall|k: int| 0 <= k < pre.len() ==> post[k] == pre[k]);
                assert(edges_closed(post, final(self).collectors@, final(self).items@)) by {
                    assert(post[pre.len() as int] == (Edge { fan_id, item_id }));
                }
            }
        }
        !present
    }

    /// Store an item a collector's crawl returned and record the
    /// collects edge under the collapsed item id. Reports whether the
    /// edge was new.
    pub fn add_item_for_collector(&mut self, fan_id: i64, item: &Item) -> (newly: bool)
        requires
            old(self).wf(),
            has_fan(old(self).collectors@, fan_id as int),
        ensures
            final(self).wf(),
            newly == !has_edge(
                old(self).collects@,
                fan_id as int,
                collapsed_item_id(*item) as int,
            ),
            final(self).collects@ == insert_edge(
                old(self).collects@,
                (Edge { fan_id, item_id: collapsed_item_id(*item) }),
            ),
            final(self).items@ == upsert_item_rows(old(self).items@, *item),
            same_collectors(*old(self), *final(self)),
            same_collected_by(*old(self), *final(self)),
            same_queues(*old(self), *final(self)),
            same_targets(*old(self), *final(self)),
    {
        let id: i64 = match item.album_id {
            Some(album) => album,
            None => item.item_id,
        };
        self.upsert_item(item);
        self.insert_collects(fan_id, id)
    }

    /// Store a collector an item's crawl returned and record the
    /// collected-by edge. Reports whether the edge was new.
    pub fn add_collector_for_item(&mut self, item_id: i64, collector: &Collector) -> (newly: bool)
        requires
            old(self).wf(),
            has_item(old(self).items@, item_id as int),
        ensures
            final(self).wf(),
            newly == !has_edge(old(self).collected_by@, collector.fan_id as int, item_id as int),
            final(self).collected_by@ == insert_edge(
                old(self).collected_by@,
                (Edge { fan_id: collector.fan_id, item_id }),
            ),
            final(self).collectors@ == upsert_collector_rows(old(self).collectors@, *collector),
            same_items(*old(self), *final(self)),
            same_collects(*old(self), *final(self)),
            same_queues(*old(self), *final(self)),
            same_targets(*old(self), *final(self)),
    {
        self.add_collector(collector);
        self.insert_collected_by(item_id, collector.fan_id)
    }
}

pub(crate) fn find_edge(es: &Vec<Edge>, fan_id: i64, item_id: i64) -> (r: bool)
    ensures
        r == has_edge(es@, fan_id as int, item_id as int),
{
    let mut k: usize = 0;
    while k < es.len()
        invariant
            k <= es@.len(),
            forall|j: int| 0 <= j < k ==> !(es@[j].fan_id == fan_id && es@[j].item_id == item_id),
        decreases es@.len() - k,
    {
        if es[k].fan_id == fan_id && es[k].item_id == item_id {
            return true;
        }
        k += 1;
    }
    false
}

/// The first collector row carrying this username, scanning in table
/// order. Usernames are unique on the remote service, so the first
/// match is the row.
pub open spec fn first_collector_with_username(rows: Seq<CollectorRow>, name: Seq<char>) -> Option<
    CollectorRow,
>
    decreases rows.len(),
{
    if rows.len() == 0 {
        None
    } else if rows.first().username@ == name {
        Some(rows.first())
    } else {
        first_collector_with_username(rows.drop_first(), name)
    }
}

/// The fan id the store resolves a username to.
pub open spec fn fan_for_username(rows: Seq<CollectorRow>, name: Seq<char>) -> Option<i64> {
    match first_collector_with_username(rows, name) {
        Some(row) => Some(row.fan_id),
        None => None,
    }
}

proof fn lemma_first_username_at(rows: Seq<CollectorRow>, name: Seq<char>, k: int)
    requires
        0 <= k < rows.len(),
        rows[k].username@ == name,
        forall|j: int| 0 <= j < k ==> rows[j].username@ != name,
    ensures
        first_collector_with_username(rows, name) == Some(rows[k]),
    decreases k,
{
    if k > 0 {
        assert(forall|j: int| 0 <= j < k - 1 ==> rows.drop_first()[j] == rows[j + 1]);
        lemma_first_username_at(rows.drop_first(), name, k - 1);
    }
}

proof fn lemma_first_username_none(rows: Seq<CollectorRow>, name: Seq<char>)
    requires
        forall|j: int| 0 <= j < rows.len() ==> rows[j].username@ != name,
    ensures
        first_collector_with_username(rows, name) == None::<CollectorRow>,
    decreases rows.len(),
{
    if rows.len() > 0 {
        assert(forall|j: int| 0 <= j < rows.len() - 1 ==> rows.drop_first()[j] == rows[j + 1]);
        lemma_first_username_none(rows.drop_first(), name);
    }
}

/// Freshness of the row a username resolves to: the row exists and
/// was fully crawled within the last 30 days.
pub open spec fn collector_fresh_at(rows: Seq<CollectorRow>, name: Seq<char>, now: int) -> bool {
    match first_collector_with_username(rows, name) {
        Some(row) => now - row.last_updated < THIRTY_DAYS,
        None => false,
    }
}

/// Freshness of the item row with this id.
pub open spec fn item_fresh_at(rows: Seq<ItemRow>, item: int, now: int) -> bool {
    exists|k: int|
        0 <= k < rows.len() && rows[k].item_id == item && now - rows[k].last_updated < THIRTY_DAYS
}

/// A collector row with this fan id exists and is out of the
/// freshness window.
pub open spec fn stale_fan(rows: Seq<CollectorRow>, fan: int, now: int) -> bool {
    exists|k: int|
        0 <= k < rows.len() && rows[k].fan_id == fan && now - rows[k].last_updated >= THIRTY_DAYS
}

/// An item row with this id exists and is out of the freshness
/// window.
pub open spec fn stale_item(rows: Seq<ItemRow>, item: int, now: int) -> bool {
    exists|k: int|
        0 <= k < rows.len() && rows[k].item_id == item && now - rows[k].last_updated >= THIRTY_DAYS
}

/// The collector table after a completed crawl of `name` is recorded
/// at time `now`.
pub open spec fn mark_collector_rows(rows: Seq<CollectorRow>, name: Seq<char>, now: i64) -> Seq<
    CollectorRow,
> {
    Seq::new(
        rows.len(),
        |k: int|
            if rows[k].username@ == name {
                CollectorRow {
                    fan_id: rows[k].fan_id,
                    username: rows[k].username,
                    name: rows[k].name,
                    token: rows[k].token,
                    last_updated: now,
                }
            } else {
                rows[k]
            },
    )
}

/// The item table after a completed crawl of `item` is recorded at
/// time `now`.
pub open spec fn mark_item_rows(rows: Seq<ItemRow>, item: i64, now: i64) -> Seq<ItemRow> {
    Seq::new(
        rows.len(),
        |k: int|
            if rows[k].item_id == item {
                ItemRow {
                    item_id: rows[k].item_id,
                    item_type: rows[k].item_type,
                    item_title: rows[k].item_title,
                    item_url: rows[k].item_url,
                    band_id: rows[k].band_id,
                    band_name: rows[k].band_name,
                    token: rows[k].token,
                    also_collected_count: rows[k].also_collected_count,
                    last_updated: now,
                }
            } else {
                rows[k]
            },
    )
}

/// The collects relation after the rollback of one fan's edges.
pub open spec fn drop_fan_edges(es: Seq<Edge>, fan: i64) -> Seq<Edge>
    decreases es.len(),
{
    if es.len() == 0 {
        Seq::empty()
    } else {
        let rest = drop_fan_edges(es.drop_last(), fan);
        if es.last().fan_id == fan {
            rest
        } else {
            rest.push(es.last())
        }
    }
}

/// The collected-by relation after the rollback of one item's edges.
pub open spec fn drop_item_edges(es: Seq<Edge>, item: i64) -> Seq<Edge>
    decreases es.len(),
{
    if es.len() == 0 {
        Seq::empty()
    } else {
        let rest = drop_item_edges(es.drop_last(), item);
        if es.last().item_id == item {
            rest
        } else {
            rest.push(es.last())
        }
    }
}

/// Rolling back one fan's edges keeps exactly the edges of every
/// other fan, and keeps the relational invariants.
pub proof fn lemma_drop_fan_edges(es: Seq<Edge>, fan: i64)
    ensures
        forall|f: int, i: int|
            #[trigger] has_edge(drop_fan_edges(es, fan), f, i) <==> has_edge(es, f, i) && f
                != fan as int,
        forall|k: int|
            0 <= k < drop_fan_edges(es, fan).len() ==> es.contains(
                #[trigger] drop_fan_edges(es, fan)[k],
            ) && drop_fan_edges(es, fan)[k].fan_id != fan,
        unique_edges(es) ==> unique_edges(drop_fan_edges(es, fan)),
    decreases es.len(),
{
    if es.len() > 0 {
        lemma_drop_fan_edges(es.drop_last(), fan);
        let res = drop_fan_edges(es, fan);
        let rest = drop_fan_edges(es.drop_last(), fan);
        assert(forall|k: int|
            0 <= k < es.drop_last().len() ==> es.contains(#[trigger] es.drop_last()[k])) by {
            assert(forall|k: int| 0 <= k < es.drop_last().len() ==> es.drop_last()[k] == es[k]);
        }
        assert(es.contains(es.last())) by {
            assert(es[es.len() - 1] == es.last());
        }
        assert forall|f: int, i: int| has_edge(es, f, i) && f != fan as int implies #[trigger]
        has_edge(res, f, i) by {
            let k = choose|k: int|
                0 <= k < es.len() && es[k].fan_id == f && es[k].item_id == i;
            if k < es.len() - 1 {
                assert(es.drop_last()[k] == es[k]);
                assert(has_edge(es.drop_last(), f, i));
                assert(has_edge(rest, f, i));
                if es.last().fan_id != fan {
                    let j = choose|j: int|
                        0 <= j < rest.len() && rest[j].fan_id == f && rest[j].item_id == i;
                    assert(res[j] == rest[j]);
                }
            } else {
                assert(es.last() == es[k]);
                assert(res[res.len() - 1] == es.last());
            }
        }
        assert forall|f: int, i: int| #[trigger] has_edge(res, f, i) implies has_edge(es, f, i)
            && f != fan as int by {
            let k = choose|k: int|
                0 <= k < res.len() && res[k].fan_id == f && res[k].item_id == i;
            if es.last().fan_id != fan && k == res.len() - 1 {
                assert(res[k] == es.last());
                assert(es[es.len() - 1] == es.last());
            } else {
                assert(has_edge(rest, f, i)) by {
                    assert(rest[k] == res[k]);
                }
                assert(has_edge(es.drop_last(), f, i));
                let j = choose|j: int|
                    0 <= j < es.drop_last().len() && es.drop_last()[j].fan_id == f
                        && es.drop_last()[j].item_id == i;
                assert(es[j] == es.drop_last()[j]);
            }
        }
        if unique_edges(es) {
            assert(unique_edges(es.drop_last())) by {
                assert(forall|k: int|
                    0 <= k < es.drop_last().len() ==> es.drop_last()[k] == es[k]);
            }
            if es.last().fan_id != fan {
                assert(!has_edge(rest, es.last().fan_id as int, es.last().item_id as int)) by {
                    if has_edge(rest, es.last().fan_id as int, es.last().item_id as int) {
                        assert(has_edge(
                            es.drop_last(),
                            es.last().fan_id as int,
                            es.last().item_id as int,
                        ));
                        let j = choose|j: int|
                            0 <= j < es.drop_last().len() && es.drop_last()[j].fan_id
                                == es.last().fan_id && es.drop_last()[j].item_id
                                == es.last().item_id;
                        assert(es[j] == es.drop_last()[j]);
                        assert(!(es[j].fan_id == es[es.len() - 1].fan_id && es[j].item_id
                            == es[es.len() - 1].item_id));
                    }
                }
                assert forall|a: int, b: int| 0 <= a < b < res.len() implies !(res[a].fan_id
                    == res[b].fan_id && res[a].item_id == res[b].item_id) by {
                    if b < res.len() - 1 {
                        assert(res[a] == rest[a] && res[b] == rest[b]);
                    } else {
                        assert(res[b] == es.last());
                        assert(res[a] == rest[a]);
                        assert(has_edge(rest, rest[a].fan_id as int, rest[a].item_id as int));
                    }
                }
            }
        }
    }
}

/// Rolling back one item's edges keeps exactly the edges of every
/// other item, and keeps the relational invariants.
pub proof fn lemma_drop_item_edges(es: Seq<Edge>, item: i64)
    ensures
        forall|f: int, i: int|
            #[trigger] has_edge(drop_item_edges(es, item), f, i) <==> has_edge(es, f, i) && i
                != item as int,
        forall|k: int|
            0 <= k < drop_item_edges(es, item).len() ==> es.contains(
                #[trigger] drop_item_edges(es, item)[k],
            ) && drop_item_edges(es, item)[k].item_id != item,
        unique_edges(es) ==> unique_edges(drop_item_edges(es, item)),
    decreases es.len(),
{
    if es.len() > 0 {
        lemma_drop_item_edges(es.drop_last(), item);
        let res = drop_item_edges(es, item);
        let rest = drop_item_edges(es.drop_last(), item);
        assert(forall|k: int|
            0 <= k < es.drop_last().len() ==> es.contains(#[trigger] es.drop_last()[k])) by {
            assert(forall|k: int| 0 <= k < es.drop_last().len() ==> es.drop_last()[k] == es[k]);
        }
        assert(es.contains(es.last())) by {
            assert(es[es.len() - 1] == es.last());
        }
        assert forall|f: int, i: int| has_edge(es, f, i) && i != item as int implies #[trigger]
        has_edge(res, f, i) by {
            let k = choose|k: int|
                0 <= k < es.len() && es[k].fan_id == f && es[k].item_id == i;
            if k < es.len() - 1 {
                assert(es.drop_last()[k] == es[k]);
                assert(has_edge(es.drop_last(), f, i));
                assert(has_edge(rest, f, i));
                if es.last().item_id != item {
                    let j = choose|j: int|
                        0 <= j < rest.len() && rest[j].fan_id == f && rest[j].item_id == i;
                    assert(res[j] == rest[j]);
                }
            } else {
                assert(es.last() == es[k]);
                assert(res[res.len() - 1] == es.last());
            }
        }
        assert forall|f: int, i: int| #[trigger] has_edge(res, f, i) implies has_edge(es, f, i)
            && i != item as int by {
            let k = choose|k: int|
                0 <= k < res.len() && res[k].fan_id == f && res[k].item_id == i;
            if es.last().item_id != item && k == res.len() - 1 {
                assert(res[k] == es.last());
                assert(es[es.len() - 1] == es.last());
            } else {
                assert(has_edge(rest, f, i)) by {
                    assert(rest[k] == res[k]);
                }
                assert(has_edge(es.drop_last(), f, i));
                let j = choose|j: int|
                    0 <= j < es.drop_last().len() && es.drop_last()[j].fan_id == f
                        && es.drop_last()[j].item_id == i;
                assert(es[j] == es.drop_last()[j]);
            }
        }
        if unique_edges(es) {
            assert(unique_edges(es.drop_last())) by {
                assert(forall|k: int|
                    0 <= k < es.drop_last().len() ==> es.drop_last()[k] == es[k]);
            }
            if es.last().item_id != item {
                assert(!has_edge(rest, es.last().fan_id as int, es.last().item_id as int)) by {
                    if has_edge(rest, es.last().fan_id as int, es.last().item_id as int) {
                        assert(has_edge(
                            es.drop_last(),
                            es.last().fan_id as int,
                            es.last().item_id as int,
                        ));
                        let j = choose|j: int|
                            0 <= j < es.drop_last().len() && es.drop_last()[j].fan_id
                                == es.last().fan_id && es.drop_last()[j].item_id
                                == es.last().item_id;
                        assert(es[j] == es.drop_last()[j]);
                        assert(!(es[j].fan_id == es[es.len() - 1].fan_id && es[j].item_id
                            == es[es.len() - 1].item_id));
                    }
                }
                assert forall|a: int, b: int| 0 <= a < b < res.len() implies !(res[a].fan_id
                    == res[b].fan_id && res[a].item_id == res[b].item_id) by {
                    if b < res.len() - 1 {
                        assert(res[a] == rest[a] && res[b] == rest[b]);
                    } else {
                        assert(res[b] == es.last());
                        assert(res[a] == rest[a]);
                        assert(has_edge(rest, rest[a].fan_id as int, rest[a].item_id as int));
                    }
                }
            }
        }
    }
}

/// Token-fill monotonicity for items, as
/// [`lemma_collector_token_fill`] for collectors.
pub proof fn lemma_item_token_fill(row: ItemRow, i: Item)
    ensures
        row.token.is_some() ==> merge_item_row(row, i).token == row.token,
        row.token.is_none() ==> merge_item_row(row, i).token == i.token,
{
}

/// Growing or token-filling the item table keeps every item id it
/// already had, so the edge tables stay closed.
proof fn lemma_closed_under_same_items(
    es: Seq<Edge>,
    cs: Seq<CollectorRow>,
    pre: Seq<ItemRow>,
    post: Seq<ItemRow>,
)
    requires
        edges_closed(es, cs, pre),
        forall|f: int| has_item(pre, f) ==> has_item(post, f),
    ensures
        edges_closed(es, cs, post),
{
    assert forall|k: int| 0 <= k < es.len() implies has_fan(cs, (#[trigger] es[k]).fan_id as int)
        && has_item(post, es[k].item_id as int) by {
        assert(has_item(pre, es[k].item_id as int));
    }
}

/// Growing or token-filling the collector table keeps every fan id it
/// already had, so the edge tables stay closed.
proof fn lemma_closed_under_same_fans(
    es: Seq<Edge>,
    pre: Seq<CollectorRow>,
    post: Seq<CollectorRow>,
    is: Seq<ItemRow>,
)
    requires
        edges_closed(es, pre, is),
        forall|f: int| has_fan(pre, f) ==> has_fan(post, f),
    ensures
        edges_closed(es, post, is),
{
    assert forall|k: int| 0 <= k < es.len() implies has_fan(post, (#[trigger] es[k]).fan_id as int)
        && has_item(is, es[k].item_id as int) by {
        assert(has_fan(pre, es[k].fan_id as int));
    }
}

/// Token-fill monotonicity: an upsert never overwrites a non-null
/// token with anything, null included.
pub proof fn lemma_collector_token_fill(row: CollectorRow, c: Collector)
    ensures
        row.token.is_some() ==> merge_collector_row(row, c).token == row.token,
        row.token.is_none() ==> merge_collector_row(row, c).token == c.token,
{
}

fn clone_opt_string(t: &Option<String>) -> (r: Option<String>)
    ensures
        r == *t,
{
    match t {
        Some(s) => Some(s.clone()),
        None => None,
    }
}

/// A queue after one key is removed.
pub open spec fn drop_key(q: Seq<i64>, key: i64) -> Seq<i64>
    decreases q.len(),
{
    if q.len() == 0 {
        Seq::empty()
    } else {
        let rest = drop_key(q.drop_last(), key);
        if q.last() == key {
            rest
        } else {
            rest.push(q.last())
        }
    }
}

/// Removing a key from a queue keeps exactly the other keys.
pub proof fn lemma_drop_key(q: Seq<i64>, key: i64)
    ensures
        forall|x: i64| #[trigger] drop_key(q, key).contains(x) <==> q.contains(x) && x != key,
        unique_keys(q) ==> unique_keys(drop_key(q, key)),
    decreases q.len(),
{
    if q.len() > 0 {
        lemma_drop_key(q.drop_last(), key);
        let res = drop_key(q, key);
        let rest = drop_key(q.drop_last(), key);
        assert forall|x: i64| q.contains(x) && x != key implies #[trigger] res.contains(x) by {
            let k = choose|k: int| 0 <= k < q.len() && q[k] == x;
            if k < q.len() - 1 {
                assert(q.drop_last()[k] == x);
                assert(q.drop_last().contains(x));
                assert(rest.contains(x));
                if q.last() != key {
                    let j = choose|j: int| 0 <= j < rest.len() && rest[j] == x;
                    assert(res[j] == x);
                }
            } else {
                assert(q.last() == x);
                assert(res[res.len() - 1] == x);
            }
        }
        assert forall|x: i64| #[trigger] res.contains(x) implies q.contains(x) && x != key by {
            let k = choose|k: int| 0 <= k < res.len() && res[k] == x;
            if q.last() != key && k == res.len() - 1 {
                assert(res[k] == q.last());
                assert(q[q.len() - 1] == q.last());
            } else {
                assert(rest.contains(x)) by {
                    assert(rest[k] == res[k]);
                }
                assert(q.drop_last().contains(x));
                let j = choose|j: int| 0 <= j < q.drop_last().len() && q.drop_last()[j] == x;
                assert(q[j] == x);
            }
        }
        if unique_keys(q) {
            assert(unique_keys(q.drop_last())) by {
                assert(forall|k: int| 0 <= k < q.drop_last().len() ==> q.drop_last()[k] == q[k]);
            }
            if q.last() != key {
                assert(!rest.contains(q.last())) by {
                    if rest.contains(q.last()) {
                        assert(q.drop_last().contains(q.last()));
                        let j = choose|j: int|
                            0 <= j < q.drop_last().len() && q.drop_last()[j] == q.last();
                        assert(q[j] == q[q.len() - 1]);
                    }
                }
                assert forall|a: int, b: int| 0 <= a < b < res.len() implies res[a] != res[b] by {
                    if b < res.len() - 1 {
                        assert(res[a] == rest[a] && res[b] == rest[b]);
                    } else {
                        assert(res[b] == q.last());
                        assert(res[a] == rest[a]);
                        assert(rest.contains(rest[a]));
                    }
                }
            }
        }
    }
}

pub(crate) fn vec_contains_key(v: &Vec<i64>, x: i64) -> (r: bool)
    ensures
        r == v@.contains(x),
{
    let mut k: usize = 0;
    while k < v.len()
        invariant
            k <= v@.len(),
            forall|j: int| 0 <= j < k ==> v@[j] != x,
        decreases v@.len() - k,
    {
        if v[k] == x {
            proof {
                assert(v@[k as int] == x);
            }
            return true;
        }
        k += 1;
    }
    false
}

/// The stored item an id resolves to. Meaningful only when the table
/// holds the id; [`lemma_item_row_for`] ties it to the table.
pub open spec fn item_row_for(rows: Seq<ItemRow>, item: int) -> ItemRow {
    rows[choose|k: int| 0 <= k < rows.len() && rows[k].item_id == item]
}

/// Under key uniqueness, any row carrying the id is the resolved row.
pub proof fn lemma_item_row_for(rows: Seq<ItemRow>, item: int, k: int)
    requires
        unique_items(rows),
        0 <= k < rows.len(),
        rows[k].item_id == item,
    ensures
        item_row_for(rows, item) == rows[k],
{
    let j = choose|j: int| 0 <= j < rows.len() && rows[j].item_id == item;
    assert(rows[j].item_id == item);
}

/// The stored collector a fan id resolves to, as [`item_row_for`].
pub open spec fn collector_row_for(rows: Seq<CollectorRow>, fan: int) -> CollectorRow {
    rows[choose|k: int| 0 <= k < rows.len() && rows[k].fan_id == fan]
}

/// Under key uniqueness, any row carrying the fan id is the resolved
/// row.
pub proof fn lemma_collector_row_for(rows: Seq<CollectorRow>, fan: int, k: int)
    requires
        unique_fans(rows),
        0 <= k < rows.len(),
        rows[k].fan_id == fan,
    ensures
        collector_row_for(rows, fan) == rows[k],
{
    let j = choose|j: int| 0 <= j < rows.len() && rows[j].fan_id == fan;
    assert(rows[j].fan_id == fan);
}

/// The value row a stored item is handed out as: the album collapse
/// left no separate album fields to report.
pub open spec fn item_of_row(row: ItemRow) -> Item {
    Item {
        item_id: row.item_id,
        item_type: row.item_type,
        item_title: row.item_title,
        item_url: row.item_url,
        album_id: None,
        album_title: None,
        band_id: row.band_id,
        band_name: row.band_name,
        token: row.token,
        also_collected_count: row.also_collected_count,
    }
}

/// Turn a stored row into the item value the engine hands out.
pub fn item_from_row(row: &ItemRow) -> (r: Item)
    ensures
        r == item_of_row(*row),
{
    Item {
        item_id: row.item_id,
        item_type: row.item_type,
        item_title: row.item_title.clone(),
        item_url: row.item_url.clone(),
        album_id: None,
        album_title: None,
        band_id: row.band_id,
        band_name: row.band_name.clone(),
        token: clone_opt_string(&row.token),
        also_collected_count: row.also_collected_count,
    }
}

impl Store {
    /// The fan id a username resolves to, if any.
    pub fn get_fan_id_for_username(&self, name: &String) -> (r: Option<i64>)
        ensures
            r == fan_for_username(self.collectors@, name@),
    {
        let mut k: usize = 0;
        while k < self.collectors.len()
            invariant
                k <= self.collectors@.len(),
                forall|j: int| 0 <= j < k ==> self.collectors@[j].username@ != name@,
            decreases self.collectors@.len() - k,
        {
            if self.collectors[k].username == *name {
                proof {
                    lemma_first_username_at(self.collectors@, name@, k as int);
                }
                return Some(self.collectors[k].fan_id);
            }
            k += 1;
        }
        proof {
            lemma_first_username_none(self.collectors@, name@);
        }
        None
    }

    /// Freshness test of a collector: true iff a row for the username
    /// exists and `now - last_updated < THIRTY_DAYS`.
    pub fn collector_fresh(&self, name: &String, now: i64) -> (r: bool)
        requires
            self.wf(),
            now >= 0,
        ensures
            r == collector_fresh_at(self.collectors@, name@, now as int),
    {
        let mut k: usize = 0;
        while k < self.collectors.len()
            invariant
                self.wf(),
                now >= 0,
                k <= self.collectors@.len(),
                forall|j: int| 0 <= j < k ==> self.collectors@[j].username@ != name@,
            decreases self.collectors@.len() - k,
        {
            if self.collectors[k].username == *name {
                proof {
                    lemma_first_username_at(self.collectors@, name@, k as int);
                    assert(self.collectors@[k as int].last_updated >= 0);
                }
                return now - self.collectors[k].last_updated < THIRTY_DAYS;
            }
            k += 1;
        }
        proof {
            lemma_first_username_none(self.collectors@, name@);
        }
        false
    }

    /// Freshness test of an item: true iff the row exists and
    /// `now - last_updated < THIRTY_DAYS`.
    pub fn item_fresh(&self, item_id: i64, now: i64) -> (r: bool)
        requires
            self.wf(),
            now >= 0,
        ensures
            r == item_fresh_at(self.items@, item_id as int, now as int),
    {
        match self.find_item(item_id) {
            Some(k) => {
                proof {
                    assert(self.items@[k as int].last_updated >= 0);
                    if now - self.items@[k as int].last_updated >= THIRTY_DAYS {
                        if item_fresh_at(self.items@, item_id as int, now as int) {
                            let j = choose|j: int|
                                0 <= j < self.items@.len() && self.items@[j].item_id == item_id
                                    && now - self.items@[j].last_updated < THIRTY_DAYS;
                            assert(j == k);
                        }
                    }
                }
                now - self.items[k].last_updated < THIRTY_DAYS
            },
            None => {
                proof {
                    if item_fresh_at(self.items@, item_id as int, now as int) {
                        let j = choose|j: int|
                            0 <= j < self.items@.len() && self.items@[j].item_id == item_id && now
                                - self.items@[j].last_updated < THIRTY_DAYS;
                        assert(has_item(self.items@, item_id as int));
                    }
                }
                false
            },
        }
    }

    /// Load one item row as a value; a missing row is the store's
    /// missing-result failure.
    pub fn get_item(&self, item_id: i64) -> (r: Result<Item, crate::Error>)
        requires
            self.wf(),
        ensures
            (match r {
                Ok(item) => has_item(self.items@, item_id as int) && item == item_of_row(
                    item_row_for(self.items@, item_id as int),
                ),
                Err(e) => e == crate::Error::DbResultError && !has_item(
                    self.items@,
                    item_id as int,
                ),
            }),
    {
        match self.find_item(item_id) {
            Some(k) => {
                proof {
                    lemma_item_row_for(self.items@, item_id as int, k as int);
                    assert(has_item(self.items@, item_id as int)) by {
                        assert(self.items@[k as int].item_id == item_id);
                    }
                }
                Ok(item_from_row(&self.items[k]))
            },
            None => Err(crate::Error::DbResultError),
        }
    }

    /// Record a completed crawl of a collector: every row under the
    /// username gets `last_updated := now`.
    pub fn mark_collector_done(&mut self, name: &String, now: i64)
        requires
            old(self).wf(),
            now >= 0,
        ensures
            final(self).wf(),
            final(self).collectors@ == mark_collector_rows(old(self).collectors@, name@, now),
            same_items(*old(self), *final(self)),
            same_collects(*old(self), *final(self)),
            same_collected_by(*old(self), *final(self)),
            same_queues(*old(self), *final(self)),
            same_targets(*old(self), *final(self)),
    {
        let n = self.collectors.len();
        let mut k: usize = 0;
        while k < n
            invariant
                n == self.collectors@.len(),
                n == old(self).collectors@.len(),
                k <= n,
                now >= 0,
                old(self).wf(),
                forall|j: int|
                    0 <= j < k ==> self.collectors@[j] == mark_collector_rows(
                        old(self).collectors@,
                        name@,
                        now,
                    )[j],
                forall|j: int| k <= j < n ==> self.collectors@[j] == old(self).collectors@[j],
                same_items(*old(self), *self),
                same_collects(*old(self), *self),
                same_collected_by(*old(self), *self),
                same_queues(*old(self), *self),
                same_targets(*old(self), *self),
            decreases n - k,
        {
            if self.collectors[k].username == *name {
                self.collectors[k].last_updated = now;
            }
            k += 1;
        }
        proof {
            let post = final(self).collectors@;
            let marked = mark_collector_rows(old(self).collectors@, name@, now);
            assert(post =~= marked);
            assert(unique_fans(post)) by {
                assert(forall|j: int| 0 <= j < post.len() ==> post[j].fan_id == old(
                    self,
                ).collectors@[j].fan_id);
            }
            assert(collectors_timestamped(post)) by {
                assert(forall|j: int| 0 <= j < post.len() ==> post[j].last_updated == now
                    || post[j].last_updated == old(self).collectors@[j].last_updated);
            }
            assert forall|f: int| has_fan(old(self).collectors@, f) implies has_fan(post, f) by {
                let j = choose|j: int|
                    0 <= j < old(self).collectors@.len() && old(self).collectors@[j].fan_id == f;
                assert(post[j].fan_id == f);
            };
            lemma_closed_under_same_fans(
                old(self).collects@,
                old(self).collectors@,
                post,
                old(self).items@,
            );
            lemma_closed_under_same_fans(
                old(self).collected_by@,
                old(self).collectors@,
                post,
                old(self).items@,
            );
        }
    }

    /// Record a completed crawl of an item.
    pub fn mark_item_done(&mut self, item_id: i64, now: i64)
        requires
            old(self).wf(),
            now >= 0,
        ensures
            final(self).wf(),
            final(self).items@ == mark_item_rows(old(self).items@, item_id, now),
            same_collectors(*old(self), *final(self)),
            same_collects(*old(self), *final(self)),
            same_collected_by(*old(self), *final(self)),
            same_queues(*old(self), *final(self)),
            same_targets(*old(self), *final(self)),
    {
        let n = self.items.len();
        let mut k: usize = 0;
        while k < n
            invariant
                n == self.items@.len(),
                n == old(self).items@.len(),
                k <= n,
                now >= 0,
                old(self).wf(),
                forall|j: int|
                    0 <= j < k ==> self.items@[j] == mark_item_rows(
                        old(self).items@,
                        item_id,
                        now,
                    )[j],
                forall|j: int| k <= j < n ==> self.items@[j] == old(self).items@[j],
                same_collectors(*old(self), *self),
                same_collects(*old(self), *self),
                same_collected_by(*old(self), *self),
                same_queues(*old(self), *self),
                same_targets(*old(self), *self),
            decreases n - k,
        {
            if self.items[k].item_id == item_id {
                self.items[k].last_updated = now;
            }
            k += 1;
        }
        proof {
            let post = final(self).items@;
            let marked = mark_item_rows(old(self).items@, item_id, now);
            assert(post =~= marked);
            assert(unique_items(post)) by {
                assert(forall|j: int| 0 <= j < post.len() ==> post[j].item_id == old(
                    self,
                ).items@[j].item_id);
            }
            assert(items_timestamped(post)) by {
                assert(forall|j: int| 0 <= j < post.len() ==> post[j].last_updated == now
                    || post[j].last_updated == old(self).items@[j].last_updated);
            }
            assert forall|f: int| has_item(old(self).items@, f) implies has_item(post, f) by {
                let j = choose|j: int|
                    0 <= j < old(self).items@.len() && old(self).items@[j].item_id == f;
                assert(post[j].item_id == f);
            };
            lemma_closed_under_same_items(
                old(self).collects@,
                old(self).collectors@,
                old(self).items@,
                post,
            );
            lemma_closed_under_same_items(
                old(self).collected_by@,
                old(self).collectors@,
                old(self).items@,
                post,
            );
        }
    }

    /// Rate-limit rollback of a collector crawl: drop every collects
    /// edge of the fan the username resolves to, so a later retry sees
    /// no spurious done signal.
    pub fn remove_collects(&mut self, name: &String)
        requires
            old(self).wf(),
        ensures
            final(self).wf(),
            final(self).collects@ == (match fan_for_username(old(self).collectors@, name@) {
                Some(fan) => drop_fan_edges(old(self).collects@, fan),
                None => old(self).collects@,
            }),
            same_collectors(*old(self), *final(self)),
            same_items(*old(self), *final(self)),
            same_collected_by(*old(self), *final(self)),
            same_queues(*old(self), *final(self)),
            same_targets(*old(self), *final(self)),
    {
        let fan = match self.get_fan_id_for_username(name) {
            Some(f) => f,
            None => {
                return ;
            },
        };
        let mut kept: Vec<Edge> = Vec::new();
        let n = self.collects.len();
        let mut k: usize = 0;
        while k < n
            invariant
                n == self.collects@.len(),
                k <= n,
                kept@ == drop_fan_edges(self.collects@.subrange(0, k as int), fan),
                *self == *old(self),
                fan_for_username(old(self).collectors@, name@) == Some(fan),
            decreases n - k,
        {
            let e = self.collects[k];
            proof {
                let pre = self.collects@.subrange(0, k as int);
                let cur = self.collects@.subrange(0, k as int + 1);
                assert(cur.drop_last() =~= pre);
                assert(cur.last() == self.collects@[k as int]);
            }
            if e.fan_id != fan {
                kept.push(e);
            }
            k += 1;
        }
        proof {
            assert(self.collects@.subrange(0, n as int) =~= self.collects@);
        }
        self.collects = kept;
        proof {
            lemma_drop_fan_edges(old(self).collects@, fan);
            let res = final(self).collects@;
            assert(edges_closed(res, final(self).collectors@, final(self).items@)) by {
                assert forall|k2: int| 0 <= k2 < res.len() implies has_fan(
                    final(self).collectors@,
                    (#[trigger] res[k2]).fan_id as int,
                ) && has_item(final(self).items@, res[k2].item_id as int) by {
                    assert(old(self).collects@.contains(res[k2]));
                    let j = choose|j: int|
                        0 <= j < old(self).collects@.len() && old(self).collects@[j] == res[k2];
                    assert(has_fan(old(self).collectors@, old(self).collects@[j].fan_id as int));
                }
            }
        }
    }

    /// Rate-limit rollback of an item crawl: drop every collected-by
    /// edge of the item.
    pub fn remove_collected_by(&mut self, item_id: i64)
        requires
            old(self).wf(),
        ensures
            final(self).wf(),
            final(self).collected_by@ == drop_item_edges(old(self).collected_by@, item_id),
            same_collectors(*old(self), *final(self)),
            same_items(*old(self), *final(self)),
            same_collects(*old(self), *final(self)),
            same_queues(*old(self), *final(self)),
            same_targets(*old(self), *final(self)),
    {
        let mut kept: Vec<Edge> = Vec::new();
        let n = self.collected_by.len();
        let mut k: usize = 0;
        while k < n
            invariant
                n == self.collected_by@.len(),
                k <= n,
                kept@ == drop_item_edges(self.collected_by@.subrange(0, k as int), item_id),
                *self == *old(self),
            decreases n - k,
        {
            let e = self.collected_by[k];
            proof {
                let pre = self.collected_by@.subrange(0, k as int);
                let cur = self.collected_by@.subrange(0, k as int + 1);
                assert(cur.drop_last() =~= pre);
                assert(cur.last() == self.collected_by@[k as int]);
            }
            if e.item_id != item_id {
                kept.push(e);
            }
            k += 1;
        }
        proof {
            assert(self.collected_by@.subrange(0, n as int) =~= self.collected_by@);
        }
        self.collected_by = kept;
        proof {
            lemma_drop_item_edges(old(self).collected_by@, item_id);
            let res = final(self).collected_by@;
            assert(edges_closed(res, final(self).collectors@, final(self).items@)) by {
                assert forall|k2: int| 0 <= k2 < res.len() implies has_fan(
                    final(self).collectors@,
                    (#[trigger] res[k2]).fan_id as int,
                ) && has_item(final(self).items@, res[k2].item_id as int) by {
                    assert(old(self).collected_by@.contains(res[k2]));
                    let j = choose|j: int|
                        0 <= j < old(self).collected_by@.len() && old(self).collected_by@[j]
                            == res[k2];
                    assert(has_fan(
                        old(self).collectors@,
                        old(self).collected_by@[j].fan_id as int,
                    ));
                }
            }
        }
    }

    /// Idempotent enqueue of a collector awaiting a collection crawl.
    pub fn insert_to_collection_queue(&mut self, fan_id: i64)
        requires
            old(self).wf(),
        ensures
            final(self).wf(),
            final(self).collection_queue@ == (if old(self).collection_queue@.contains(fan_id) {
                old(self).collection_queue@
            } else {
                old(self).collection_queue@.push(fan_id)
            }),
            final(self).collection_queue@.contains(fan_id),
            final(self).item_queue@ == old(self).item_queue@,
            same_collectors(*old(self), *final(self)),
            same_items(*old(self), *final(self)),
            same_collects(*old(self), *final(self)),
            same_collected_by(*old(self), *final(self)),
            same_targets(*old(self), *final(self)),
    {
        if !vec_contains_key(&self.collection_queue, fan_id) {
            self.collection_queue.push(fan_id);
            proof {
                let pre = old(self).collection_queue@;
                let post = final(self).collection_queue@;
                assert(post[pre.len() as int] == fan_id);
                assert(forall|j: int| 0 <= j < pre.len() ==> post[j] == pre[j]);
                assert(unique_keys(post));
            }
        }
    }

    /// Idempotent enqueue of an item awaiting a collected-by crawl.
    pub fn insert_to_collected_by_queue(&mut self, item_id: i64)
        requires
            old(self).wf(),
        ensures
            final(self).wf(),
            final(self).item_queue@ == (if old(self).item_queue@.contains(item_id) {
                old(self).item_queue@
            } else {
                old(self).item_queue@.push(item_id)
            }),
            final(self).item_queue@.contains(item_id),
            final(self).collection_queue@ == old(self).collection_queue@,
            same_collectors(*old(self), *final(self)),
            same_items(*old(self), *final(self)),
            same_collects(*old(self), *final(self)),
            same_collected_by(*old(self), *final(self)),
            same_targets(*old(self), *final(self)),
    {
        if !vec_contains_key(&self.item_queue, item_id) {
            self.item_queue.push(item_id);
            proof {
                let pre = old(self).item_queue@;
                let post = final(self).item_queue@;
                assert(post[pre.len() as int] == item_id);
                assert(forall|j: int| 0 <= j < pre.len() ==> post[j] == pre[j]);
                assert(unique_keys(post));
            }
        }
    }

    /// Take a finished collector out of the collection queue, by the
    /// username its fan id resolves from.
    pub fn remove_collector_from_queue(&mut self, name: &String)
        requires
            old(self).wf(),
        ensures
            final(self).wf(),
            final(self).collection_queue@ == (match fan_for_username(
                old(self).collectors@,
                name@,
            ) {
                Some(fan) => drop_key(old(self).collection_queue@, fan),
                None => old(self).collection_queue@,
            }),
            final(self).item_queue@ == old(self).item_queue@,
            same_collectors(*old(self), *final(self)),
            same_items(*old(self), *final(self)),
            same_collects(*old(self), *final(self)),
            same_collected_by(*old(self), *final(self)),
            same_targets(*old(self), *final(self)),
    {
        let fan = match self.get_fan_id_for_username(name) {
            Some(f) => f,
            None => {
                return ;
            },
        };
        self.remove_key_from_collection_queue(fan);
    }

    fn remove_key_from_collection_queue(&mut self, fan_id: i64)
        requires
            old(self).wf(),
        ensures
            final(self).wf(),
            final(self).collection_queue@ == drop_key(old(self).collection_queue@, fan_id),
            final(self).item_queue@ == old(self).item_queue@,
            same_collectors(*old(self), *final(self)),
            same_items(*old(self), *final(self)),
            same_collects(*old(self), *final(self)),
            same_collected_by(*old(self), *final(self)),
            same_targets(*old(self), *final(self)),
    {
        let mut kept: Vec<i64> = Vec::new();
        let n = self.collection_queue.len();
        let mut k: usize = 0;
        while k < n
            invariant
                n == self.collection_queue@.len(),
                k <= n,
                kept@ == drop_key(self.collection_queue@.subrange(0, k as int), fan_id),
                *self == *old(self),
            decreases n - k,
        {
            let x = self.collection_queue[k];
            proof {
                let pre = self.collection_queue@.subrange(0, k as int);
                let cur = self.collection_queue@.subrange(0, k as int + 1);
                assert(cur.drop_last() =~= pre);
                assert(cur.last() == self.collection_queue@[k as int]);
            }
            if x != fan_id {
                kept.push(x);
            }
            k += 1;
        }
        proof {
            assert(self.collection_queue@.subrange(0, n as int) =~= self.collection_queue@);
        }
        self.collection_queue = kept;
        proof {
            lemma_drop_key(old(self).collection_queue@, fan_id);
        }
    }

    /// Take a finished item out of the item queue.
    pub fn remove_item_from_queue(&mut self, item_id: i64)
        requires
            old(self).wf(),
        ensures
            final(self).wf(),
            final(self).item_queue@ == drop_key(old(self).item_queue@, item_id),
            final(self).collection_queue@ == old(self).collection_queue@,
            same_collectors(*old(self), *final(self)),
            same_items(*old(self), *final(self)),
            same_collects(*old(self), *final(self)),
            same_collected_by(*old(self), *final(self)),
            same_targets(*old(self), *final(self)),
    {
        let mut kept: Vec<i64> = Vec::new();
        let n = self.item_queue.len();
        let mut k: usize = 0;
        while k < n
            invariant
                n == self.item_queue@.len(),
                k <= n,
                kept@ == drop_key(self.item_queue@.subrange(0, k as int), item_id),
                *self == *old(self),
            decreases n - k,
        {
            let x = self.item_queue[k];
            proof {
                let pre = self.item_queue@.subrange(0, k as int);
                let cur = self.item_queue@.subrange(0, k as int + 1);
                assert(cur.drop_last() =~= pre);
                assert(cur.last() == self.item_queue@[k as int]);
            }
            if x != item_id {
                kept.push(x);
            }
            k += 1;
        }
        proof {
            assert(self.item_queue@.subrange(0, n as int) =~= self.item_queue@);
        }
        self.item_queue = kept;
        proof {
            lemma_drop_key(old(self).item_queue@, item_id);
        }
    }
}

/// Whether a progress target for this fan exists.
pub open spec fn has_target(ts: Seq<Target>, fan: int) -> bool {
    exists|k: int| 0 <= k < ts.len() && ts[k].fan_id == fan
}

/// The target a fan id resolves to, as [`item_row_for`].
pub open spec fn target_row_for(ts: Seq<Target>, fan: int) -> Target {
    ts[choose|k: int| 0 <= k < ts.len() && ts[k].fan_id == fan]
}

/// Under key uniqueness, any target carrying the fan id is the
/// resolved target.
pub proof fn lemma_target_row_for(ts: Seq<Target>, fan: int, k: int)
    requires
        unique_target_fans(ts),
        0 <= k < ts.len(),
        ts[k].fan_id == fan,
    ensures
        target_row_for(ts, fan) == ts[k],
{
    let j = choose|j: int| 0 <= j < ts.len() && ts[j].fan_id == fan;
    assert(ts[j].fan_id == fan);
}

/// Upsert rule of a progress target: stage, count left and eta are
/// overwritten, but the total only ever grows.
pub open spec fn merge_target(
    t: Target,
    stage: i64,
    count_left: i64,
    count_total: i64,
    eta: i64,
) -> Target {
    Target {
        fan_id: t.fan_id,
        stage,
        count_left,
        count_total: if count_total > t.count_total {
            count_total
        } else {
            t.count_total
        },
        eta,
    }
}

/// The target table after an upsert.
pub open spec fn upsert_target_rows(
    ts: Seq<Target>,
    fan_id: i64,
    stage: i64,
    count_left: i64,
    count_total: i64,
    eta: i64,
) -> Seq<Target> {
    if has_target(ts, fan_id as int) {
        Seq::new(
            ts.len(),
            |k: int|
                if ts[k].fan_id == fan_id {
                    merge_target(ts[k], stage, count_left, count_total, eta)
                } else {
                    ts[k]
                },
        )
    } else {
        ts.push(Target { fan_id, stage, count_left, count_total, eta })
    }
}

/// Progress monotonicity: whatever an upsert writes, the stored
/// total never decreases, and never falls below the incoming total.
pub proof fn lemma_target_total_monotone(
    t: Target,
    stage: i64,
    count_left: i64,
    count_total: i64,
    eta: i64,
)
    ensures
        merge_target(t, stage, count_left, count_total, eta).count_total >= t.count_total,
        merge_target(t, stage, count_left, count_total, eta).count_total >= count_total,
{
}

/// The target table after a deletion.
pub open spec fn drop_target(ts: Seq<Target>, fan: i64) -> Seq<Target>
    decreases ts.len(),
{
    if ts.len() == 0 {
        Seq::empty()
    } else {
        let rest = drop_target(ts.drop_last(), fan);
        if ts.last().fan_id == fan {
            rest
        } else {
            rest.push(ts.last())
        }
    }
}

/// Deleting a target keeps exactly the targets of every other fan.
pub proof fn lemma_drop_target(ts: Seq<Target>, fan: i64)
    ensures
        forall|f: int|
            #[trigger] has_target(drop_target(ts, fan), f) <==> has_target(ts, f) && f
                != fan as int,
        forall|k: int|
            0 <= k < drop_target(ts, fan).len() ==> ts.contains(#[trigger] drop_target(ts, fan)[k])
                && drop_target(ts, fan)[k].fan_id != fan,
        unique_target_fans(ts) ==> unique_target_fans(drop_target(ts, fan)),
    decreases ts.len(),
{
    if ts.len() > 0 {
        lemma_drop_target(ts.drop_last(), fan);
        let res = drop_target(ts, fan);
        let rest = drop_target(ts.drop_last(), fan);
        assert(forall|k: int|
            0 <= k < ts.drop_last().len() ==> ts.contains(#[trigger] ts.drop_last()[k])) by {
            assert(forall|k: int| 0 <= k < ts.drop_last().len() ==> ts.drop_last()[k] == ts[k]);
        }
        assert(ts.contains(ts.last())) by {
            assert(ts[ts.len() - 1] == ts.last());
        }
        assert forall|f: int| has_target(ts, f) && f != fan as int implies #[trigger] has_target(
            res,
            f,
        ) by {
            let k = choose|k: int| 0 <= k < ts.len() && ts[k].fan_id == f;
            if k < ts.len() - 1 {
                assert(ts.drop_last()[k] == ts[k]);
                assert(has_target(ts.drop_last(), f));
                assert(has_target(rest, f));
                if ts.last().fan_id != fan {
                    let j = choose|j: int| 0 <= j < rest.len() && rest[j].fan_id == f;
                    assert(res[j] == rest[j]);
                }
            } else {
                assert(ts.last() == ts[k]);
                assert(res[res.len() - 1] == ts.last());
            }
        }
        assert forall|f: int| #[trigger] has_target(res, f) implies has_target(ts, f) && f
            != fan as int by {
            let k = choose|k: int| 0 <= k < res.len() && res[k].fan_id == f;
            if ts.last().fan_id != fan && k == res.len() - 1 {
                assert(res[k] == ts.last());
                assert(ts[ts.len() - 1] == ts.last());
            } else {
                assert(has_target(rest, f)) by {
                    assert(rest[k] == res[k]);
                }
                assert(has_target(ts.drop_last(), f));
                let j = choose|j: int| 0 <= j < ts.drop_last().len() && ts.drop_last()[j].fan_id
                    == f;
                assert(ts[j] == ts.drop_last()[j]);
            }
        }
        if unique_target_fans(ts) {
            assert(unique_target_fans(ts.drop_last())) by {
                assert(forall|k: int|
                    0 <= k < ts.drop_last().len() ==> ts.drop_last()[k] == ts[k]);
            }
            if ts.last().fan_id != fan {
                assert(!has_target(rest, ts.last().fan_id as int)) by {
                    if has_target(rest, ts.last().fan_id as int) {
                        assert(has_target(ts.drop_last(), ts.last().fan_id as int));
                        let j = choose|j: int|
                            0 <= j < ts.drop_last().len() && ts.drop_last()[j].fan_id
                                == ts.last().fan_id;
                        assert(ts[j] == ts.drop_last()[j]);
                        assert(ts[j].fan_id != ts[ts.len() - 1].fan_id);
                    }
                }
                assert forall|a: int, b: int| 0 <= a < b < res.len() implies res[a].fan_id
                    != res[b].fan_id by {
                    if b < res.len() - 1 {
                        assert(res[a] == rest[a] && res[b] == rest[b]);
                    } else {
                        assert(res[b] == ts.last());
                        assert(res[a] == rest[a]);
                        assert(has_target(rest, rest[a].fan_id as int)) by {
                            assert(rest[a].fan_id == rest[a].fan_id as int);
                        }
                    }
                }
            }
        }
    }
}

/// Whether a row under this username carries the fan id, as the join
/// of the collector table with an edge table sees it.
pub open spec fn fan_matches_username(
    rows: Seq<CollectorRow>,
    fan: i64,
    name: Seq<char>,
) -> bool {
    exists|k: int| 0 <= k < rows.len() && rows[k].fan_id == fan && rows[k].username@ == name
}

/// How many collects edges the join attributes to this username.
pub open spec fn count_user_edges(es: Seq<Edge>, rows: Seq<CollectorRow>, name: Seq<char>) -> nat
    decreases es.len(),
{
    if es.len() == 0 {
        0
    } else {
        count_user_edges(es.drop_last(), rows, name) + (if fan_matches_username(
            rows,
            es.last().fan_id,
            name,
        ) {
            1nat
        } else {
            0nat
        })
    }
}

impl Store {
    fn fan_has_username(&self, fan: i64, name: &String) -> (r: bool)
        ensures
            r == fan_matches_username(self.collectors@, fan, name@),
    {
        let mut k: usize = 0;
        while k < self.collectors.len()
            invariant
                k <= self.collectors@.len(),
                forall|j: int|
                    0 <= j < k ==> !(self.collectors@[j].fan_id == fan
                        && self.collectors@[j].username@ == name@),
            decreases self.collectors@.len() - k,
        {
            if self.collectors[k].fan_id == fan && self.collectors[k].username == *name {
                proof {
                    assert(self.collectors@[k as int].fan_id == fan
                        && self.collectors@[k as int].username@ == name@);
                }
                return true;
            }
            k += 1;
        }
        false
    }

    /// How many items the user under this username collects: the size
    /// of the join of the collector row with the collects relation.
    pub fn get_collection_size(&self, name: &String) -> (r: u64)
        ensures
            r == count_user_edges(self.collects@, self.collectors@, name@),
    {
        let mut count: u64 = 0;
        let n = self.collects.len();
        let mut k: usize = 0;
        while k < n
            invariant
                n == self.collects@.len(),
                k <= n,
                count <= k,
                count == count_user_edges(
                    self.collects@.subrange(0, k as int),
                    self.collectors@,
                    name@,
                ),
            decreases n - k,
        {
            proof {
                let pre = self.collects@.subrange(0, k as int);
                let cur = self.collects@.subrange(0, k as int + 1);
                assert(cur.drop_last() =~= pre);
                assert(cur.last() == self.collects@[k as int]);
            }
            if self.fan_has_username(self.collects[k].fan_id, name) {
                count += 1;
            }
            k += 1;
        }
        proof {
            assert(self.collects@.subrange(0, n as int) =~= self.collects@);
        }
        count
    }

    /// Upsert the progress target of a fan: stage, count left and eta
    /// are overwritten, the total only ever grows.
    pub fn insert_target(
        &mut self,
        fan_id: i64,
        stage: i64,
        count_left: i64,
        count_total: i64,
        eta: i64,
    )
        requires
            old(self).wf(),
        ensures
            final(self).wf(),
            final(self).targets@ == upsert_target_rows(
                old(self).targets@,
                fan_id,
                stage,
                count_left,
                count_total,
                eta,
            ),
            has_target(final(self).targets@, fan_id as int),
            forall|k: int|
                0 <= k < old(self).targets@.len() && #[trigger] old(self).targets@[k].fan_id
                    == fan_id ==> final(self).targets@[k].count_total >= old(
                    self,
                ).targets@[k].count_total && final(self).targets@[k].count_total >= count_total,
            same_collectors(*old(self), *final(self)),
            same_items(*old(self), *final(self)),
            same_collects(*old(self), *final(self)),
            same_collected_by(*old(self), *final(self)),
            same_queues(*old(self), *final(self)),
    {
        let n = self.targets.len();
        let mut k: usize = 0;
        while k < n
            invariant
                n == self.targets@.len(),
                k <= n,
                *self == *old(self),
                old(self).wf(),
                forall|j: int| 0 <= j < k ==> self.targets@[j].fan_id != fan_id,
            decreases n - k,
        {
            if self.targets[k].fan_id == fan_id {
                let merged = Target {
                    fan_id: self.targets[k].fan_id,
                    stage,
                    count_left,
                    count_total: if count_total > self.targets[k].count_total {
                        count_total
                    } else {
                        self.targets[k].count_total
                    },
                    eta,
                };
                proof {
                    assert(merged == merge_target(
                        old(self).targets@[k as int],
                        stage,
                        count_left,
                        count_total,
                        eta,
                    ));
                }
                self.targets[k] = merged;
                proof {
                    assert(has_target(old(self).targets@, fan_id as int)) by {
                        assert(old(self).targets@[k as int].fan_id == fan_id);
                    }
                    assert forall|j: int|
                        0 <= j < old(self).targets@.len() && #[trigger] old(
                            self,
                        ).targets@[j].fan_id == fan_id implies j == k by {
                        if j < k {
                            assert(old(self).targets@[j].fan_id != old(
                                self,
                            ).targets@[k as int].fan_id);
                        } else if j > k {
                            assert(old(self).targets@[k as int].fan_id != old(
                                self,
                            ).targets@[j].fan_id);
                        }
                    };
                    assert(final(self).targets@ =~= upsert_target_rows(
                        old(self).targets@,
                        fan_id,
                        stage,
                        count_left,
                        count_total,
                        eta,
                    ));
                    assert(has_target(final(self).targets@, fan_id as int)) by {
                        assert(final(self).targets@[k as int].fan_id == fan_id);
                    }
                    assert(forall|j: int|
                        0 <= j < final(self).targets@.len() ==> #[trigger] final(self).targets@[j].fan_id == old(self).targets@[j].fan_id);
                    assert forall|a: int, b: int|
                        0 <= a < b < final(self).targets@.len() implies final(self).targets@[a].fan_id != final(self).targets@[b].fan_id by {
                        assert(old(self).targets@[a].fan_id != old(self).targets@[b].fan_id);
                    };
                    assert(unique_target_fans(final(self).targets@));
                }
                return ;
            }
            k += 1;
        }
        let row = Target { fan_id, stage, count_left, count_total, eta };
        self.targets.push(row);
        proof {
            let pre = old(self).targets@;
            let post = final(self).targets@;
            assert(forall|j: int| 0 <= j < pre.len() ==> post[j] == pre[j]);
            assert(post[pre.len() as int].fan_id == fan_id);
            assert(unique_target_fans(post));
            assert(has_target(post, fan_id as int));
        }
    }

    /// The progress target of a fan; a fan without a stored target is
    /// reported as complete (stage 3).
    pub fn get_target(&self, fan_id: i64) -> (r: Target)
        requires
            self.wf(),
        ensures
            has_target(self.targets@, fan_id as int) ==> r == target_row_for(
                self.targets@,
                fan_id as int,
            ),
            !has_target(self.targets@, fan_id as int) ==> r == (Target {
                fan_id,
                stage: 3,
                count_left: 0,
                count_total: 0,
                eta: 0,
            }),
    {
        let mut k: usize = 0;
        while k < self.targets.len()
            invariant
                k <= self.targets@.len(),
                unique_target_fans(self.targets@),
                forall|j: int| 0 <= j < k ==> self.targets@[j].fan_id != fan_id,
            decreases self.targets@.len() - k,
        {
            if self.targets[k].fan_id == fan_id {
                proof {
                    lemma_target_row_for(self.targets@, fan_id as int, k as int);
                    assert(has_target(self.targets@, fan_id as int)) by {
                        assert(self.targets@[k as int].fan_id == fan_id);
                    }
                }
                return self.targets[k];
            }
            k += 1;
        }
        Target { fan_id, stage: 3, count_left: 0, count_total: 0, eta: 0 }
    }

    /// Delete the progress target of a fan.
    pub fn delete_target(&mut self, fan_id: i64)
        requires
            old(self).wf(),
        ensures
            final(self).wf(),
            final(self).targets@ == drop_target(old(self).targets@, fan_id),
            !has_target(final(self).targets@, fan_id as int),
            same_collectors(*old(self), *final(self)),
            same_items(*old(self), *final(self)),
            same_collects(*old(self), *final(self)),
            same_collected_by(*old(self), *final(self)),
            same_queues(*old(self), *final(self)),
    {
        let mut kept: Vec<Target> = Vec::new();
        let n = self.targets.len();
        let mut k: usize = 0;
        while k < n
            invariant
                n == self.targets@.len(),
                k <= n,
                kept@ == drop_target(self.targets@.subrange(0, k as int), fan_id),
                *self == *old(self),
            decreases n - k,
        {
            let t = self.targets[k];
            proof {
                let pre = self.targets@.subrange(0, k as int);
                let cur = self.targets@.subrange(0, k as int + 1);
                assert(cur.drop_last() =~= pre);
                assert(cur.last() == self.targets@[k as int]);
            }
            if t.fan_id != fan_id {
                kept.push(t);
            }
            k += 1;
        }
        proof {
            assert(self.targets@.subrange(0, n as int) =~= self.targets@);
        }
        self.targets = kept;
        proof {
            lemma_drop_target(old(self).targets@, fan_id);
        }
    }

    /// The fan ids of every live progress target, in table order.
    pub fn get_targets(&self) -> (r: Vec<i64>)
        ensures
            r@.len() == self.targets@.len(),
            forall|k: int| 0 <= k < r@.len() ==> r@[k] == self.targets@[k].fan_id,
    {
        let mut out: Vec<i64> = Vec::new();
        let mut k: usize = 0;
        while k < self.targets.len()
            invariant
                k <= self.targets@.len(),
                out@.len() == k,
                forall|j: int| 0 <= j < k ==> out@[j] == self.targets@[j].fan_id,
            decreases self.targets@.len() - k,
        {
            out.push(self.targets[k].fan_id);
            k += 1;
        }
        out
    }
}

/// A fan that is waiting in the collection queue and has a collector
/// row (the queue is joined with the collector table).
pub open spec fn queued_collector(s: Store, f: i64) -> bool {
    s.collection_queue@.contains(f) && has_fan(s.collectors@, f as int)
}

/// The queued collector with the lowest fan id.
pub open spec fn min_queued_collector(s: Store, f: i64) -> bool {
    queued_collector(s, f) && (forall|g: i64| #[trigger] queued_collector(s, g) ==> f <= g)
}

/// The stale collector with the lowest fan id.
pub open spec fn min_stale_collector(s: Store, f: i64, now: int) -> bool {
    stale_fan(s.collectors@, f as int, now) && (forall|g: i64|
        #[trigger] stale_fan(s.collectors@, g as int, now) ==> f <= g)
}

/// The queued item with the lowest id.
pub open spec fn min_queued_item(s: Store, i: i64) -> bool {
    s.item_queue@.contains(i) && (forall|g: i64| #[trigger] s.item_queue@.contains(g) ==> i <= g)
}

/// The stale item with the lowest id.
pub open spec fn min_stale_item(s: Store, i: i64, now: int) -> bool {
    stale_item(s.items@, i as int, now) && (forall|g: i64|
        #[trigger] stale_item(s.items@, g as int, now) ==> i <= g)
}

impl Store {
    /// Whether a collector row with this fan id exists.
    pub fn contains_collector(&self, fan_id: i64) -> (r: bool)
        ensures
            r == has_fan(self.collectors@, fan_id as int),
    {
        match self.find_collector(fan_id) {
            Some(k) => {
                proof {
                    assert(self.collectors@[k as int].fan_id == fan_id);
                }
                true
            },
            None => false,
        }
    }

    /// Whether an item row with this id exists.
    pub fn contains_item(&self, item_id: i64) -> (r: bool)
        ensures
            r == has_item(self.items@, item_id as int),
    {
        match self.find_item(item_id) {
            Some(k) => {
                proof {
                    assert(self.items@[k as int].item_id == item_id);
                }
                true
            },
            None => false,
        }
    }

    /// Whether the collector row with this fan id exists and is out
    /// of the freshness window.
    pub(crate) fn fan_stale(&self, fan_id: i64, now: i64) -> (r: bool)
        requires
            self.wf(),
            now >= 0,
        ensures
            r == stale_fan(self.collectors@, fan_id as int, now as int),
    {
        match self.find_collector(fan_id) {
            Some(k) => {
                proof {
                    assert(self.collectors@[k as int].last_updated >= 0);
                    if now - self.collectors@[k as int].last_updated < THIRTY_DAYS {
                        if stale_fan(self.collectors@, fan_id as int, now as int) {
                            let j = choose|j: int|
                                0 <= j < self.collectors@.len() && self.collectors@[j].fan_id
                                    == fan_id && now as int - self.collectors@[j].last_updated
                                    >= THIRTY_DAYS;
                            assert(j == k);
                        }
                    } else {
                        assert(stale_fan(self.collectors@, fan_id as int, now as int)) by {
                            assert(self.collectors@[k as int].fan_id == fan_id);
                        }
                    }
                }
                now - self.collectors[k].last_updated >= THIRTY_DAYS
            },
            None => {
                proof {
                    if stale_fan(self.collectors@, fan_id as int, now as int) {
                        let j = choose|j: int|
                            0 <= j < self.collectors@.len() && self.collectors@[j].fan_id
                                == fan_id && now as int - self.collectors@[j].last_updated
                                >= THIRTY_DAYS;
                        assert(has_fan(self.collectors@, fan_id as int));
                    }
                }
                false
            },
        }
    }

    /// Whether the item row with this id exists and is out of the
    /// freshness window.
    pub(crate) fn item_stale(&self, item_id: i64, now: i64) -> (r: bool)
        requires
            self.wf(),
            now >= 0,
        ensures
            r == stale_item(self.items@, item_id as int, now as int),
    {
        match self.find_item(item_id) {
            Some(k) => {
                proof {
                    assert(self.items@[k as int].last_updated >= 0);
                    if now - self.items@[k as int].last_updated < THIRTY_DAYS {
                        if stale_item(self.items@, item_id as int, now as int) {
                            let j = choose|j: int|
                                0 <= j < self.items@.len() && self.items@[j].item_id == item_id
                                    && now as int - self.items@[j].last_updated >= THIRTY_DAYS;
                            assert(j == k);
                        }
                    } else {
                        assert(stale_item(self.items@, item_id as int, now as int)) by {
                            assert(self.items@[k as int].item_id == item_id);
                        }
                    }
                }
                now - self.items[k].last_updated >= THIRTY_DAYS
            },
            None => {
                proof {
                    if stale_item(self.items@, item_id as int, now as int) {
                        let j = choose|j: int|
                            0 <= j < self.items@.len() && self.items@[j].item_id == item_id
                                && now as int - self.items@[j].last_updated >= THIRTY_DAYS;
                        assert(has_item(self.items@, item_id as int));
                    }
                }
                false
            },
        }
    }

    /// The next collector a worker should crawl: the queued collector
    /// with the lowest fan id, without removing it from the queue
    /// (removal is deferred to crawl completion); when the queue is
    /// empty and crawl-all mode is on, the stale collector with the
    /// lowest fan id.
    pub fn get_next_collector(&self, crawl: bool, now: i64) -> (r: Option<String>)
        requires
            self.wf(),
            now >= 0,
        ensures
            (exists|f: i64| #[trigger] queued_collector(*self, f)) ==> (match r {
                Some(name) => exists|f: i64|
                    #[trigger] min_queued_collector(*self, f) && name@ == collector_row_for(
                        self.collectors@,
                        f as int,
                    ).username@,
                None => false,
            }),
            !(exists|f: i64| #[trigger] queued_collector(*self, f)) && crawl ==> (match r {
                Some(name) => exists|f: i64|
                    #[trigger] min_stale_collector(*self, f, now as int) && name@
                        == collector_row_for(self.collectors@, f as int).username@,
                None => !(exists|f: i64|
                    #[trigger] stale_fan(self.collectors@, f as int, now as int)),
            }),
            !(exists|f: i64| #[trigger] queued_collector(*self, f)) && !crawl ==> r.is_none(),
    {
        let mut best: Option<usize> = None;
        let n = self.collection_queue.len();
        let mut k: usize = 0;
        while k < n
            invariant
                self.wf(),
                now >= 0,
                n == self.collection_queue@.len(),
                k <= n,
                (match best {
                    Some(b) => b < self.collectors@.len() && queued_collector(
                        *self,
                        self.collectors@[b as int].fan_id,
                    ) && (forall|j: int|
                        0 <= j < k && has_fan(
                            self.collectors@,
                            #[trigger] self.collection_queue@[j] as int,
                        ) ==> self.collectors@[b as int].fan_id <= self.collection_queue@[j]),
                    None => forall|j: int|
                        0 <= j < k ==> !has_fan(
                            self.collectors@,
                            #[trigger] self.collection_queue@[j] as int,
                        ),
                }),
            decreases n - k,
        {
            let f = self.collection_queue[k];
            match self.find_collector(f) {
                Some(i) => {
                    proof {
                        assert(self.collection_queue@.contains(f)) by {
                            assert(self.collection_queue@[k as int] == f);
                        }
                        assert(queued_collector(*self, f)) by {
                            assert(self.collectors@[i as int].fan_id == f);
                        }
                    }
                    match best {
                        None => {
                            best = Some(i);
                        },
                        Some(b) => {
                            if f < self.collectors[b].fan_id {
                                best = Some(i);
                            }
                        },
                    }
                },
                None => {
                    proof {
                        if has_fan(self.collectors@, self.collection_queue@[k as int] as int) {
                            assert(false);
                        }
                    }
                },
            }
            k += 1;
        }
        match best {
            Some(b) => {
                let bf = self.collectors[b].fan_id;
                proof {
                    lemma_collector_row_for(self.collectors@, bf as int, b as int);
                    assert forall|g: i64| #[trigger] queued_collector(*self, g) implies bf
                        <= g by {
                        let j = choose|j: int|
                            0 <= j < self.collection_queue@.len() && self.collection_queue@[j]
                                == g;
                        assert(has_fan(self.collectors@, self.collection_queue@[j] as int));
                    };
                    assert(min_queued_collector(*self, bf));
                }
                Some(self.collectors[b].username.clone())
            },
            None => {
                proof {
                    assert forall|f: i64| !(#[trigger] queued_collector(*self, f)) by {
                        if queued_collector(*self, f) {
                            let j = choose|j: int|
                                0 <= j < self.collection_queue@.len()
                                    && self.collection_queue@[j] == f;
                            assert(!has_fan(
                                self.collectors@,
                                self.collection_queue@[j] as int,
                            ));
                        }
                    };
                }
                if crawl {
                    self.next_stale_collector(now)
                } else {
                    None
                }
            },
        }
    }

    fn next_stale_collector(&self, now: i64) -> (r: Option<String>)
        requires
            self.wf(),
            now >= 0,
        ensures
            (match r {
                Some(name) => exists|f: i64|
                    #[trigger] min_stale_collector(*self, f, now as int) && name@
                        == collector_row_for(self.collectors@, f as int).username@,
                None => !(exists|f: i64|
                    #[trigger] stale_fan(self.collectors@, f as int, now as int)),
            }),
    {
        let mut best: Option<usize> = None;
        let n = self.collectors.len();
        let mut k: usize = 0;
        while k < n
            invariant
                self.wf(),
                now >= 0,
                n == self.collectors@.len(),
                k <= n,
                (match best {
                    Some(b) => b < n && now - self.collectors@[b as int].last_updated
                        >= THIRTY_DAYS && (forall|j: int|
                        0 <= j < k && now - (#[trigger] self.collectors@[j]).last_updated
                            >= THIRTY_DAYS ==> self.collectors@[b as int].fan_id
                            <= self.collectors@[j].fan_id),
                    None => forall|j: int|
                        0 <= j < k ==> now - (#[trigger] self.collectors@[j]).last_updated
                            < THIRTY_DAYS,
                }),
            decreases n - k,
        {
            if now - self.collectors[k].last_updated >= THIRTY_DAYS {
                match best {
                    None => {
                        best = Some(k);
                    },
                    Some(b) => {
                        if self.collectors[k].fan_id < self.collectors[b].fan_id {
                            best = Some(k);
                        }
                    },
                }
            }
            k += 1;
        }
        match best {
            Some(b) => {
                let bf = self.collectors[b].fan_id;
                proof {
                    lemma_collector_row_for(self.collectors@, bf as int, b as int);
                    assert(stale_fan(self.collectors@, bf as int, now as int)) by {
                        assert(self.collectors@[b as int].fan_id == bf);
                    }
                    assert forall|g: i64| #[trigger] stale_fan(
                        self.collectors@,
                        g as int,
                        now as int,
                    ) implies bf <= g by {
                        let j = choose|j: int|
                            0 <= j < self.collectors@.len() && self.collectors@[j].fan_id == g
                                && now - self.collectors@[j].last_updated >= THIRTY_DAYS;
                        assert(now - self.collectors@[j].last_updated >= THIRTY_DAYS);
                    };
                    assert(min_stale_collector(*self, bf, now as int));
                }
                Some(self.collectors[b].username.clone())
            },
            None => {
                proof {
                    assert forall|f: i64|
                        !(#[trigger] stale_fan(self.collectors@, f as int, now as int)) by {
                        if stale_fan(self.collectors@, f as int, now as int) {
                            let j = choose|j: int|
                                0 <= j < self.collectors@.len() && self.collectors@[j].fan_id
                                    == f && now - self.collectors@[j].last_updated
                                    >= THIRTY_DAYS;
                        }
                    };
                }
                None
            },
        }
    }

    /// The next item a worker should crawl: the queued item with the
    /// lowest id, without removing it; when the queue is empty and
    /// crawl-all mode is on, the stale item with the lowest id.
    pub fn get_next_item(&self, crawl: bool, now: i64) -> (r: Option<i64>)
        requires
            self.wf(),
            now >= 0,
        ensures
            self.item_queue@.len() > 0 ==> (match r {
                Some(id) => min_queued_item(*self, id),
                None => false,
            }),
            self.item_queue@.len() == 0 && crawl ==> (match r {
                Some(id) => min_stale_item(*self, id, now as int),
                None => !(exists|i: i64|
                    #[trigger] stale_item(self.items@, i as int, now as int)),
            }),
            self.item_queue@.len() == 0 && !crawl ==> r.is_none(),
    {
        if self.item_queue.len() > 0 {
            let mut best: i64 = self.item_queue[0];
            let n = self.item_queue.len();
            let mut k: usize = 1;
            proof {
                assert(self.item_queue@.contains(best)) by {
                    assert(self.item_queue@[0] == best);
                }
            }
            while k < n
                invariant
                    n == self.item_queue@.len(),
                    k <= n,
                    self.item_queue@.contains(best),
                    forall|j: int| 0 <= j < k ==> best <= #[trigger] self.item_queue@[j],
                decreases n - k,
            {
                let x = self.item_queue[k];
                if x < best {
                    best = x;
                    proof {
                        assert(self.item_queue@.contains(best)) by {
                            assert(self.item_queue@[k as int] == best);
                        }
                    }
                }
                k += 1;
            }
            proof {
                assert forall|g: i64| #[trigger] self.item_queue@.contains(g) implies best
                    <= g by {
                    let j = choose|j: int|
                        0 <= j < self.item_queue@.len() && self.item_queue@[j] == g;
                };
            }
            Some(best)
        } else if crawl {
            self.next_stale_item(now)
        } else {
            None
        }
    }

    fn next_stale_item(&self, now: i64) -> (r: Option<i64>)
        requires
            self.wf(),
            now >= 0,
        ensures
            (match r {
                Some(id) => min_stale_item(*self, id, now as int),
                None => !(exists|i: i64|
                    #[trigger] stale_item(self.items@, i as int, now as int)),
            }),
    {
        let mut best: Option<usize> = None;
        let n = self.items.len();
        let mut k: usize = 0;
        while k < n
            invariant
                self.wf(),
                now >= 0,
                n == self.items@.len(),
                k <= n,
                (match best {
                    Some(b) => b < n && now - self.items@[b as int].last_updated >= THIRTY_DAYS
                        && (forall|j: int|
                        0 <= j < k && now - (#[trigger] self.items@[j]).last_updated
                            >= THIRTY_DAYS ==> self.items@[b as int].item_id
                            <= self.items@[j].item_id),
                    None => forall|j: int|
                        0 <= j < k ==> now - (#[trigger] self.items@[j]).last_updated
                            < THIRTY_DAYS,
                }),
            decreases n - k,
        {
            if now - self.items[k].last_updated >= THIRTY_DAYS {
                match best {
                    None => {
                        best = Some(k);
                    },
                    Some(b) => {
                        if self.items[k].item_id < self.items[b].item_id {
                            best = Some(k);
                        }
                    },
                }
            }
            k += 1;
        }
        match best {
            Some(b) => {
                let id = self.items[b].item_id;
                proof {
                    assert(stale_item(self.items@, id as int, now as int)) by {
                        assert(self.items@[b as int].item_id == id);
                    }
                    assert forall|g: i64| #[trigger] stale_item(
                        self.items@,
                        g as int,
                        now as int,
                    ) implies id <= g by {
                        let j = choose|j: int|
                            0 <= j < self.items@.len() && self.items@[j].item_id == g && now
                                - self.items@[j].last_updated >= THIRTY_DAYS;
                        assert(now - self.items@[j].last_updated >= THIRTY_DAYS);
                    };
                    assert(min_stale_item(*self, id, now as int));
                }
                Some(id)
            },
            None => {
                proof {
                    assert forall|i: i64|
                        !(#[trigger] stale_item(self.items@, i as int, now as int)) by {
                        if stale_item(self.items@, i as int, now as int) {
                            let j = choose|j: int|
                                0 <= j < self.items@.len() && self.items@[j].item_id == i && now
                                    - self.items@[j].last_updated >= THIRTY_DAYS;
                        }
                    };
                }
                None
            },
        }
    }
}

} // verus!
