//! The item-side crawl: the host gate for item URLs, applying fetched
//! collector pages to the store, and the worker's bookkeeping after a
//! crawl attempt.

use vstd::prelude::*;
use crate::store::{
    drop_item_edges, drop_key, has_fan, has_item, insert_edge, mark_item_rows,
    upsert_collector_rows, CollectorRow, Edge, Store,
};
use crate::collectors::WorkerAction;
use crate::types::{AlbumProperties, Collector, CollectorsData, CollectorsResult};
use crate::Error;

verus! {

/// Pagination state carried between collector pages of one item.
pub struct PageResults {
    pub token: String,
    pub album_id: i64,
    pub album_type: String,
}

/// Classify the shape of an item page: a collectors block proceeds; a
/// subscription block is deliberately unsupported and treated as not
/// found; anything else is a malformed page.
pub fn classify_item_page(has_collectors_data: bool, has_subscription_data: bool) -> (r: Result<
    (),
    Error,
>)
    ensures
        r == (if has_collectors_data {
            Ok::<(), Error>(())
        } else if has_subscription_data {
            Err::<(), Error>(Error::NotFoundError)
        } else {
            Err::<(), Error>(Error::PageError)
        }),
{
    if has_collectors_data {
        Ok(())
    } else if has_subscription_data {
        Err(Error::NotFoundError)
    } else {
        Err(Error::PageError)
    }
}

/// A character the host label of a catalog subdomain may hold.
pub open spec fn is_host_char(c: char) -> bool {
    ('a' <= c && c <= 'z') || ('0' <= c && c <= '9') || c == '-'
}

/// `t` occurs in `s` starting at position `at`.
pub open spec fn starts_with_at(s: Seq<char>, t: Seq<char>, at: int) -> bool {
    0 <= at && at + t.len() <= s.len() && (forall|i: int| 0 <= i < t.len() ==> s[at + i] == t[i])
}

/// `s` splits at scheme length `p` and host length `h` into an HTTP
/// scheme, a non-empty host label and the catalog domain.
pub open spec fn bandcamp_split(s: Seq<char>, p: int, h: int) -> bool {
    &&& ((p == 7 && starts_with_at(s, "http://"@, 0)) || (p == 8 && starts_with_at(
        s,
        "https://"@,
        0,
    )))
    &&& h >= 1
    &&& (forall|i: int| p <= i < p + h ==> is_host_char(s[i]))
    &&& starts_with_at(s, ".bandcamp.com"@, p + h)
}

/// A URL the item worker may fetch: an HTTP or HTTPS URL whose host
/// is a subdomain of the catalog service. Anything else is treated as
/// not found without a request.
pub open spec fn is_bandcamp_url_spec(s: Seq<char>) -> bool {
    exists|p: int, h: int| bandcamp_split(s, p, h)
}

fn host_char(c: char) -> (r: bool)
    ensures
        r == is_host_char(c),
{
    ('a' <= c && c <= 'z') || ('0' <= c && c <= '9') || c == '-'
}

/// Decide whether an item URL points into the catalog service.
pub fn is_bandcamp_url(url: &str) -> (r: bool)
    ensures
        r == is_bandcamp_url_spec(url@),
{
    proof {
        reveal_strlit("http://");
        reveal_strlit("https://");
        reveal_strlit(".bandcamp.com");
    }
    let len = url.unicode_len();
    if len < 7 {
        proof {
            assert forall|p: int, h: int| !bandcamp_split(url@, p, h) by {
                if bandcamp_split(url@, p, h) {
                    assert(p + ".bandcamp.com"@.len() <= url@.len());
                }
            };
        }
        return false;
    }
    if !(url.get_char(0) == 'h' && url.get_char(1) == 't' && url.get_char(2) == 't'
        && url.get_char(3) == 'p') {
        proof {
            assert forall|p: int, h: int| !bandcamp_split(url@, p, h) by {
                if bandcamp_split(url@, p, h) {
                    if p == 7 {
                        assert(url@[0] == "http://"@[0]);
                        assert(url@[1] == "http://"@[1]);
                        assert(url@[2] == "http://"@[2]);
                        assert(url@[3] == "http://"@[3]);
                    } else {
                        assert(url@[0] == "https://"@[0]);
                        assert(url@[1] == "https://"@[1]);
                        assert(url@[2] == "https://"@[2]);
                        assert(url@[3] == "https://"@[3]);
                    }
                }
            };
        }
        return false;
    }
    let p: usize;
    if url.get_char(4) == 's' {
        if len < 8 || !(url.get_char(5) == ':' && url.get_char(6) == '/' && url.get_char(7)
            == '/') {
            proof {
                assert forall|p2: int, h: int| !bandcamp_split(url@, p2, h) by {
                    if bandcamp_split(url@, p2, h) {
                        if p2 == 7 {
                            assert(url@[4] == "http://"@[4]);
                        } else {
                            assert(url@[4] == "https://"@[4]);
                            assert(url@[5] == "https://"@[5]);
                            assert(url@[6] == "https://"@[6]);
                            assert(url@[7] == "https://"@[7]);
                            assert(p2 + h + ".bandcamp.com"@.len() <= url@.len());
                        }
                    }
                };
            }
            return false;
        }
        p = 8;
        proof {
            assert(starts_with_at(url@, "https://"@, 0));
        }
    } else {
        if !(url.get_char(4) == ':' && url.get_char(5) == '/' && url.get_char(6) == '/') {
            proof {
                assert forall|p2: int, h: int| !bandcamp_split(url@, p2, h) by {
                    if bandcamp_split(url@, p2, h) {
                        if p2 == 7 {
                            assert(url@[4] == "http://"@[4]);
                            assert(url@[5] == "http://"@[5]);
                            assert(url@[6] == "http://"@[6]);
                        } else {
                            assert(url@[4] == "https://"@[4]);
                        }
                    }
                };
            }
            return false;
        }
        p = 7;
        proof {
            assert(starts_with_at(url@, "http://"@, 0));
        }
    }
    proof {
        assert forall|p2: int, h: int| bandcamp_split(url@, p2, h) implies p2 == p by {
            if p == 8 && p2 == 7 {
                assert(url@[4] == "http://"@[4]);
            }
            if p == 7 && p2 == 8 {
                assert(url@[4] == "https://"@[4]);
            }
        };
    }
    let mut j: usize = p;
    while j < len && host_char(url.get_char(j))
        invariant
            p <= j <= len,
            len == url@.len(),
            forall|i: int| p <= i < j ==> is_host_char(url@[i]),
        decreases len - j,
    {
        j += 1;
    }
    proof {
        assert(j == len || !is_host_char(url@[j as int]));
        assert forall|p2: int, h: int| bandcamp_split(url@, p2, h) implies p2 + h == j by {
            assert(p2 == p);
            assert(url@[p2 + h] == ".bandcamp.com"@[0]);
            assert(!is_host_char(url@[p2 + h]));
            if p2 + h > j {
                assert(p <= j < p2 + h);
                assert(is_host_char(url@[j as int]));
                assert(p2 + h + ".bandcamp.com"@.len() <= url@.len());
            }
            if p2 + h < j {
                assert(is_host_char(url@[p2 + h]));
            }
        };
    }
    if j == p {
        proof {
            assert forall|p2: int, h: int| !bandcamp_split(url@, p2, h) by {
                if bandcamp_split(url@, p2, h) {
                    assert(p2 + h == j);
                    assert(h >= 1);
                }
            };
        }
        return false;
    }
    if len - j < 13 {
        proof {
            assert forall|p2: int, h: int| !bandcamp_split(url@, p2, h) by {
                if bandcamp_split(url@, p2, h) {
                    assert(p2 + h == j);
                    assert(p2 + h + ".bandcamp.com"@.len() <= url@.len());
                }
            };
        }
        return false;
    }
    let suffix = ".bandcamp.com";
    let mut i: usize = 0;
    let mut ok = true;
    while i < 13 && ok
        invariant
            i <= 13,
            len == url@.len(),
            j + 13 <= len,
            suffix@ == ".bandcamp.com"@,
            ok ==> forall|i2: int| 0 <= i2 < i ==> url@[j + i2] == ".bandcamp.com"@[i2],
            !ok ==> i < 13 && url@[j + i] != ".bandcamp.com"@[i as int],
        decreases 13 - i, (if ok {
            1int
        } else {
            0int
        }),
    {
        proof {
            reveal_strlit(".bandcamp.com");
        }
        if url.get_char(j + i) != suffix.get_char(i) {
            ok = false;
        } else {
            i += 1;
        }
    }
    if ok {
        proof {
            assert(bandcamp_split(url@, p as int, j - p as int)) by {
                assert(starts_with_at(url@, ".bandcamp.com"@, p as int + (j - p as int)));
            }
        }
        true
    } else {
        proof {
            assert forall|p2: int, h: int| !bandcamp_split(url@, p2, h) by {
                if bandcamp_split(url@, p2, h) {
                    assert(p2 + h == j);
                    assert(url@[j + i] == ".bandcamp.com"@[i as int]);
                }
            };
        }
        false
    }
}

/// The collector table after a whole page of thumbs is upserted, in
/// page order.
pub open spec fn page_collectors_after(rows: Seq<CollectorRow>, thumbs: Seq<Collector>) -> Seq<
    CollectorRow,
>
    decreases thumbs.len(),
{
    if thumbs.len() == 0 {
        rows
    } else {
        upsert_collector_rows(page_collectors_after(rows, thumbs.drop_last()), thumbs.last())
    }
}

/// The collected-by relation after a whole page of thumbs is recorded
/// for one item, in page order.
pub open spec fn cb_edges_after(es: Seq<Edge>, item: i64, thumbs: Seq<Collector>) -> Seq<Edge>
    decreases thumbs.len(),
{
    if thumbs.len() == 0 {
        es
    } else {
        insert_edge(
            cb_edges_after(es, item, thumbs.drop_last()),
            Edge { fan_id: thumbs.last().fan_id, item_id: item },
        )
    }
}

/// The done signal of the item-side paginator: some insert of the
/// page reported the edge as already present.
pub open spec fn cb_any_duplicate(es: Seq<Edge>, item: i64, thumbs: Seq<Collector>) -> bool
    decreases thumbs.len(),
{
    if thumbs.len() == 0 {
        false
    } else {
        cb_any_duplicate(es, item, thumbs.drop_last()) || crate::store::has_edge(
            cb_edges_after(es, item, thumbs.drop_last()),
            thumbs.last().fan_id as int,
            item as int,
        )
    }
}

/// The pagination token after a page of thumbs: the token of the last
/// thumb that carries one, else the token the page started with.
pub open spec fn last_some_token(thumbs: Seq<Collector>, init: Seq<char>) -> Seq<char>
    decreases thumbs.len(),
{
    if thumbs.len() == 0 {
        init
    } else {
        match thumbs.last().token {
            Some(t) => t@,
            None => last_some_token(thumbs.drop_last(), init),
        }
    }
}

/// Record a page of collector thumbs for one item: upsert every
/// collector and its collected-by edge, advance the token, and report
/// the done signal.
pub fn apply_collectors_batch(
    store: &mut Store,
    item_id: i64,
    thumbs: &Vec<Collector>,
    token: String,
) -> (r: (bool, String))
    requires
        old(store).wf(),
        has_item(old(store).items@, item_id as int),
    ensures
        final(store).wf(),
        final(store).collectors@ == page_collectors_after(old(store).collectors@, thumbs@),
        final(store).collected_by@ == cb_edges_after(old(store).collected_by@, item_id, thumbs@),
        r.0 == cb_any_duplicate(old(store).collected_by@, item_id, thumbs@),
        r.1@ == last_some_token(thumbs@, token@),
        crate::store::same_items(*old(store), *final(store)),
        crate::store::same_collects(*old(store), *final(store)),
        crate::store::same_queues(*old(store), *final(store)),
        crate::store::same_targets(*old(store), *final(store)),
{
    let mut done = false;
    let mut tk = token;
    let n = thumbs.len();
    let mut k: usize = 0;
    while k < n
        invariant
            n == thumbs@.len(),
            k <= n,
            store.wf(),
            has_item(store.items@, item_id as int),
            store.collectors@ == page_collectors_after(
                old(store).collectors@,
                thumbs@.subrange(0, k as int),
            ),
            store.collected_by@ == cb_edges_after(
                old(store).collected_by@,
                item_id,
                thumbs@.subrange(0, k as int),
            ),
            done == cb_any_duplicate(
                old(store).collected_by@,
                item_id,
                thumbs@.subrange(0, k as int),
            ),
            tk@ == last_some_token(thumbs@.subrange(0, k as int), token@),
            crate::store::same_items(*old(store), *store),
            crate::store::same_collects(*old(store), *store),
            crate::store::same_queues(*old(store), *store),
            crate::store::same_targets(*old(store), *store),
        decreases n - k,
    {
        proof {
            let pre = thumbs@.subrange(0, k as int);
            let cur = thumbs@.subrange(0, k as int + 1);
            assert(cur.drop_last() =~= pre);
            assert(cur.last() == thumbs@[k as int]);
        }
        let newly = store.add_collector_for_item(item_id, &thumbs[k]);
        done = !newly || done;
        match &thumbs[k].token {
            Some(t) => {
                tk = t.clone();
            },
            None => {},
        }
        k += 1;
    }
    proof {
        assert(thumbs@.subrange(0, n as int) =~= thumbs@);
    }
    (done, tk)
}

/// Record the initial collectors page of an item crawl and decide
/// whether the paginated endpoint should be called: only when the
/// done signal did not fire and the page reports more thumbs. To
/// paginate, the page properties must have been found, else the page
/// is malformed.
pub fn apply_initial_collectors_page(
    store: &mut Store,
    item_id: i64,
    data: &CollectorsData,
    props: &Option<AlbumProperties>,
) -> (r: Result<Option<PageResults>, Error>)
    requires
        old(store).wf(),
        has_item(old(store).items@, item_id as int),
    ensures
        final(store).wf(),
        final(store).collectors@ == page_collectors_after(old(store).collectors@, data.thumbs@),
        final(store).collected_by@ == cb_edges_after(
            old(store).collected_by@,
            item_id,
            data.thumbs@,
        ),
        (match r {
            Ok(None) => cb_any_duplicate(old(store).collected_by@, item_id, data.thumbs@)
                || !data.more_thumbs_available,
            Ok(Some(pr)) => !cb_any_duplicate(old(store).collected_by@, item_id, data.thumbs@)
                && data.more_thumbs_available && props.is_some() && pr.token@ == last_some_token(
                data.thumbs@,
                Seq::<char>::empty(),
            ) && pr.album_id == props.unwrap().item_id && pr.album_type@
                == props.unwrap().item_type@,
            Err(e) => e == Error::PageError && !cb_any_duplicate(
                old(store).collected_by@,
                item_id,
                data.thumbs@,
            ) && data.more_thumbs_available && props.is_none(),
        }),
        crate::store::same_items(*old(store), *final(store)),
        crate::store::same_collects(*old(store), *final(store)),
        crate::store::same_queues(*old(store), *final(store)),
        crate::store::same_targets(*old(store), *final(store)),
{
    let (done, token) = apply_collectors_batch(store, item_id, &data.thumbs, String::new());
    if !done && data.more_thumbs_available {
        match props {
            Some(properties) => Ok(
                Some(
                    PageResults {
                        token,
                        album_id: properties.item_id,
                        album_type: properties.item_type.clone(),
                    },
                ),
            ),
            None => Err(Error::PageError),
        }
    } else {
        Ok(None)
    }
}

/// Record one page of the paginated collectors endpoint and decide
/// how to continue: the token advances to the last thumb's token, and
/// the crawl continues only when the done signal did not fire and the
/// remote has more pages.
pub fn apply_collectors_page(
    store: &mut Store,
    item_id: i64,
    result: &CollectorsResult,
    token: &String,
) -> (r: Option<String>)
    requires
        old(store).wf(),
        has_item(old(store).items@, item_id as int),
    ensures
        final(store).wf(),
        final(store).collectors@ == page_collectors_after(
            old(store).collectors@,
            result.results@,
        ),
        final(store).collected_by@ == cb_edges_after(
            old(store).collected_by@,
            item_id,
            result.results@,
        ),
        (match r {
            Some(t) => !cb_any_duplicate(old(store).collected_by@, item_id, result.results@)
                && result.more_available && t@ == last_some_token(result.results@, token@),
            None => cb_any_duplicate(old(store).collected_by@, item_id, result.results@)
                || !result.more_available,
        }),
        crate::store::same_items(*old(store), *final(store)),
        crate::store::same_collects(*old(store), *final(store)),
        crate::store::same_queues(*old(store), *final(store)),
        crate::store::same_targets(*old(store), *final(store)),
{
    let (done, tk) = apply_collectors_batch(store, item_id, &result.results, token.clone());
    if !done && result.more_available {
        Some(tk)
    } else {
        None
    }
}

/// The worker's bookkeeping after an item crawl attempt. Success and
/// not-found mark the item done and dequeue it; a rate limit rolls
/// the item's collected-by edges back and asks the worker to back
/// off; any other failure leaves everything as it was for a retry.
pub fn apply_item_outcome(
    store: &mut Store,
    item_id: i64,
    outcome: &Result<(), Error>,
    now: i64,
) -> (action: WorkerAction)
    requires
        old(store).wf(),
        now >= 0,
    ensures
        final(store).wf(),
        action == (match outcome {
            Err(Error::RateLimit) => WorkerAction::Backoff,
            _ => WorkerAction::Proceed,
        }),
        (match outcome {
            Ok(()) | Err(Error::NotFoundError) => {
                &&& final(store).items@ == mark_item_rows(old(store).items@, item_id, now)
                &&& final(store).item_queue@ == drop_key(old(store).item_queue@, item_id)
                &&& final(store).collection_queue@ == old(store).collection_queue@
                &&& crate::store::same_collectors(*old(store), *final(store))
                &&& crate::store::same_collects(*old(store), *final(store))
                &&& crate::store::same_collected_by(*old(store), *final(store))
                &&& crate::store::same_targets(*old(store), *final(store))
            },
            Err(Error::RateLimit) => {
                &&& final(store).collected_by@ == drop_item_edges(
                    old(store).collected_by@,
                    item_id,
                )
                &&& crate::store::same_collectors(*old(store), *final(store))
                &&& crate::store::same_items(*old(store), *final(store))
                &&& crate::store::same_collects(*old(store), *final(store))
                &&& crate::store::same_queues(*old(store), *final(store))
                &&& crate::store::same_targets(*old(store), *final(store))
            },
            Err(_) => *final(store) == *old(store),
        }),
{
    match outcome {
        Ok(()) => {
            store.mark_item_done(item_id, now);
            store.remove_item_from_queue(item_id);
            WorkerAction::Proceed
        },
        Err(Error::NotFoundError) => {
            store.mark_item_done(item_id, now);
            store.remove_item_from_queue(item_id);
            WorkerAction::Proceed
        },
        Err(Error::RateLimit) => {
            store.remove_collected_by(item_id);
            WorkerAction::Backoff
        },
        Err(_) => WorkerAction::Proceed,
    }
}

} // verus!