use vstd::prelude::*;

use crate::model::{EstimateModel, ItemModel, Timestamp};
use crate::rows::{
    has_id, index_of, items_of, lemma_items_of_append, lemma_items_of_tagged,
    lemma_items_of_without, lemma_slot_bounds, lemma_without_unchanged, slot, tagged, without,
};
use crate::store::{header_for, lemma_updated_wf, StoreModel};

verus! {

/// No item row of a well-formed store belongs to an id above the last one
/// handed out.
proof fn lemma_no_rows_above(s: StoreModel, id: i64)
    requires
        s.wf(),
        id > s.last_id,
    ensures
        items_of(s.items, id) == Seq::<ItemModel>::empty(),
{
    assert forall|k: int| 0 <= k < s.items.len() implies #[trigger] s.items[k].estimate_id
        != id by {
        let j = choose|j: int|
            0 <= j < s.headers.len() && #[trigger] s.headers[j].id == s.items[k].estimate_id;
        assert(s.headers[j].id <= s.last_id);
    }
    lemma_without_unchanged(s.items, id);
    lemma_items_of_without(s.items, id, id);
}

/// Saving an estimate and then listing gives back, under the new id, the
/// same client and project names, the same total, and the same items in
/// the order given, with both timestamps at the time of the save.
pub proof fn law_save_then_list(s: StoreModel, e: EstimateModel, now: Timestamp)
    requires
        s.wf(),
        s.last_id < i64::MAX,
    ensures
        exists|i: int|
            0 <= i < s.saved(e, now).listing().len() && #[trigger] s.saved(e, now).listing()[i]
                == (EstimateModel {
                id: Some((s.last_id + 1) as i64),
                client_name: e.client_name,
                project_name: e.project_name,
                items: e.items,
                total_amount: e.total_amount,
                created_at: Some(now),
                updated_at: Some(now),
            }),
{
    let id = (s.last_id + 1) as i64;
    let h = header_for(e, id, now, now);
    let t = s.saved(e, now);
    lemma_slot_bounds(s.headers, now.micros);
    let p = slot(s.headers, now.micros);
    assert(t.headers[p] == h);
    lemma_no_rows_above(s, id);
    lemma_items_of_append(s.items, tagged(e.items, id), id);
    lemma_items_of_tagged(e.items, id, id);
    assert(items_of(t.items, id) =~= e.items);
    assert(t.listing()[p].items == e.items);
}

/// An update keeps the creation time of the estimate and sets its update
/// time to the time of the update.
pub proof fn law_update_timestamps(s: StoreModel, id: i64, e: EstimateModel, now: Timestamp)
    requires
        s.wf(),
        s.contains(id),
    ensures
        exists|i: int|
            0 <= i < s.updated(id, e, now).listing().len() && (#[trigger] s.updated(
                id,
                e,
                now,
            ).listing()[i]).id == Some(id),
        forall|i: int|
            0 <= i < s.updated(id, e, now).listing().len() && (#[trigger] s.updated(
                id,
                e,
                now,
            ).listing()[i]).id == Some(id) ==> s.updated(id, e, now).listing()[i].created_at
                == Some(s.header(id).created_at) && s.updated(id, e, now).listing()[i].updated_at
                == Some(now),
{
    lemma_updated_entry(s, id, e, now);
}

/// After an update, `id` is still stored, under the new header with the
/// old creation time.
proof fn lemma_updated_header(s: StoreModel, id: i64, e: EstimateModel, now: Timestamp)
    requires
        s.wf(),
        s.contains(id),
    ensures
        s.updated(id, e, now).contains(id),
        s.updated(id, e, now).header(id) == header_for(e, id, s.header(id).created_at, now),
{
    let t = s.updated(id, e, now);
    let i = index_of(s.headers, id);
    assert(0 <= i < s.headers.len() && s.headers[i].id == id);
    let mid = s.headers.remove(i);
    lemma_slot_bounds(mid, now.micros);
    let p = slot(mid, now.micros);
    assert(t.headers[p].id == id);
    lemma_updated_wf(s, id, e, now);
    let j = index_of(t.headers, id);
    assert(t.headers[j].id == id);
    assert(j == p);
}

/// The store after updating estimate `id` from each of `es` in turn, the
/// k-th at time `times[k]`.
pub open spec fn updated_all(
    s: StoreModel,
    id: i64,
    es: Seq<EstimateModel>,
    times: Seq<Timestamp>,
) -> StoreModel
    decreases es.len(),
{
    if es.len() == 0 || times.len() == 0 {
        s
    } else {
        updated_all(s, id, es.drop_last(), times.drop_last()).updated(id, es.last(), times.last())
    }
}

/// However many updates an estimate goes through, it stays stored, keeps
/// its creation time, and carries the time of the last update.
pub proof fn law_updates_keep_created(
    s: StoreModel,
    id: i64,
    es: Seq<EstimateModel>,
    times: Seq<Timestamp>,
)
    requires
        s.wf(),
        s.contains(id),
        es.len() == times.len(),
    ensures
        updated_all(s, id, es, times).wf(),
        updated_all(s, id, es, times).contains(id),
        updated_all(s, id, es, times).header(id).created_at == s.header(id).created_at,
        es.len() > 0 ==> updated_all(s, id, es, times).header(id).updated_at == times.last(),
    decreases es.len(),
{
    if es.len() > 0 {
        let prev = updated_all(s, id, es.drop_last(), times.drop_last());
        law_updates_keep_created(s, id, es.drop_last(), times.drop_last());
        lemma_updated_wf(prev, id, es.last(), times.last());
        lemma_updated_header(prev, id, es.last(), times.last());
    }
}

/// When the clock has not gone back, an update never moves the update
/// time of the estimate earlier.
pub proof fn law_update_time_never_decreases(
    s: StoreModel,
    id: i64,
    e: EstimateModel,
    now: Timestamp,
)
    requires
        s.wf(),
        s.contains(id),
        now.micros >= s.header(id).updated_at.micros,
    ensures
        forall|i: int|
            0 <= i < s.updated(id, e, now).listing().len() && (#[trigger] s.updated(
                id,
                e,
                now,
            ).listing()[i]).id == Some(id) ==> s.updated(
                id,
                e,
                now,
            ).listing()[i].updated_at.unwrap().micros
                >= s.header(id).updated_at.micros,
{
    lemma_updated_entry(s, id, e, now);
}

/// After an update, the estimate holds exactly the items given to it: none
/// of the ones it had before remain unless given again.
pub proof fn law_update_replaces_items(s: StoreModel, id: i64, e: EstimateModel, now: Timestamp)
    requires
        s.wf(),
        s.contains(id),
    ensures
        forall|i: int|
            0 <= i < s.updated(id, e, now).listing().len() && (#[trigger] s.updated(
                id,
                e,
                now,
            ).listing()[i]).id == Some(id) ==> s.updated(id, e, now).listing()[i].items
                == e.items,
        items_of(s.updated(id, e, now).items, id) == e.items,
{
    lemma_updated_entry(s, id, e, now);
}

/// The one entry for `id` after an update is the new header, with the
/// items given.
proof fn lemma_updated_entry(s: StoreModel, id: i64, e: EstimateModel, now: Timestamp)
    requires
        s.wf(),
        s.contains(id),
    ensures
        exists|i: int|
            0 <= i < s.updated(id, e, now).listing().len() && (#[trigger] s.updated(
                id,
                e,
                now,
            ).listing()[i]).id == Some(id),
        forall|i: int|
            0 <= i < s.updated(id, e, now).listing().len() && (#[trigger] s.updated(
                id,
                e,
                now,
            ).listing()[i]).id == Some(id) ==> s.updated(id, e, now).listing()[i] == (
            EstimateModel {
                id: Some(id),
                client_name: e.client_name,
                project_name: e.project_name,
                items: e.items,
                total_amount: e.total_amount,
                created_at: Some(s.header(id).created_at),
                updated_at: Some(now),
            }),
        items_of(s.updated(id, e, now).items, id) == e.items,
{
    let t = s.updated(id, e, now);
    let i = index_of(s.headers, id);
    assert(0 <= i < s.headers.len() && s.headers[i].id == id);
    let mid = s.headers.remove(i);
    let h = header_for(e, id, s.headers[i].created_at, now);
    lemma_slot_bounds(mid, now.micros);
    let p = slot(mid, now.micros);
    assert(t.headers == mid.insert(p, h));
    lemma_items_of_without(s.items, id, id);
    lemma_items_of_append(without(s.items, id), tagged(e.items, id), id);
    lemma_items_of_tagged(e.items, id, id);
    assert(items_of(t.items, id) =~= e.items);
    assert(t.listing()[p].id == Some(id));
    assert forall|j: int| 0 <= j < t.listing().len() && (#[trigger] t.listing()[j]).id == Some(
        id,
    ) implies j == p by {
        if j < p {
            assert(t.headers[j] == mid[j]);
            let j0 = if j < i { j } else { j + 1 };
            assert(mid[j] == s.headers[j0]);
        } else if j > p {
            assert(t.headers[j] == mid[j - 1]);
            let j0 = if j - 1 < i { j - 1 } else { j };
            assert(mid[j - 1] == s.headers[j0]);
        }
    }
}

/// After a delete, no entry of the listing has the id and no item row
/// belongs to it; every other estimate keeps its items.
pub proof fn law_delete_cascades(s: StoreModel, id: i64)
    requires
        s.wf(),
    ensures
        forall|i: int|
            0 <= i < s.deleted(id).listing().len() ==> (#[trigger] s.deleted(id).listing()[i]).id
                != Some(id),
        items_of(s.deleted(id).items, id) == Seq::<ItemModel>::empty(),
        forall|other: i64|
            other != id ==> #[trigger] items_of(s.deleted(id).items, other) == items_of(
                s.items,
                other,
            ),
{
    let t = s.deleted(id);
    lemma_items_of_without(s.items, id, id);
    assert forall|other: i64| other != id implies #[trigger] items_of(t.items, other) == items_of(
        s.items,
        other,
    ) by {
        lemma_items_of_without(s.items, id, other);
    }
    if s.contains(id) {
        let i = index_of(s.headers, id);
        assert(0 <= i < s.headers.len() && s.headers[i].id == id);
        assert forall|j: int| 0 <= j < t.listing().len() implies (#[trigger] t.listing()[j]).id
            != Some(id) by {
            let j0 = if j < i { j } else { j + 1 };
            assert(t.headers[j] == s.headers[j0]);
        }
    } else {
        assert forall|j: int| 0 <= j < t.listing().len() implies (#[trigger] t.listing()[j]).id
            != Some(id) by {
            assert(t.headers[j].id != id);
        }
    }
}

/// Deleting an id that is not stored changes nothing.
pub proof fn law_delete_missing_is_noop(s: StoreModel, id: i64)
    requires
        s.wf(),
        !s.contains(id),
    ensures
        s.deleted(id) == s,
{
    assert forall|k: int| 0 <= k < s.items.len() implies #[trigger] s.items[k].estimate_id
        != id by {
        assert(has_id(s.headers, s.items[k].estimate_id));
    }
    lemma_without_unchanged(s.items, id);
}

/// The listing of a well-formed store runs from the most recently updated
/// estimate to the least.
pub proof fn law_listing_newest_first(s: StoreModel)
    requires
        s.wf(),
    ensures
        forall|i: int, j: int|
            0 <= i < j < s.listing().len() ==> (
            #[trigger] s.listing()[i]).updated_at.unwrap().micros
                >= (#[trigger] s.listing()[j]).updated_at.unwrap().micros,
{
    assert forall|i: int, j: int| 0 <= i < j < s.listing().len() implies (
    #[trigger] s.listing()[i]).updated_at.unwrap().micros >= (
    #[trigger] s.listing()[j]).updated_at.unwrap().micros by {
        assert(s.headers[i].updated_at.micros >= s.headers[j].updated_at.micros);
    }
}

/// An estimate saved no earlier than every stored one was updated comes
/// first in the listing.
pub proof fn law_latest_save_listed_first(s: StoreModel, e: EstimateModel, now: Timestamp)
    requires
        s.wf(),
        s.last_id < i64::MAX,
        forall|i: int|
            0 <= i < s.headers.len() ==> (#[trigger] s.headers[i]).updated_at.micros <= now.micros,
    ensures
        s.saved(e, now).listing()[0].id == Some((s.last_id + 1) as i64),
{
    if s.headers.len() > 0 {
        assert(s.headers[0].updated_at.micros <= now.micros);
    }
    assert(slot(s.headers, now.micros) == 0);
}

} // verus!
