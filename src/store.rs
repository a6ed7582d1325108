use vstd::prelude::*;

use crate::clock::clock_now;
use crate::model::{
    items_view, lemma_items_view_push, Estimate, EstimateItem, EstimateModel, Timestamp,
};
use crate::rows::{
    estimate_of, has_id, headers_view, index_of, insert_sorted, items_of, lemma_has_id_insert,
    lemma_has_id_remove, lemma_insert_sorted, lemma_slot_bounds, lemma_slot_is,
    lemma_without_refs, rows_view, slot, sorted_desc, tagged, unique_ids, without, HeaderModel,
    HeaderRow, ItemRow, ItemRowModel,
};

verus! {

/// Why an operation on the store was refused.
#[derive(Clone, Copy, Debug, PartialEq, Eq, Structural)]
pub enum StoreError {
    /// An update was asked for an estimate that has no id.
    MissingId,
    /// No stored estimate has this id.
    NotFound(i64),
    /// Every positive 64-bit id has been handed out.
    IdsExhausted,
    /// A restored header has an id that is already stored.
    DuplicateId(i64),
    /// A restored header has an id that is not positive.
    InvalidId(i64),
    /// A restored item row refers to an estimate that is not stored.
    DanglingItem(i64),
    /// The system clock could not be read as a time after the Unix epoch.
    ClockUnavailable,
}

/// The contents of the store: the header table, the item table, and the
/// largest id ever handed out.
pub ghost struct StoreModel {
    pub headers: Seq<HeaderModel>,
    pub items: Seq<ItemRowModel>,
    pub last_id: i64,
}

/// The header that `e` gets under `id`.
pub open spec fn header_for(
    e: EstimateModel,
    id: i64,
    created_at: Timestamp,
    updated_at: Timestamp,
) -> HeaderModel {
    HeaderModel {
        id,
        client_name: e.client_name,
        project_name: e.project_name,
        total_amount: e.total_amount,
        created_at,
        updated_at,
    }
}

impl StoreModel {
    /// Headers are kept most recently updated first, ids are unique,
    /// positive and never above the last one handed out, and every item row
    /// belongs to a stored header.
    pub open spec fn wf(self) -> bool {
        &&& sorted_desc(self.headers)
        &&& unique_ids(self.headers)
        &&& self.last_id >= 0
        &&& forall|i: int|
            0 <= i < self.headers.len() ==> 0 < #[trigger] self.headers[i].id <= self.last_id
        &&& forall|k: int|
            0 <= k < self.items.len() ==> has_id(self.headers, #[trigger] self.items[k].estimate_id)
    }

    pub open spec fn empty() -> StoreModel {
        StoreModel { headers: Seq::empty(), items: Seq::empty(), last_id: 0 }
    }

    pub open spec fn contains(self, id: i64) -> bool {
        has_id(self.headers, id)
    }

    /// The header stored under `id`.
    pub open spec fn header(self, id: i64) -> HeaderModel {
        self.headers[index_of(self.headers, id)]
    }

    /// After saving `e` at time `now`: a new header under the next id,
    /// created and updated at `now`, and one row per item of `e`, in order.
    pub open spec fn saved(self, e: EstimateModel, now: Timestamp) -> StoreModel {
        let id = (self.last_id + 1) as i64;
        StoreModel {
            headers: insert_sorted(self.headers, header_for(e, id, now, now)),
            items: self.items + tagged(e.items, id),
            last_id: id,
        }
    }

    /// After updating estimate `id` from `e` at time `now`: new header
    /// fields, the creation time kept, and the item rows replaced whole.
    pub open spec fn updated(self, id: i64, e: EstimateModel, now: Timestamp) -> StoreModel {
        let i = index_of(self.headers, id);
        StoreModel {
            headers: insert_sorted(
                self.headers.remove(i),
                header_for(e, id, self.headers[i].created_at, now),
            ),
            items: without(self.items, id) + tagged(e.items, id),
            last_id: self.last_id,
        }
    }

    /// After deleting `id`: its header, if any, and all its item rows gone.
    pub open spec fn deleted(self, id: i64) -> StoreModel {
        StoreModel {
            headers: if self.contains(id) {
                self.headers.remove(index_of(self.headers, id))
            } else {
                self.headers
            },
            items: without(self.items, id),
            last_id: self.last_id,
        }
    }

    /// Every estimate, most recently updated first, each with its items.
    pub open spec fn listing(self) -> Seq<EstimateModel> {
        self.headers.map_values(|h: HeaderModel| estimate_of(h, self.items))
    }
}

pub open spec fn estimates_view(es: Seq<Estimate>) -> Seq<EstimateModel> {
    es.map_values(|e: Estimate| e@)
}

/// Inserting a header with a fresh positive id keeps a store well formed.
proof fn lemma_insert_header_wf(s: StoreModel, h: HeaderModel, last_id: i64)
    requires
        s.wf(),
        0 < h.id <= last_id,
        s.last_id <= last_id,
        !has_id(s.headers, h.id),
    ensures
        (StoreModel {
            headers: insert_sorted(s.headers, h),
            items: s.items,
            last_id,
        }).wf(),
{
    let t = h.updated_at.micros;
    lemma_slot_bounds(s.headers, t);
    lemma_insert_sorted(s.headers, h);
    let p = slot(s.headers, t);
    lemma_has_id_insert(s.headers, p, h);
    let hs = insert_sorted(s.headers, h);
    assert forall|i: int| 0 <= i < hs.len() implies 0 < #[trigger] hs[i].id <= last_id by {
        if i < p {
            assert(hs[i] == s.headers[i]);
        } else if i > p {
            assert(hs[i] == s.headers[i - 1]);
        }
    }
    assert forall|i: int, j: int|
        0 <= i < hs.len() && 0 <= j < hs.len() && i != j implies #[trigger] hs[i].id
        != #[trigger] hs[j].id by {
        if i != p && j != p {
            let a = if i < p { i } else { i - 1 };
            let b = if j < p { j } else { j - 1 };
            assert(hs[i] == s.headers[a] && hs[j] == s.headers[b]);
        } else if i == p {
            let b = if j < p { j } else { j - 1 };
            assert(hs[j] == s.headers[b]);
        } else {
            let a = if i < p { i } else { i - 1 };
            assert(hs[i] == s.headers[a]);
        }
    }
}

/// Updating a stored estimate keeps a store well formed.
pub proof fn lemma_updated_wf(s: StoreModel, id: i64, e: EstimateModel, now: Timestamp)
    requires
        s.wf(),
        s.contains(id),
    ensures
        s.updated(id, e, now).wf(),
{
    let i = index_of(s.headers, id);
    assert(0 <= i < s.headers.len() && s.headers[i].id == id);
    let mid = s.headers.remove(i);
    let h = header_for(e, id, s.headers[i].created_at, now);
    lemma_slot_bounds(mid, now.micros);
    lemma_insert_sorted(mid, h);
    let p = slot(mid, now.micros);
    lemma_has_id_insert(mid, p, h);
    lemma_has_id_remove(s.headers, i);
    lemma_without_refs(s.items, id, s.headers);
    let t = s.updated(id, e, now);
    let hs = t.headers;
    assert(hs == mid.insert(p, h));
    assert forall|x: int| 0 <= x < hs.len() implies 0 < #[trigger] hs[x].id <= t.last_id by {
        if x < p {
            assert(hs[x] == mid[x]);
            if x < i {
                assert(mid[x] == s.headers[x]);
            } else {
                assert(mid[x] == s.headers[x + 1]);
            }
        } else if x > p {
            assert(hs[x] == mid[x - 1]);
            if x - 1 < i {
                assert(mid[x - 1] == s.headers[x - 1]);
            } else {
                assert(mid[x - 1] == s.headers[x]);
            }
        }
    }
    assert forall|a: int, b: int|
        0 <= a < mid.len() && 0 <= b < mid.len() && a != b implies #[trigger] mid[a].id
        != #[trigger] mid[b].id && mid[a].id != id by {
        let a0 = if a < i { a } else { a + 1 };
        let b0 = if b < i { b } else { b + 1 };
        assert(mid[a] == s.headers[a0] && mid[b] == s.headers[b0]);
    }
    assert forall|x: int, y: int|
        0 <= x < hs.len() && 0 <= y < hs.len() && x != y implies #[trigger] hs[x].id
        != #[trigger] hs[y].id by {
        if x != p && y != p {
            let a = if x < p { x } else { x - 1 };
            let b = if y < p { y } else { y - 1 };
            assert(hs[x] == mid[a] && hs[y] == mid[b]);
        } else if x == p {
            let b = if y < p { y } else { y - 1 };
            assert(hs[y] == mid[b]);
            let b0 = if b < i { b } else { b + 1 };
            assert(mid[b] == s.headers[b0]);
        } else {
            let a = if x < p { x } else { x - 1 };
            assert(hs[x] == mid[a]);
            let a0 = if a < i { a } else { a + 1 };
            assert(mid[a] == s.headers[a0]);
        }
    }
    let w = without(s.items, id);
    assert forall|k: int| 0 <= k < t.items.len() implies has_id(
        hs,
        #[trigger] t.items[k].estimate_id,
    ) by {
        if k < w.len() {
            assert(t.items[k] == w[k]);
            assert(has_id(s.headers, w[k].estimate_id) && w[k].estimate_id != id);
        } else {
            assert(t.items[k] == tagged(e.items, id)[k - w.len()]);
        }
    }
}

/// Estimates and their line items, kept as a header table and an item table.
pub struct EstimateStore {
    headers: Vec<HeaderRow>,
    items: Vec<ItemRow>,
    last_id: i64,
}

impl View for EstimateStore {
    type V = StoreModel;

    closed spec fn view(&self) -> StoreModel {
        StoreModel {
            headers: headers_view(self.headers@),
            items: rows_view(self.items@),
            last_id: self.last_id,
        }
    }
}

/// The position at which a header updated at `t` is inserted.
fn find_slot(hs: &Vec<HeaderRow>, t: i64) -> (p: usize)
    ensures
        p == slot(headers_view(hs@), t),
{
    let ghost hv = headers_view(hs@);
    let mut i: usize = 0;
    while i < hs.len() && hs[i].updated_at.micros > t
        invariant
            i <= hs@.len(),
            hv == headers_view(hs@),
            forall|j: int| 0 <= j < i ==> hv[j].updated_at.micros > t,
        decreases hs@.len() - i,
    {
        i = i + 1;
    }
    proof {
        lemma_slot_is(hv, t, i as int);
    }
    i
}

/// The position of the header with this id, if any.
fn find_index(hs: &Vec<HeaderRow>, id: i64) -> (r: Option<usize>)
    ensures
        match r {
            Some(i) => i < hs@.len() && headers_view(hs@)[i as int].id == id,
            None => !has_id(headers_view(hs@), id),
        },
{
    let ghost hv = headers_view(hs@);
    let mut i: usize = 0;
    while i < hs.len()
        invariant
            i <= hs@.len(),
            hv == headers_view(hs@),
            forall|j: int| 0 <= j < i ==> hv[j].id != id,
        decreases hs@.len() - i,
    {
        if hs[i].id == id {
            return Some(i);
        }
        i = i + 1;
    }
    None
}

/// The rows that store `items` for estimate `id`.
fn tag_items(items: &Vec<EstimateItem>, id: i64) -> (r: Vec<ItemRow>)
    ensures
        rows_view(r@) == tagged(items_view(items@), id),
{
    let mut r: Vec<ItemRow> = Vec::new();
    let mut k: usize = 0;
    while k < items.len()
        invariant
            k <= items@.len(),
            rows_view(r@) == tagged(items_view(items@.take(k as int)), id),
        decreases items@.len() - k,
    {
        let row = ItemRow { estimate_id: id, item: items[k].duplicate() };
        proof {
            lemma_items_view_push(items@.take(k as int), items@[k as int]);
            assert(items@.take(k as int + 1) =~= items@.take(k as int).push(items@[k as int]));
            let iv = items_view(items@.take(k as int));
            assert(rows_view(r@.push(row)) =~= rows_view(r@).push(row@));
            assert(tagged(iv.push(items@[k as int]@), id) =~= tagged(iv, id).push(row@));
        }
        r.push(row);
        k = k + 1;
    }
    assert(items@.take(items@.len() as int) =~= items@);
    r
}

/// The rows that do not belong to estimate `id`, in their order.
fn rows_without(rows: &Vec<ItemRow>, id: i64) -> (r: Vec<ItemRow>)
    ensures
        rows_view(r@) == without(rows_view(rows@), id),
{
    let ghost rv = rows_view(rows@);
    let mut r: Vec<ItemRow> = Vec::new();
    let mut k: usize = 0;
    while k < rows.len()
        invariant
            k <= rows@.len(),
            rv == rows_view(rows@),
            rows_view(r@) == without(rv.take(k as int), id),
        decreases rows@.len() - k,
    {
        proof {
            assert(rv.take(k as int + 1).drop_last() =~= rv.take(k as int));
        }
        if rows[k].estimate_id != id {
            let row = rows[k].duplicate();
            proof {
                assert(rows_view(r@.push(row)) =~= rows_view(r@).push(row@));
            }
            r.push(row);
        }
        k = k + 1;
    }
    assert(rv.take(rv.len() as int) =~= rv);
    r
}

/// The items of estimate `id`, in the order of their rows.
fn items_for(rows: &Vec<ItemRow>, id: i64) -> (r: Vec<EstimateItem>)
    ensures
        items_view(r@) == items_of(rows_view(rows@), id),
{
    let ghost rv = rows_view(rows@);
    let mut r: Vec<EstimateItem> = Vec::new();
    let mut k: usize = 0;
    while k < rows.len()
        invariant
            k <= rows@.len(),
            rv == rows_view(rows@),
            items_view(r@) == items_of(rv.take(k as int), id),
        decreases rows@.len() - k,
    {
        proof {
            assert(rv.take(k as int + 1).drop_last() =~= rv.take(k as int));
        }
        if rows[k].estimate_id == id {
            let item = rows[k].item.duplicate();
            proof {
                lemma_items_view_push(r@, item);
            }
            r.push(item);
        }
        k = k + 1;
    }
    assert(rv.take(rv.len() as int) =~= rv);
    r
}

/// The estimate that header `h` and the item rows make together.
fn assemble(h: &HeaderRow, rows: &Vec<ItemRow>) -> (r: Estimate)
    ensures
        r@ == estimate_of(h@, rows_view(rows@)),
{
    Estimate {
        id: Some(h.id),
        client_name: h.client_name.clone(),
        project_name: h.project_name.clone(),
        items: items_for(rows, h.id),
        total_amount: h.total_amount,
        created_at: Some(h.created_at),
        updated_at: Some(h.updated_at),
    }
}

impl EstimateStore {
    /// The store's invariant, as its model states it.
    pub open spec fn wf(&self) -> bool {
        self@.wf()
    }

    /// An empty store.
    pub fn new() -> (r: Self)
        ensures
            r.wf(),
            r@ == StoreModel::empty(),
    {
        let r = EstimateStore { headers: Vec::new(), items: Vec::new(), last_id: 0 };
        assert(r@.headers =~= Seq::<HeaderModel>::empty());
        assert(r@.items =~= Seq::<ItemRowModel>::empty());
        r
    }

    /// Stores `estimate` as a new estimate updated and created at `now`,
    /// and returns the id it was given. Any id that `estimate` carries is
    /// ignored.
    pub fn save_estimate_at(&mut self, estimate: Estimate, now: Timestamp) -> (r: Result<
        i64,
        StoreError,
    >)
        requires
            old(self).wf(),
        ensures
            final(self).wf(),
            old(self)@.last_id == i64::MAX ==> r == Err::<i64, StoreError>(StoreError::IdsExhausted)
                && final(self)@ == old(self)@,
            old(self)@.last_id < i64::MAX ==> r == Ok::<i64, StoreError>(
                (old(self)@.last_id + 1) as i64,
            ) && final(self)@ == old(self)@.saved(estimate@, now),
    {
        if self.last_id == i64::MAX {
            return Err(StoreError::IdsExhausted);
        }
        let ghost before = self@;
        let ghost e = estimate@;
        let id = self.last_id + 1;
        let mut added = tag_items(&estimate.items, id);
        let row = HeaderRow {
            id,
            client_name: estimate.client_name,
            project_name: estimate.project_name,
            total_amount: estimate.total_amount,
            created_at: now,
            updated_at: now,
        };
        let ghost h = row@;
        assert(h == header_for(e, id, now, now));
        let p = find_slot(&self.headers, now.micros);
        proof {
            lemma_slot_bounds(before.headers, now.micros);
            lemma_has_id_insert(before.headers, p as int, h);
            assert forall|x: int|
                0 <= x < before.headers.len() implies #[trigger] before.headers[x].id != id by {}
            lemma_insert_header_wf(before, h, id);
        }
        self.headers.insert(p, row);
        self.items.append(&mut added);
        self.last_id = id;
        proof {
            let hs = self@.headers;
            assert(headers_view(self.headers@) =~= before.headers.insert(p as int, h));
            assert(rows_view(self.items@) =~= before.items + tagged(e.items, id));
            let its = self@.items;
            assert forall|k: int| 0 <= k < its.len() implies has_id(
                hs,
                #[trigger] its[k].estimate_id,
            ) by {
                if k < before.items.len() {
                    assert(its[k] == before.items[k]);
                } else {
                    assert(its[k] == tagged(e.items, id)[k - before.items.len()]);
                }
            }
        }
        Ok(id)
    }

    /// Replaces the header fields and the whole item set of the estimate
    /// that `estimate.id` names, and marks it updated at `now`; its
    /// creation time is kept.
    pub fn update_estimate_at(&mut self, estimate: Estimate, now: Timestamp) -> (r: Result<
        (),
        StoreError,
    >)
        requires
            old(self).wf(),
        ensures
            final(self).wf(),
            estimate@.id is None ==> r == Err::<(), StoreError>(StoreError::MissingId)
                && final(self)@ == old(self)@,
            estimate@.id is Some && !old(self)@.contains(estimate@.id.unwrap()) ==> r == Err::<
                (),
                StoreError,
            >(StoreError::NotFound(estimate@.id.unwrap())) && final(self)@ == old(self)@,
            estimate@.id is Some && old(self)@.contains(estimate@.id.unwrap()) ==> r == Ok::<
                (),
                StoreError,
            >(()) && final(self)@ == old(self)@.updated(estimate@.id.unwrap(), estimate@, now),
    {
        let id = match estimate.id {
            None => {
                return Err(StoreError::MissingId);
            },
            Some(id) => id,
        };
        let i = match find_index(&self.headers, id) {
            None => {
                return Err(StoreError::NotFound(id));
            },
            Some(i) => i,
        };
        let ghost before = self@;
        let ghost e = estimate@;
        proof {
            assert(has_id(before.headers, id) && before.headers[i as int].id == id);
            let j = index_of(before.headers, id);
            assert(before.headers[j].id == id);
            assert(j == i);
        }
        let old_row = self.headers.remove(i);
        let ghost mid = headers_view(self.headers@);
        assert(mid =~= before.headers.remove(i as int));
        let mut added = tag_items(&estimate.items, id);
        let row = HeaderRow {
            id,
            client_name: estimate.client_name,
            project_name: estimate.project_name,
            total_amount: estimate.total_amount,
            created_at: old_row.created_at,
            updated_at: now,
        };
        let ghost h = row@;
        assert(h == header_for(e, id, before.headers[i as int].created_at, now));
        let p = find_slot(&self.headers, now.micros);
        proof {
            lemma_slot_bounds(mid, now.micros);
        }
        self.headers.insert(p, row);
        let mut kept = rows_without(&self.items, id);
        kept.append(&mut added);
        self.items = kept;
        proof {
            assert(self@.headers =~= mid.insert(p as int, h));
            assert(rows_view(self.items@) =~= without(before.items, id) + tagged(e.items, id));
            lemma_updated_wf(before, id, e, now);
        }
        Ok(())
    }

    /// Removes the estimate with this id and all its item rows. An id that
    /// is not stored leaves the store as it was.
    pub fn delete_estimate(&mut self, id: i64)
        requires
            old(self).wf(),
        ensures
            final(self).wf(),
            final(self)@ == old(self)@.deleted(id),
    {
        let ghost before = self@;
        proof {
            lemma_without_refs(before.items, id, before.headers);
        }
        match find_index(&self.headers, id) {
            Some(i) => {
                proof {
                    assert(has_id(before.headers, id));
                    let j = index_of(before.headers, id);
                    assert(before.headers[j].id == id);
                    assert(j == i);
                    lemma_has_id_remove(before.headers, i as int);
                }
                self.headers.remove(i);
                proof {
                    let hs = self@.headers;
                    assert(hs =~= before.headers.remove(i as int));
                    assert forall|a: int, b: int|
                        0 <= a < hs.len() && 0 <= b < hs.len() && a != b implies #[trigger] hs[a].id
                        != #[trigger] hs[b].id by {
                        let a0 = if a < i { a } else { a + 1 };
                        let b0 = if b < i { b } else { b + 1 };
                        assert(hs[a] == before.headers[a0] && hs[b] == before.headers[b0]);
                    }
                    assert forall|a: int, b: int|
                        0 <= a < b < hs.len() implies #[trigger] hs[a].updated_at.micros
                        >= #[trigger] hs[b].updated_at.micros by {
                        let a0 = if a < i { a } else { a + 1 };
                        let b0 = if b < i { b } else { b + 1 };
                        assert(hs[a] == before.headers[a0] && hs[b] == before.headers[b0]);
                    }
                    assert forall|a: int| 0 <= a < hs.len() implies 0 < #[trigger] hs[a].id
                        <= self.last_id by {
                        let a0 = if a < i { a } else { a + 1 };
                        assert(hs[a] == before.headers[a0]);
                    }
                }
            },
            None => {},
        }
        self.items = rows_without(&self.items, id);
        proof {
            let hs = self@.headers;
            let its = self@.items;
            assert forall|k: int| 0 <= k < its.len() implies has_id(
                hs,
                #[trigger] its[k].estimate_id,
            ) by {
                assert(has_id(before.headers, its[k].estimate_id) && its[k].estimate_id != id);
            }
        }
    }

    /// Stores `estimate` as a new estimate, created and updated at the
    /// current time, and returns the id it was given. Fails, changing
    /// nothing, when the clock cannot be read.
    pub fn save_estimate(&mut self, estimate: Estimate) -> (r: Result<i64, StoreError>)
        requires
            old(self).wf(),
        ensures
            final(self).wf(),
            r == Err::<i64, StoreError>(StoreError::ClockUnavailable)
                ==> final(self)@ == old(self)@,
            r != Err::<i64, StoreError>(StoreError::ClockUnavailable)
                && old(self)@.last_id == i64::MAX
                ==> r == Err::<i64, StoreError>(StoreError::IdsExhausted)
                && final(self)@ == old(self)@,
            r != Err::<i64, StoreError>(StoreError::ClockUnavailable)
                && old(self)@.last_id < i64::MAX
                ==> r == Ok::<i64, StoreError>((old(self)@.last_id + 1) as i64)
                && exists|now: Timestamp| final(self)@ == old(self)@.saved(estimate@, now),
    {
        let now = match clock_now() {
            Some(now) => now,
            None => {
                return Err(StoreError::ClockUnavailable);
            },
        };
        self.save_estimate_at(estimate, now)
    }

    /// Replaces the header fields and the whole item set of the estimate
    /// that `estimate.id` names, and marks it updated at the current time.
    /// Fails, changing nothing, when the clock cannot be read.
    pub fn update_estimate(&mut self, estimate: Estimate) -> (r: Result<(), StoreError>)
        requires
            old(self).wf(),
        ensures
            final(self).wf(),
            r == Err::<(), StoreError>(StoreError::ClockUnavailable) ==> final(self)@ == old(self)@,
            r != Err::<(), StoreError>(StoreError::ClockUnavailable) && estimate@.id is None ==> r
                == Err::<(), StoreError>(StoreError::MissingId) && final(self)@ == old(self)@,
            r != Err::<(), StoreError>(StoreError::ClockUnavailable) && estimate@.id is Some
                && !old(self)@.contains(estimate@.id.unwrap()) ==> r == Err::<(), StoreError>(
                StoreError::NotFound(estimate@.id.unwrap()),
            ) && final(self)@ == old(self)@,
            r != Err::<(), StoreError>(StoreError::ClockUnavailable) && estimate@.id is Some
                && old(self)@.contains(estimate@.id.unwrap()) ==> r == Ok::<(), StoreError>(())
                && exists|now: Timestamp|
                final(self)@ == old(self)@.updated(estimate@.id.unwrap(), estimate@, now),
    {
        let now = match clock_now() {
            Some(now) => now,
            None => {
                return Err(StoreError::ClockUnavailable);
            },
        };
        self.update_estimate_at(estimate, now)
    }

    /// Puts back a header read from durable storage, keeping the order of
    /// update times. The id counter is raised to it when it is larger.
    pub fn restore_header(&mut self, row: HeaderRow) -> (r: Result<(), StoreError>)
        requires
            old(self).wf(),
        ensures
            final(self).wf(),
            row.id <= 0 ==> r == Err::<(), StoreError>(StoreError::InvalidId(row.id))
                && final(self)@ == old(self)@,
            row.id > 0 && old(self)@.contains(row.id) ==> r == Err::<(), StoreError>(
                StoreError::DuplicateId(row.id),
            ) && final(self)@ == old(self)@,
            row.id > 0 && !old(self)@.contains(row.id) ==> r == Ok::<(), StoreError>(())
                && final(self)@ == (StoreModel {
                headers: insert_sorted(old(self)@.headers, row@),
                items: old(self)@.items,
                last_id: if row.id > old(self)@.last_id {
                    row.id
                } else {
                    old(self)@.last_id
                },
            }),
    {
        if row.id <= 0 {
            return Err(StoreError::InvalidId(row.id));
        }
        if find_index(&self.headers, row.id).is_some() {
            return Err(StoreError::DuplicateId(row.id));
        }
        let ghost before = self@;
        let ghost h = row@;
        let last_id = if row.id > self.last_id {
            row.id
        } else {
            self.last_id
        };
        proof {
            lemma_insert_header_wf(before, h, last_id);
        }
        let p = find_slot(&self.headers, row.updated_at.micros);
        proof {
            lemma_slot_bounds(before.headers, h.updated_at.micros);
        }
        self.headers.insert(p, row);
        self.last_id = last_id;
        assert(self@.headers =~= insert_sorted(before.headers, h));
        Ok(())
    }

    /// Puts back an item row read from durable storage, after the rows
    /// already there. It must belong to a stored header.
    pub fn restore_item(&mut self, row: ItemRow) -> (r: Result<(), StoreError>)
        requires
            old(self).wf(),
        ensures
            final(self).wf(),
            !old(self)@.contains(row.estimate_id) ==> r == Err::<(), StoreError>(
                StoreError::DanglingItem(row.estimate_id),
            ) && final(self)@ == old(self)@,
            old(self)@.contains(row.estimate_id) ==> r == Ok::<(), StoreError>(())
                && final(self)@ == (StoreModel {
                headers: old(self)@.headers,
                items: old(self)@.items.push(row@),
                last_id: old(self)@.last_id,
            }),
    {
        if find_index(&self.headers, row.estimate_id).is_none() {
            return Err(StoreError::DanglingItem(row.estimate_id));
        }
        let ghost before = self@;
        let ghost rm = row@;
        self.items.push(row);
        proof {
            assert(self@.items =~= before.items.push(rm));
            assert forall|k: int| 0 <= k < self@.items.len() implies has_id(
                self@.headers,
                #[trigger] self@.items[k].estimate_id,
            ) by {
                if k < before.items.len() {
                    assert(self@.items[k] == before.items[k]);
                }
            }
        }
        Ok(())
    }

    /// Makes sure no id up to `last_used` is handed out again, as after
    /// estimates that were stored and later deleted.
    pub fn reserve_ids(&mut self, last_used: i64)
        requires
            old(self).wf(),
        ensures
            final(self).wf(),
            final(self)@ == (StoreModel {
                headers: old(self)@.headers,
                items: old(self)@.items,
                last_id: if last_used > old(self)@.last_id {
                    last_used
                } else {
                    old(self)@.last_id
                },
            }),
    {
        if last_used > self.last_id {
            self.last_id = last_used;
        }
    }

    /// Every stored estimate with its items, most recently updated first.
    pub fn list_estimates(&self) -> (r: Vec<Estimate>)
        ensures
            r@.len() == self@.listing().len(),
            estimates_view(r@) == self@.listing(),
    {
        let ghost all = self@.listing();
        let mut r: Vec<Estimate> = Vec::new();
        let mut i: usize = 0;
        while i < self.headers.len()
            invariant
                i <= self.headers@.len(),
                all == self@.listing(),
                all.len() == self.headers@.len(),
                estimates_view(r@) == all.take(i as int),
            decreases self.headers@.len() - i,
        {
            let e = assemble(&self.headers[i], &self.items);
            proof {
                assert(e@ == all[i as int]);
                assert(estimates_view(r@.push(e)) =~= estimates_view(r@).push(e@));
                assert(all.take(i as int + 1) =~= all.take(i as int).push(all[i as int]));
            }
            r.push(e);
            i = i + 1;
        }
        assert(all.take(all.len() as int) =~= all);
        assert(r@.len() == estimates_view(r@).len());
        r
    }

    /// The stored estimate with this id, with its items.
    pub fn get_estimate(&self, id: i64) -> (r: Option<Estimate>)
        requires
            self.wf(),
        ensures
            !self@.contains(id) ==> r is None,
            self@.contains(id) ==> (r matches Some(e) && e@ == estimate_of(
                self@.header(id),
                self@.items,
            )),
    {
        match find_index(&self.headers, id) {
            None => None,
            Some(i) => {
                proof {
                    let hs = self@.headers;
                    assert(has_id(hs, id) && hs[i as int].id == id);
                    let j = index_of(hs, id);
                    assert(hs[j].id == id);
                    assert(j == i);
                }
                Some(assemble(&self.headers[i], &self.items))
            },
        }
    }
}

} // verus!
