use vstd::prelude::*;

use crate::model::{items_view, Decimal, EstimateItem, EstimateModel, ItemModel, Timestamp};

verus! {

/// A stored header: everything about an estimate except its items.
#[derive(Debug)]
pub struct HeaderRow {
    pub id: i64,
    pub client_name: String,
    pub project_name: String,
    pub total_amount: Decimal,
    pub created_at: Timestamp,
    pub updated_at: Timestamp,
}

/// The mathematical value of a header row.
pub ghost struct HeaderModel {
    pub id: i64,
    pub client_name: Seq<char>,
    pub project_name: Seq<char>,
    pub total_amount: Decimal,
    pub created_at: Timestamp,
    pub updated_at: Timestamp,
}

impl View for HeaderRow {
    type V = HeaderModel;

    open spec fn view(&self) -> HeaderModel {
        HeaderModel {
            id: self.id,
            client_name: self.client_name@,
            project_name: self.project_name@,
            total_amount: self.total_amount,
            created_at: self.created_at,
            updated_at: self.updated_at,
        }
    }
}

/// A stored line item, tagged with the id of the estimate that owns it.
#[derive(Debug)]
pub struct ItemRow {
    pub estimate_id: i64,
    pub item: EstimateItem,
}

/// The mathematical value of an item row.
pub ghost struct ItemRowModel {
    pub estimate_id: i64,
    pub item: ItemModel,
}

impl View for ItemRow {
    type V = ItemRowModel;

    open spec fn view(&self) -> ItemRowModel {
        ItemRowModel { estimate_id: self.estimate_id, item: self.item@ }
    }
}

impl ItemRow {
    /// A copy with the same value.
    pub fn duplicate(&self) -> (r: Self)
        ensures
            r@ == self@,
    {
        ItemRow { estimate_id: self.estimate_id, item: self.item.duplicate() }
    }
}

pub open spec fn headers_view(hs: Seq<HeaderRow>) -> Seq<HeaderModel> {
    hs.map_values(|h: HeaderRow| h@)
}

pub open spec fn rows_view(rs: Seq<ItemRow>) -> Seq<ItemRowModel> {
    rs.map_values(|r: ItemRow| r@)
}

/// The items of estimate `id`, in the order of their rows.
pub open spec fn items_of(rows: Seq<ItemRowModel>, id: i64) -> Seq<ItemModel>
    decreases rows.len(),
{
    if rows.len() == 0 {
        Seq::empty()
    } else {
        let rest = items_of(rows.drop_last(), id);
        if rows.last().estimate_id == id {
            rest.push(rows.last().item)
        } else {
            rest
        }
    }
}

/// The rows that do not belong to estimate `id`, in their order.
pub open spec fn without(rows: Seq<ItemRowModel>, id: i64) -> Seq<ItemRowModel>
    decreases rows.len(),
{
    if rows.len() == 0 {
        rows
    } else {
        let rest = without(rows.drop_last(), id);
        if rows.last().estimate_id == id {
            rest
        } else {
            rest.push(rows.last())
        }
    }
}

/// The rows that store `items` for estimate `id`.
pub open spec fn tagged(items: Seq<ItemModel>, id: i64) -> Seq<ItemRowModel> {
    items.map_values(|i: ItemModel| ItemRowModel { estimate_id: id, item: i })
}

/// Some header has this id.
pub open spec fn has_id(hs: Seq<HeaderModel>, id: i64) -> bool {
    exists|i: int| 0 <= i < hs.len() && #[trigger] hs[i].id == id
}

/// The position of the header with this id.
pub open spec fn index_of(hs: Seq<HeaderModel>, id: i64) -> int {
    choose|i: int| 0 <= i < hs.len() && #[trigger] hs[i].id == id
}

/// Most recently updated first.
pub open spec fn sorted_desc(hs: Seq<HeaderModel>) -> bool {
    forall|i: int, j: int|
        0 <= i < j < hs.len() ==> #[trigger] hs[i].updated_at.micros
            >= #[trigger] hs[j].updated_at.micros
}

pub open spec fn unique_ids(hs: Seq<HeaderModel>) -> bool {
    forall|i: int, j: int|
        0 <= i < hs.len() && 0 <= j < hs.len() && i != j ==> #[trigger] hs[i].id
            != #[trigger] hs[j].id
}

/// Where a header updated at `t` goes: before the first one updated no
/// later than `t`.
pub open spec fn slot(hs: Seq<HeaderModel>, t: i64) -> int
    decreases hs.len(),
{
    if hs.len() == 0 {
        0
    } else if hs[0].updated_at.micros <= t {
        0
    } else {
        1 + slot(hs.drop_first(), t)
    }
}

pub open spec fn insert_sorted(hs: Seq<HeaderModel>, h: HeaderModel) -> Seq<HeaderModel> {
    hs.insert(slot(hs, h.updated_at.micros), h)
}

/// The estimate that a header and the item rows make together.
pub open spec fn estimate_of(h: HeaderModel, rows: Seq<ItemRowModel>) -> EstimateModel {
    EstimateModel {
        id: Some(h.id),
        client_name: h.client_name,
        project_name: h.project_name,
        items: items_of(rows, h.id),
        total_amount: h.total_amount,
        created_at: Some(h.created_at),
        updated_at: Some(h.updated_at),
    }
}

pub proof fn lemma_slot_bounds(hs: Seq<HeaderModel>, t: i64)
    ensures
        0 <= slot(hs, t) <= hs.len(),
        forall|j: int| 0 <= j < slot(hs, t) ==> hs[j].updated_at.micros > t,
        slot(hs, t) < hs.len() ==> hs[slot(hs, t)].updated_at.micros <= t,
    decreases hs.len(),
{
    if hs.len() > 0 && hs[0].updated_at.micros > t {
        let d = hs.drop_first();
        lemma_slot_bounds(d, t);
        assert forall|j: int| 0 <= j < slot(hs, t) implies hs[j].updated_at.micros > t by {
            if j > 0 {
                assert(hs[j] == d[j - 1]);
            }
        }
    }
}

pub proof fn lemma_slot_is(hs: Seq<HeaderModel>, t: i64, p: int)
    requires
        0 <= p <= hs.len(),
        forall|j: int| 0 <= j < p ==> hs[j].updated_at.micros > t,
        p < hs.len() ==> hs[p].updated_at.micros <= t,
    ensures
        slot(hs, t) == p,
    decreases p,
{
    if p > 0 {
        assert(hs[0].updated_at.micros > t);
        lemma_slot_is(hs.drop_first(), t, p - 1);
    }
}

pub proof fn lemma_insert_sorted(hs: Seq<HeaderModel>, h: HeaderModel)
    requires
        sorted_desc(hs),
    ensures
        sorted_desc(insert_sorted(hs, h)),
{
    let t = h.updated_at.micros;
    lemma_slot_bounds(hs, t);
    let p = slot(hs, t);
    let r = hs.insert(p, h);
    assert forall|i: int, j: int| 0 <= i < j < r.len() implies #[trigger] r[i].updated_at.micros
        >= #[trigger] r[j].updated_at.micros by {
        if j > p {
            assert(r[j] == hs[j - 1]);
            assert(hs[p].updated_at.micros >= hs[j - 1].updated_at.micros || p == j - 1);
            if i < p {
                assert(r[i] == hs[i]);
            } else if i > p {
                assert(r[i] == hs[i - 1]);
            }
        } else if j == p {
            assert(r[i] == hs[i]);
        } else {
            assert(r[i] == hs[i] && r[j] == hs[j]);
        }
    }
}

pub proof fn lemma_has_id_insert(hs: Seq<HeaderModel>, p: int, h: HeaderModel)
    requires
        0 <= p <= hs.len(),
    ensures
        has_id(hs.insert(p, h), h.id),
        forall|x: i64| has_id(hs, x) ==> has_id(hs.insert(p, h), x),
{
    let r = hs.insert(p, h);
    assert(r[p].id == h.id);
    assert forall|x: i64| has_id(hs, x) implies has_id(r, x) by {
        let j = choose|j: int| 0 <= j < hs.len() && #[trigger] hs[j].id == x;
        if j < p {
            assert(r[j] == hs[j]);
        } else {
            assert(r[j + 1] == hs[j]);
        }
    }
}

pub proof fn lemma_has_id_remove(hs: Seq<HeaderModel>, i: int)
    requires
        0 <= i < hs.len(),
    ensures
        forall|x: i64| has_id(hs, x) && x != hs[i].id ==> has_id(hs.remove(i), x),
{
    let r = hs.remove(i);
    assert forall|x: i64| has_id(hs, x) && x != hs[i].id implies has_id(r, x) by {
        let j = choose|j: int| 0 <= j < hs.len() && #[trigger] hs[j].id == x;
        if j < i {
            assert(r[j] == hs[j]);
        } else {
            assert(r[j - 1] == hs[j]);
        }
    }
}

pub proof fn lemma_items_of_append(a: Seq<ItemRowModel>, b: Seq<ItemRowModel>, id: i64)
    ensures
        items_of(a + b, id) == items_of(a, id) + items_of(b, id),
    decreases b.len(),
{
    if b.len() == 0 {
        assert(a + b =~= a);
        assert(items_of(a, id) + items_of(b, id) =~= items_of(a, id));
    } else {
        assert((a + b).drop_last() =~= a + b.drop_last());
        lemma_items_of_append(a, b.drop_last(), id);
        if b.last().estimate_id == id {
            assert(items_of(a, id) + items_of(b, id) =~= (items_of(a, id) + items_of(
                b.drop_last(),
                id,
            )).push(b.last().item));
        }
    }
}

pub proof fn lemma_items_of_tagged(items: Seq<ItemModel>, id: i64, other: i64)
    ensures
        items_of(tagged(items, id), other) == (if other == id {
            items
        } else {
            Seq::<ItemModel>::empty()
        }),
    decreases items.len(),
{
    if items.len() > 0 {
        assert(tagged(items, id).drop_last() =~= tagged(items.drop_last(), id));
        lemma_items_of_tagged(items.drop_last(), id, other);
        if other == id {
            assert(items =~= items.drop_last().push(items.last()));
        }
    } else {
        assert(tagged(items, id).len() == 0);
        if other == id {
            assert(items =~= Seq::<ItemModel>::empty());
        }
    }
}

pub proof fn lemma_items_of_without(rows: Seq<ItemRowModel>, id: i64, other: i64)
    ensures
        items_of(without(rows, id), other) == (if other == id {
            Seq::<ItemModel>::empty()
        } else {
            items_of(rows, other)
        }),
    decreases rows.len(),
{
    if rows.len() > 0 {
        lemma_items_of_without(rows.drop_last(), id, other);
        let rest = without(rows.drop_last(), id);
        if rows.last().estimate_id != id {
            assert(rest.push(rows.last()).drop_last() =~= rest);
        }
    }
}

/// Every row kept belongs to another estimate, and to one that `hs` holds
/// when every row did.
pub proof fn lemma_without_refs(rows: Seq<ItemRowModel>, id: i64, hs: Seq<HeaderModel>)
    requires
        forall|k: int| 0 <= k < rows.len() ==> has_id(hs, #[trigger] rows[k].estimate_id),
    ensures
        forall|k: int|
            0 <= k < without(rows, id).len() ==> #[trigger] without(rows, id)[k].estimate_id != id
                && has_id(hs, without(rows, id)[k].estimate_id),
    decreases rows.len(),
{
    if rows.len() > 0 {
        let d = rows.drop_last();
        assert forall|k: int| 0 <= k < d.len() implies has_id(hs, #[trigger] d[k].estimate_id) by {
            assert(d[k] == rows[k]);
        }
        lemma_without_refs(d, id, hs);
        assert(has_id(hs, rows[rows.len() - 1].estimate_id));
        let rest = without(d, id);
        let w = without(rows, id);
        assert forall|k: int| 0 <= k < w.len() implies #[trigger] w[k].estimate_id != id
            && has_id(hs, w[k].estimate_id) by {
            if k < rest.len() {
                assert(w[k] == rest[k]);
            }
        }
    }
}

pub proof fn lemma_without_unchanged(rows: Seq<ItemRowModel>, id: i64)
    requires
        forall|k: int| 0 <= k < rows.len() ==> #[trigger] rows[k].estimate_id != id,
    ensures
        without(rows, id) == rows,
    decreases rows.len(),
{
    if rows.len() > 0 {
        lemma_without_unchanged(rows.drop_last(), id);
        assert(rows.drop_last().push(rows.last()) =~= rows);
    }
}

} // verus!
