use vstd::prelude::*;

verus! {

/// A decimal quantity carried unchanged as its IEEE-754 binary64 bit pattern.
/// The store never does arithmetic on it.
#[derive(Clone, Copy, Debug, PartialEq, Eq, Structural)]
pub struct Decimal {
    pub bits: u64,
}

/// A point in time, in microseconds since the Unix epoch (UTC).
#[derive(Clone, Copy, Debug, PartialEq, Eq, Structural)]
pub struct Timestamp {
    pub micros: i64,
}

/// One line of an estimate.
#[derive(Debug)]
pub struct EstimateItem {
    pub description: String,
    pub quantity: Decimal,
    pub unit_price: Decimal,
    pub amount: Decimal,
}

/// The mathematical value of a line item.
pub ghost struct ItemModel {
    pub description: Seq<char>,
    pub quantity: Decimal,
    pub unit_price: Decimal,
    pub amount: Decimal,
}

impl View for EstimateItem {
    type V = ItemModel;

    open spec fn view(&self) -> ItemModel {
        ItemModel {
            description: self.description@,
            quantity: self.quantity,
            unit_price: self.unit_price,
            amount: self.amount,
        }
    }
}

impl EstimateItem {
    pub fn new(description: String, quantity: Decimal, unit_price: Decimal, amount: Decimal) -> (r:
        Self)
        ensures
            r@ == (ItemModel { description: description@, quantity, unit_price, amount }),
    {
        EstimateItem { description, quantity, unit_price, amount }
    }

    /// A copy with the same value.
    pub fn duplicate(&self) -> (r: Self)
        ensures
            r@ == self@,
    {
        EstimateItem {
            description: self.description.clone(),
            quantity: self.quantity,
            unit_price: self.unit_price,
            amount: self.amount,
        }
    }
}

/// The views of a sequence of items, in order.
pub open spec fn items_view(items: Seq<EstimateItem>) -> Seq<ItemModel> {
    items.map_values(|i: EstimateItem| i@)
}

/// The view of a sequence grows by one item when the sequence does.
pub proof fn lemma_items_view_push(s: Seq<EstimateItem>, x: EstimateItem)
    ensures
        items_view(s.push(x)) == items_view(s).push(x@),
{
    assert(items_view(s.push(x)) =~= items_view(s).push(x@));
}

/// An estimate: a header and its line items. `id` is absent until the
/// estimate is first stored; the two timestamps are set by the store.
#[derive(Debug)]
pub struct Estimate {
    pub id: Option<i64>,
    pub client_name: String,
    pub project_name: String,
    pub items: Vec<EstimateItem>,
    pub total_amount: Decimal,
    pub created_at: Option<Timestamp>,
    pub updated_at: Option<Timestamp>,
}

/// The mathematical value of an estimate.
pub ghost struct EstimateModel {
    pub id: Option<i64>,
    pub client_name: Seq<char>,
    pub project_name: Seq<char>,
    pub items: Seq<ItemModel>,
    pub total_amount: Decimal,
    pub created_at: Option<Timestamp>,
    pub updated_at: Option<Timestamp>,
}

impl View for Estimate {
    type V = EstimateModel;

    open spec fn view(&self) -> EstimateModel {
        EstimateModel {
            id: self.id,
            client_name: self.client_name@,
            project_name: self.project_name@,
            items: items_view(self.items@),
            total_amount: self.total_amount,
            created_at: self.created_at,
            updated_at: self.updated_at,
        }
    }
}

impl Estimate {
    /// A new estimate that has not been stored yet: no id, no timestamps.
    pub fn new(
        client_name: String,
        project_name: String,
        items: Vec<EstimateItem>,
        total_amount: Decimal,
    ) -> (r: Self)
        ensures
            r@ == (EstimateModel {
                id: None,
                client_name: client_name@,
                project_name: project_name@,
                items: items_view(items@),
                total_amount,
                created_at: None,
                updated_at: None,
            }),
    {
        Estimate {
            id: None,
            client_name,
            project_name,
            items,
            total_amount,
            created_at: None,
            updated_at: None,
        }
    }
}

} // verus!
