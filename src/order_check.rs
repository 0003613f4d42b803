use vstd::prelude::*;

use core::cmp::Ordering;

use crate::line_record::{record_le, LineRecord, RecordView};
use crate::order::Order;

verus! {

/// Checks, record by record, that a stream of records is sorted in direction `order`.
pub struct OrderCheck {
    previous: Option<LineRecord>,
    order: Order,
    sorted: bool,
}

impl OrderCheck {
    /// The records seen so far are sorted; the last one is the previous record.
    pub closed spec fn previous_spec(&self) -> Option<RecordView> {
        match &self.previous {
            Some(r) => Some(r@),
            None => None,
        }
    }

    pub closed spec fn order_spec(&self) -> Order {
        self.order
    }

    pub closed spec fn sorted_spec(&self) -> bool {
        self.sorted
    }

    /// The previous record sorts in the checked direction.
    pub open spec fn wf(&self) -> bool {
        self.previous_spec() matches Some(p) ==> p.order == self.order_spec()
    }

    /// No record seen yet, checking direction `order`.
    pub fn new(order: Order) -> (r: OrderCheck)
        ensures
            r.previous_spec() is None,
            r.order_spec() == order,
            r.wf(),
            r.sorted_spec(),
    {
        OrderCheck { previous: None, order, sorted: true }
    }

    /// Whether every record seen so far may stand before the next one.
    pub fn is_sorted(&self) -> (r: bool)
        ensures
            r == self.sorted_spec(),
    {
        self.sorted
    }

    /// Takes the next record, which sorts in the checked direction; returns whether the
    /// records seen so far are still in order.
    pub fn push(&mut self, rec: LineRecord) -> (r: bool)
        requires
            old(self).wf(),
            rec@.order == old(self).order_spec(),
        ensures
            final(self).wf(),
            final(self).order_spec() == old(self).order_spec(),
            final(self).previous_spec() == Some(rec@),
            r == final(self).sorted_spec(),
            r == (old(self).sorted_spec() && match old(self).previous_spec() {
                Some(p) => record_le(old(self).order_spec(), p, rec@),
                None => true,
            }),
    {
        let ok = match &self.previous {
            None => true,
            Some(p) => {
                let c = p.compare(&rec);
                !matches!(c, Ordering::Greater)
            },
        };
        self.sorted = self.sorted && ok;
        self.previous = Some(rec);
        self.sorted
    }
}

} // verus!
