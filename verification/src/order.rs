//! `<` and its kin for JSON values, by their structure.

use crate::model::{value_order, keys_order, members_order, KeyOrder};
use crate::repr::{FloatLiteral, Json, JsonObject, JsonValue};
use std::cmp::Ordering;
use vstd::prelude::*;
use vstd::std_specs::cmp::PartialOrdSpecImpl;

verus! {

/// The answer of std for an order of this library.
pub open spec fn answer(order: KeyOrder) -> Option<Ordering> {
    match order {
        KeyOrder::Before => Some(Ordering::Less),
        KeyOrder::Same => Some(Ordering::Equal),
        KeyOrder::After => Some(Ordering::Greater),
    }
}

/// Gives an order of this library as std's answer.
fn answer_of(order: KeyOrder) -> (r: Option<Ordering>)
    ensures
        r == answer(order),
{
    match order {
        KeyOrder::Before => Some(Ordering::Less),
        KeyOrder::Same => Some(Ordering::Equal),
        KeyOrder::After => Some(Ordering::Greater),
    }
}

impl<'a> PartialOrd for FloatLiteral<'a> {
    fn partial_cmp(&self, other: &Self) -> (r: Option<Ordering>) {
        answer_of(self.compare(other))
    }
}

impl<'a> PartialOrdSpecImpl for FloatLiteral<'a> {
    open spec fn obeys_partial_cmp_spec() -> bool {
        true
    }

    open spec fn partial_cmp_spec(&self, other: &Self) -> Option<Ordering> {
        answer(keys_order(self@, other@))
    }
}

impl<'a> PartialOrd for JsonObject<'a> {
    fn partial_cmp(&self, other: &Self) -> (r: Option<Ordering>) {
        answer_of(self.compare(other))
    }
}

impl<'a> PartialOrdSpecImpl for JsonObject<'a> {
    open spec fn obeys_partial_cmp_spec() -> bool {
        true
    }

    open spec fn partial_cmp_spec(&self, other: &Self) -> Option<Ordering> {
        answer(members_order(self.members(), other.members(), 0))
    }
}

impl<'a> PartialOrd for JsonValue<'a> {
    fn partial_cmp(&self, other: &Self) -> (r: Option<Ordering>) {
        answer_of(self.compare(other))
    }
}

impl<'a> PartialOrdSpecImpl for JsonValue<'a> {
    open spec fn obeys_partial_cmp_spec() -> bool {
        true
    }

    open spec fn partial_cmp_spec(&self, other: &Self) -> Option<Ordering> {
        answer(value_order(self@, other@))
    }
}

impl<'a> PartialOrd for Json<'a> {
    fn partial_cmp(&self, other: &Self) -> (r: Option<Ordering>) {
        answer_of(self.compare(other))
    }
}

impl<'a> PartialOrdSpecImpl for Json<'a> {
    open spec fn obeys_partial_cmp_spec() -> bool {
        true
    }

    open spec fn partial_cmp_spec(&self, other: &Self) -> Option<Ordering> {
        answer(value_order(self@, other@))
    }
}

} // verus!
