//! Conditions that select records: a field name and the value it must have.
use vstd::prelude::*;
use crate::text::str_equals;

verus! {

/// A condition on a record: field `field_name` must read `field_value`.
pub struct FilterCondition {
    field_name: String,
    field_value: String,
}

impl View for FilterCondition {
    /// The field's name and the value required of it.
    type V = (Seq<char>, Seq<char>);

    closed spec fn view(&self) -> (Seq<char>, Seq<char>) {
        (self.field_name@, self.field_value@)
    }
}

impl FilterCondition {
    /// The condition that field `field_name` reads `field_value`.
    pub fn new(field_name: String, field_value: String) -> (r: Self)
        ensures
            r@ == (field_name@, field_value@),
    {
        FilterCondition { field_name, field_value }
    }

    /// The name of the field that the condition is on.
    pub fn field_name(&self) -> (r: &str)
        ensures
            r@ == self@.0,
    {
        self.field_name.as_str()
    }

    /// The value that the condition requires.
    pub fn field_value(&self) -> (r: &str)
        ensures
            r@ == self@.1,
    {
        self.field_value.as_str()
    }
}

/// Something that can be asked whether a named field has a value.
pub trait Matcher {
    fn match_field(&self, field_name: &str, field_value: &str) -> bool;
}

impl Matcher for FilterCondition {
    /// Whether this condition is on `field_name` and requires `field_value`.
    fn match_field(&self, field_name: &str, field_value: &str) -> (r: bool)
        ensures
            r == (self@.0 == field_name@ && self@.1 == field_value@),
    {
        str_equals(self.field_name.as_str(), field_name) && str_equals(
            self.field_value.as_str(),
            field_value,
        )
    }
}

/// The conditions that a list of alternating names and values writes:
/// condition `i` is on field `items[2i]` and requires `items[2i + 1]`; an
/// odd last item is left over.
pub fn new_filter_from_vec(items: &Vec<String>) -> (r: Box<Vec<FilterCondition>>)
    ensures
        r@.len() == items@.len() / 2,
        forall|i: int|
            0 <= i < r@.len() ==> (#[trigger] r@[i])@ == (items@[2 * i]@, items@[2 * i + 1]@),
{
    let mut conditions: Vec<FilterCondition> = Vec::new();
    let len = items.len();
    let pairs = len / 2;
    let mut i: usize = 0;
    while i < pairs
        invariant
            len == items@.len(),
            pairs == len / 2,
            i <= pairs,
            conditions@.len() == i,
            forall|j: int|
                0 <= j < i ==> (#[trigger] conditions@[j])@ == (
                    items@[2 * j]@,
                    items@[2 * j + 1]@,
                ),
        decreases pairs - i,
    {
        assert(2 * i + 1 < items@.len());
        let name = items[2 * i].clone();
        let value = items[2 * i + 1].clone();
        conditions.push(FilterCondition::new(name, value));
        i = i + 1;
    }
    Box::new(conditions)
}

} // verus!
