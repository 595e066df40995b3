//! Equality of records: two records are equal where they are values of the
//! same `(address, key)`.
use crate::data_entries::{DataEntry, DeletedDataEntry, InsertableDataEntry};
use vstd::prelude::*;
use vstd::std_specs::cmp::PartialEqSpecImpl;

verus! {

impl PartialEq for DataEntry {
    fn eq(&self, other: &DataEntry) -> (r: bool) {
        self.address == other.address && self.key == other.key
    }
}

impl PartialEqSpecImpl for DataEntry {
    open spec fn obeys_eq_spec() -> bool {
        true
    }

    open spec fn eq_spec(&self, other: &DataEntry) -> bool {
        self.address@ == other.address@ && self.key@ == other.key@
    }
}

impl Eq for DataEntry {

}

impl PartialEq for InsertableDataEntry {
    fn eq(&self, other: &InsertableDataEntry) -> (r: bool) {
        self.address == other.address && self.key == other.key
    }
}

impl PartialEqSpecImpl for InsertableDataEntry {
    open spec fn obeys_eq_spec() -> bool {
        true
    }

    open spec fn eq_spec(&self, other: &InsertableDataEntry) -> bool {
        self.address@ == other.address@ && self.key@ == other.key@
    }
}

impl Eq for InsertableDataEntry {

}

impl PartialEq for DeletedDataEntry {
    fn eq(&self, other: &DeletedDataEntry) -> (r: bool) {
        self.address == other.address && self.key == other.key
    }
}

impl PartialEqSpecImpl for DeletedDataEntry {
    open spec fn obeys_eq_spec() -> bool {
        true
    }

    open spec fn eq_spec(&self, other: &DeletedDataEntry) -> bool {
        self.address@ == other.address@ && self.key@ == other.key@
    }
}

impl Eq for DeletedDataEntry {

}

/// Whether two data entries write the same `(address, key)`.
pub fn same_entity(a: &DataEntry, b: &DataEntry) -> (same: bool)
    ensures
        same == (a@.address == b@.address && a@.key == b@.key),
{
    *a == *b
}

} // verus!
