//! The value object stored by the engine: a key, an opaque value string and
//! a caller-supplied logical timestamp.  The timestamp alone determines
//! ordering between writes to the same key.

use vstd::prelude::*;

use crate::error::Result;

verus! {

/// Mathematical image of a [`Record`]: the key and value as character
/// sequences together with the timestamp.
pub ghost struct RecordView {
    pub key: Seq<char>,
    pub value: Seq<char>,
    pub timestamp: u128,
}

/// One immutable record.  "Updating" a key means inserting a new record for
/// it with a newer timestamp; records themselves are never mutated.
#[derive(Debug, Clone)]
pub struct Record {
    pub key: String,
    pub value: String,
    pub timestamp: u128,
}

impl View for Record {
    type V = RecordView;

    open spec fn view(&self) -> RecordView {
        RecordView { key: self.key@, value: self.value@, timestamp: self.timestamp }
    }
}

impl Record {
    /// Copies a record field by field.
    pub fn duplicate(&self) -> (r: Record)
        ensures
            r@ == self@,
    {
        Record { key: self.key.clone(), value: self.value.clone(), timestamp: self.timestamp }
    }
}

/// The store's basic interface: point lookup and durable upsert.
pub trait Operations {
    fn get(key: String) -> Result<Option<String>>;

    fn set(&mut self, key: String, value: String) -> Result<()>;
}

} // verus!
