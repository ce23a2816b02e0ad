//! The indexed record: a key string together with the byte range of the
//! source line it refers to.

use vstd::prelude::*;

verus! {

/// One record of the index: the key `value` (the first field of a line) and
/// the `position` `(offset, length)` of that line in the source file, in
/// bytes. Immutable once created.
#[derive(Debug)]
pub struct Key {
    pub value: String,
    pub position: (u64, u64),
}

impl Key {
    pub fn create(value: &str, position: (u64, u64)) -> (key: Key)
        ensures
            key.value@ == value@,
            key.position == position,
    {
        Key { value: value.to_owned(), position }
    }
}

impl Clone for Key {
    fn clone(&self) -> (other: Key)
        ensures
            other == *self,
    {
        Key { value: self.value.clone(), position: self.position }
    }
}

} // verus!
