//! Git objects: their types, metadata, deltas and the blob class.

pub mod types;
pub mod metadata;
pub use metadata::Metadata;
pub mod delta;
pub mod loose;
pub mod diff;
pub mod base;

use vstd::prelude::*;

use crate::object::metadata::{is_new_metadata, object_hash};
use crate::object::types::{is_base_type, ObjectType};

verus! {

/// An object as it is held in memory: its type and contents.
#[derive(Clone, Debug)]
pub struct Object {
    pub object_type: ObjectType,
    pub contents: Vec<u8>,
}

impl Object {
    /// A copy of the object.
    pub fn duplicate(&self) -> (res: Object)
        ensures
            res.object_type == self.object_type,
            res.contents@ == self.contents@,
    {
        Object { object_type: self.object_type, contents: crate::object::metadata::copy_vec(&self.contents) }
    }

    /// The id of the object.
    pub fn hash(&self) -> (res: crate::hash::Hash)
        requires
            is_base_type(self.object_type),
        ensures
            res.0@ == object_hash(self.object_type, self.contents@),
    {
        crate::hash::Hash::from_meta(&self.to_metadata())
    }

    /// The metadata of the object, with its id computed.
    pub fn to_metadata(&self) -> (res: Metadata)
        requires
            is_base_type(self.object_type),
        ensures
            is_new_metadata(res, self.object_type, self.contents@),
    {
        Metadata::new(self.object_type, &self.contents)
    }
}

} // verus!
