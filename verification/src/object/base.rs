//! The blob object class: an object's metadata with the name of the file it
//! holds.

use vstd::prelude::*;

use crate::object::metadata::{copy_vec, Metadata};

verus! {

/// A blob: the metadata of the object and the name of its file.
#[derive(Debug)]
pub struct Blob {
    pub filename: String,
    pub meta: Metadata,
}

/// Two blobs are equal when their file names are.
impl PartialEq for Blob {
    fn eq(&self, other: &Self) -> (res: bool) {
        self.filename == other.filename
    }
}

impl vstd::std_specs::cmp::PartialEqSpecImpl for Blob {
    open spec fn obeys_eq_spec() -> bool {
        true
    }

    open spec fn eq_spec(&self, other: &Self) -> bool {
        self.filename@ == other.filename@
    }
}

/// A copy of `m`.
pub fn copy_metadata(m: &Metadata) -> (res: Metadata)
    ensures
        res.t == m.t,
        res.h == m.h,
        res.id == m.id,
        res.size == m.size,
        res.data@ == m.data@,
        res.delta_header@ == m.delta_header@,
{
    Metadata {
        t: m.t,
        h: m.h,
        id: m.id,
        size: m.size,
        data: copy_vec(&m.data),
        delta_header: copy_vec(&m.delta_header),
    }
}

impl Blob {
    /// The blob of `metadata`, with no file name yet.
    pub fn new(metadata: Metadata) -> (res: Blob)
        ensures
            res.filename@ == Seq::<char>::empty(),
            res.meta.t == metadata.t,
            res.meta.h == metadata.h,
            res.meta.id == metadata.id,
            res.meta.size == metadata.size,
            res.meta.data@ == metadata.data@,
            res.meta.delta_header@ == metadata.delta_header@,
    {
        Blob { meta: copy_metadata(&metadata), filename: String::new() }
    }
}

} // verus!
