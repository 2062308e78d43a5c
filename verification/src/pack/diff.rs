//! A record of the runs that a diff of two byte strings reports: copies of
//! shared bytes and inserts of new ones, located in the new data.

use vstd::prelude::*;

verus! {

/// The kind of a recorded run.
#[derive(Debug, Clone, Copy, PartialEq, Eq, Structural)]
pub enum Optype {
    /// Bytes that only the new data holds.
    DATA,
    /// Bytes that both hold.
    COPY,
}

/// A recorded run: its kind, where it begins in the new data and its length.
#[derive(Debug, Clone, Copy)]
pub struct DeltaOp {
    pub ins: Optype,
    pub begin: usize,
    pub len: usize,
}

/// The runs of a diff, the lengths of the two data, and the number of bytes
/// found shared.
#[derive(Debug)]
pub struct DeltaDiff {
    pub ops: Vec<DeltaOp>,
    pub old_len: usize,
    pub new_len: usize,
    pub ssam: usize,
    pub ops_code: Vec<u8>,
}

impl DeltaDiff {
    /// An empty record for data of `old_len` and `new_len` bytes.
    pub fn new(old_len: usize, new_len: usize) -> (res: DeltaDiff)
        ensures
            res.ops@ == Seq::<DeltaOp>::empty(),
            res.old_len == old_len,
            res.new_len == new_len,
            res.ssam == 0,
            res.ops_code@ == Seq::<u8>::empty(),
    {
        DeltaDiff { ops: Vec::new(), old_len, new_len, ssam: 0, ops_code: Vec::new() }
    }

    /// Records `len` shared bytes that begin at `new_at` in the new data.
    pub fn equal(&mut self, old_at: usize, new_at: usize, len: usize) -> (res: Result<(), ()>)
        requires
            old(self).ssam + len <= usize::MAX,
        ensures
            res is Ok,
            final(self).ssam == old(self).ssam + len,
            final(self).ops@ == old(self).ops@.push(DeltaOp { ins: Optype::COPY, begin: new_at, len }),
            final(self).old_len == old(self).old_len,
            final(self).new_len == old(self).new_len,
            final(self).ops_code@ == old(self).ops_code@,
    {
        self.ssam = self.ssam + len;
        self.ops.push(DeltaOp { ins: Optype::COPY, begin: new_at, len });
        Ok(())
    }

    /// Records `len` new bytes that begin at `new_at` in the new data.
    pub fn insert(&mut self, old_at: usize, new_at: usize, len: usize) -> (res: Result<(), ()>)
        ensures
            res is Ok,
            final(self).ssam == old(self).ssam,
            final(self).ops@ == old(self).ops@.push(DeltaOp { ins: Optype::DATA, begin: new_at, len }),
            final(self).old_len == old(self).old_len,
            final(self).new_len == old(self).new_len,
            final(self).ops_code@ == old(self).ops_code@,
    {
        self.ops.push(DeltaOp { ins: Optype::DATA, begin: new_at, len });
        Ok(())
    }
}

impl DeltaOp {
    /// The delta instruction bytes of the run. No encoding is written yet:
    /// the result is always empty.
    pub fn conver_to_delta(&self) -> (res: Vec<u8>)
        ensures
            res@ == Seq::<u8>::empty(),
    {
        Vec::new()
    }
}

} // verus!
