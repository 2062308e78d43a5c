//! Building the delta of one object against another from the operations of
//! a diff: copies from the old data and inserts of new data.

use vstd::prelude::*;

use crate::object::delta::{apply_instructions, delta_step, DeltaFault, DeltaStep};
use crate::object::Metadata;
use crate::text::{copy_range, push_all};
use crate::object::delta::delta_header_ok;
use crate::utils::{
    base128_encode, le_base128, lemma_size_encoding_roundtrip, partial_read, varint_len,
    write_size_encoding,
};

verus! {

/// The largest number of bytes that one insert instruction carries.
pub const DATA_INS_LEN: usize = 0x7f;

/// The two kinds of delta operation.
#[derive(Debug, Clone, Copy, PartialEq, Eq, Structural)]
pub enum Optype {
    /// Insert bytes of the new data.
    DATA,
    /// Copy bytes of the old data.
    COPY,
}

/// One operation: its kind, where its bytes begin (in the new data for an
/// insert, in the old data for a copy) and how many there are.
#[derive(Debug, Clone, Copy)]
pub struct DeltaOp {
    pub ins: Optype,
    pub begin: usize,
    pub len: usize,
}

/// The operations of a delta between two objects, and the number of bytes
/// that the diff found equal.
#[derive(Debug)]
pub struct DeltaDiff {
    pub ops: Vec<DeltaOp>,
    pub old_data: Metadata,
    pub new_data: Metadata,
    pub ssam: usize,
}

/// The presence mask and the bytes written for the low `count` bytes of `v`:
/// byte `i` is written, and bit `i` set, when it is not zero.
pub open spec fn copy_fields(v: u64, count: nat) -> (u8, Seq<u8>)
    decreases count,
{
    if count == 0 {
        (0, seq![])
    } else {
        let prev = copy_fields(v, (count - 1) as nat);
        let byte = ((v >> ((8 * (count - 1)) as u64)) & 0xff) as u8;
        if byte != 0 {
            ((prev.0 | (1u8 << ((count - 1) as u8))) as u8, prev.1.push(byte))
        } else {
            prev
        }
    }
}

/// The instruction bytes of one operation.
pub open spec fn op_bytes(op: DeltaOp, new: Seq<u8>) -> Seq<u8> {
    match op.ins {
        Optype::DATA => seq![(op.len & 0x7f) as u8] + new.subrange(
            op.begin as int,
            op.begin + op.len,
        ),
        Optype::COPY => {
            let o = copy_fields(op.begin as u64, 4);
            let s = copy_fields(op.len as u64, 3);
            seq![(0x80u8 | o.0 | (s.0 << 4u8)) as u8] + o.1 + s.1
        },
    }
}

/// The instruction bytes of a sequence of operations.
pub open spec fn ops_bytes(ops: Seq<DeltaOp>, new: Seq<u8>) -> Seq<u8>
    decreases ops.len(),
{
    if ops.len() == 0 {
        seq![]
    } else {
        op_bytes(ops[0], new) + ops_bytes(ops.drop_first(), new)
    }
}

/// The bytes an operation stands for.
pub open spec fn op_output(op: DeltaOp, old: Seq<u8>, new: Seq<u8>) -> Seq<u8> {
    match op.ins {
        Optype::DATA => new.subrange(op.begin as int, op.begin + op.len),
        Optype::COPY => old.subrange(op.begin as int, op.begin + op.len),
    }
}

/// The bytes a sequence of operations stands for.
pub open spec fn ops_output(ops: Seq<DeltaOp>, old: Seq<u8>, new: Seq<u8>) -> Seq<u8>
    decreases ops.len(),
{
    if ops.len() == 0 {
        seq![]
    } else {
        op_output(ops[0], old, new) + ops_output(ops.drop_first(), old, new)
    }
}

/// An operation that the delta format can carry: an insert of 1 to 127
/// bytes within the new data, or a copy of 1 to 2^24 - 1 bytes within the
/// old data from an offset below 2^32.
pub open spec fn op_valid(op: DeltaOp, old_len: nat, new_len: nat) -> bool {
    match op.ins {
        Optype::DATA => 1 <= op.len <= 0x7f && op.begin + op.len <= new_len,
        Optype::COPY => 1 <= op.len < 0x100_0000 && op.begin < 0x1_0000_0000 && op.begin + op.len
            <= old_len,
    }
}

/// Appending an operation appends its bytes.
pub proof fn lemma_ops_bytes_push(ops: Seq<DeltaOp>, op: DeltaOp, new: Seq<u8>)
    ensures
        ops_bytes(ops.push(op), new) == ops_bytes(ops, new) + op_bytes(op, new),
    decreases ops.len(),
{
    if ops.len() == 0 {
        assert(ops.push(op).drop_first() =~= Seq::<DeltaOp>::empty());
        assert(ops.push(op)[0] == op);
        assert(ops_bytes(Seq::<DeltaOp>::empty(), new) == Seq::<u8>::empty());
        assert(ops_bytes(ops.push(op), new) =~= op_bytes(op, new) + Seq::<u8>::empty());
        assert(ops_bytes(ops, new) + op_bytes(op, new) =~= op_bytes(op, new));
    } else {
        assert(ops.push(op).drop_first() =~= ops.drop_first().push(op));
        lemma_ops_bytes_push(ops.drop_first(), op, new);
        assert(ops_bytes(ops.push(op), new) =~= ops_bytes(ops, new) + op_bytes(op, new));
    }
}

impl DeltaDiff {
    /// The instruction bytes of one operation: an insert is its length and
    /// the inserted bytes of the new data; a copy is a flag byte that marks
    /// which offset and size bytes follow, then the nonzero bytes of the
    /// offset and of the size, least significant first.
    pub fn decode_op(&self, op: &DeltaOp) -> (res: Vec<u8>)
        requires
            op.ins == Optype::DATA ==> op.begin + op.len <= self.new_data.data@.len(),
        ensures
            res@ == op_bytes(*op, self.new_data.data@),
    {
        let mut op_data: Vec<u8> = Vec::new();
        match op.ins {
            Optype::DATA => {
                assert(op.ins == Optype::DATA);
                let data_len = self.new_data.data.len();
                assert(op.begin + op.len <= data_len);
                let instruct = (op.len & 0x7f) as u8;
                op_data.push(instruct);
                let part = copy_range(self.new_data.data.as_slice(), op.begin, op.begin + op.len);
                push_all(&mut op_data, part.as_slice());
            },
            Optype::COPY => {
                let mut instruct: u8 = 0x80;
                let mut offset = op.begin as u64;
                let mut size = op.len as u64;
                let mut copy_data: Vec<u8> = Vec::new();
                let ghost ov = op.begin as u64;
                let ghost sv = op.len as u64;
                let mut i: u8 = 0;
                assert(ov >> 0u64 == ov && (0x80u8 | 0u8) as u8 == 0x80u8) by (bit_vector);
                while i < 4
                    invariant
                        i <= 4,
                        offset == ov >> ((8 * i) as u64),
                        instruct == (0x80u8 | copy_fields(ov, i as nat).0) as u8,
                        copy_data@ == copy_fields(ov, i as nat).1,
                        copy_fields(ov, i as nat).0 < 16,
                    decreases 4 - i,
                {
                    let bit = (offset & 0xff) as u8;
                    let ghost m = copy_fields(ov, i as nat).0;
                    if bit != 0 {
                        instruct = instruct | (1u8 << i);
                        copy_data.push(bit);
                        assert((0x80u8 | m) | (1u8 << i) == 0x80u8 | (m | (1u8 << i)) && (m | (1u8
                            << i)) < 16) by (bit_vector)
                            requires
                                i < 4,
                                m < 16,
                        ;
                    }
                    let ghost ii = i;
                    offset = offset >> 8;
                    assert((ov >> ((8 * ii) as u64)) >> 8u64 == ov >> ((8 * (ii + 1)) as u64)) by (
                    bit_vector)
                        requires
                            ii < 4,
                    ;
                    i = i + 1;
                }
                let ghost mo = copy_fields(ov, 4).0;
                let ghost bo = copy_fields(ov, 4).1;
                let mut j: u8 = 0;
                assert(sv >> 0u64 == sv && (0x80u8 | mo | (0u8 << 4u8)) as u8 == (0x80u8 | mo) as u8) by (
                bit_vector)
                    requires
                        mo < 16,
                ;
                while j < 3
                    invariant
                        j <= 3,
                        mo < 16,
                        size == sv >> ((8 * j) as u64),
                        instruct == (0x80u8 | mo | (copy_fields(sv, j as nat).0 << 4u8)) as u8,
                        copy_data@ == bo + copy_fields(sv, j as nat).1,
                        copy_fields(sv, j as nat).0 < 8,
                    decreases 3 - j,
                {
                    let bit = (size & 0xff) as u8;
                    let ghost m = copy_fields(sv, j as nat).0;
                    if bit != 0 {
                        instruct = instruct | (1u8 << (j + 4));
                        copy_data.push(bit);
                        assert((0x80u8 | mo | (m << 4u8)) | (1u8 << (j + 4)) == 0x80u8 | mo | ((m | (1u8
                            << j)) << 4u8) && (m | (1u8 << j)) < 8) by (bit_vector)
                            requires
                                j < 3,
                                m < 8,
                        ;
                    }
                    let ghost jj = j;
                    size = size >> 8;
                    assert((sv >> ((8 * jj) as u64)) >> 8u64 == sv >> ((8 * (jj + 1)) as u64)) by (
                    bit_vector)
                        requires
                            jj < 3,
                    ;
                    j = j + 1;
                }
                op_data.push(instruct);
                push_all(&mut op_data, copy_data.as_slice());
            },
        }
        assert(op_data@ =~= op_bytes(*op, self.new_data.data@));
        op_data
    }

    /// The delta: the size of the old object and of the new one as size
    /// encodings, then the instructions of the operations.
    pub fn get_delta_metadata(&self) -> (res: Vec<u8>)
        requires
            forall|i: int|
                0 <= i < self.ops@.len() ==> (#[trigger] self.ops@[i]).ins == Optype::DATA ==> self.ops@[i].begin
                    + self.ops@[i].len <= self.new_data.data@.len(),
        ensures
            res@ == base128_encode(self.old_data.size as u64) + base128_encode(
                self.new_data.size as u64,
            ) + ops_bytes(self.ops@, self.new_data.data@),
    {
        let mut result: Vec<u8> = Vec::new();
        let a = write_size_encoding(self.old_data.size as u64);
        push_all(&mut result, a.as_slice());
        let b = write_size_encoding(self.new_data.size as u64);
        push_all(&mut result, b.as_slice());
        let ghost head = result@;
        let mut i: usize = 0;
        while i < self.ops.len()
            invariant
                i <= self.ops@.len(),
                forall|k: int|
                    0 <= k < self.ops@.len() ==> (#[trigger] self.ops@[k]).ins == Optype::DATA
                        ==> self.ops@[k].begin + self.ops@[k].len <= self.new_data.data@.len(),
                result@ == head + ops_bytes(self.ops@.subrange(0, i as int), self.new_data.data@),
            decreases self.ops@.len() - i,
        {
            let op = &self.ops[i];
            let bytes = self.decode_op(op);
            push_all(&mut result, bytes.as_slice());
            proof {
                let pre = self.ops@.subrange(0, i as int);
                assert(self.ops@.subrange(0, i + 1) =~= pre.push(*op));
                lemma_ops_bytes_push(pre, *op, self.new_data.data@);
                assert(result@ =~= head + ops_bytes(self.ops@.subrange(0, i + 1), self.new_data.data@));
            }
            i = i + 1;
        }
        assert(self.ops@.subrange(0, i as int) =~= self.ops@);
        result
    }

    /// A delta of `new_data` against `old_data` with no operation recorded
    /// yet: a diff of the two data then records its runs through `equal` and
    /// `insert`.
    pub fn start(old_data: Metadata, new_data: Metadata) -> (res: DeltaDiff)
        ensures
            res.ops@ == Seq::<DeltaOp>::empty(),
            res.old_data == old_data,
            res.new_data == new_data,
            res.ssam == 0,
    {
        DeltaDiff { ops: Vec::new(), old_data, new_data, ssam: 0 }
    }

    /// Records a run of `len` bytes that the old and new data share, starting
    /// at `old_at` in the old data: it extends the last operation when that is a
    /// copy ending at `old_at`, and is a new copy otherwise.
    pub fn equal(&mut self, old_at: usize, new_at: usize, len: usize) -> (res: Result<(), ()>)
        requires
            old(self).ssam + len <= usize::MAX,
            old(self).ops@.len() > 0 && old(self).ops@.last().ins == Optype::COPY
                && old(self).ops@.last().begin + old(self).ops@.last().len == old_at
                ==> old(self).ops@.last().len + len <= usize::MAX,
        ensures
            res is Ok,
            final(self).ssam == old(self).ssam + len,
            final(self).old_data == old(self).old_data,
            final(self).new_data == old(self).new_data,
            ({
                let ops = old(self).ops@;
                if ops.len() > 0 && ops.last().ins == Optype::COPY && ops.last().begin
                    + ops.last().len == old_at {
                    final(self).ops@ == ops.drop_last().push(
                        DeltaOp { ins: Optype::COPY, begin: ops.last().begin, len: (ops.last().len + len) as usize },
                    )
                } else {
                    final(self).ops@ == ops.push(DeltaOp { ins: Optype::COPY, begin: old_at, len })
                }
            }),
    {
        self.ssam = self.ssam + len;
        let n = self.ops.len();
        if n > 0 {
            let tail = self.ops[n - 1];
            if tail.ins == Optype::COPY && tail.begin as u128 + tail.len as u128 == old_at as u128 {
                let merged = DeltaOp { ins: Optype::COPY, begin: tail.begin, len: tail.len + len };
                let _ = self.ops.pop();
                self.ops.push(merged);
                return Ok(());
            }
        }
        self.ops.push(DeltaOp { ins: Optype::COPY, begin: old_at, len });
        Ok(())
    }

    /// Records `len` bytes of the new data, starting at `new_at`, that the old
    /// data lacks: a run longer than 127 bytes becomes inserts of 127 bytes
    /// and one of the rest; a shorter run extends the last operation when that
    /// is an insert ending at `new_at` that stays below 127 bytes, and is a new
    /// insert otherwise.
    pub fn insert(&mut self, old_at: usize, new_at: usize, len: usize) -> (res: Result<(), ()>)
        requires
            new_at + len <= usize::MAX,
        ensures
            res is Ok,
            final(self).ssam == old(self).ssam,
            final(self).old_data == old(self).old_data,
            final(self).new_data == old(self).new_data,
            ({
                let ops = old(self).ops@;
                if len > 0x7f {
                    final(self).ops@ == ops + insert_chunks(new_at as nat, len as nat)
                } else if ops.len() > 0 && ops.last().ins == Optype::DATA && ops.last().begin
                    + ops.last().len == new_at && ops.last().len + len < 0x7f {
                    final(self).ops@ == ops.drop_last().push(
                        DeltaOp { ins: Optype::DATA, begin: ops.last().begin, len: (ops.last().len + len) as usize },
                    )
                } else {
                    final(self).ops@ == ops.push(DeltaOp { ins: Optype::DATA, begin: new_at, len })
                }
            }),
    {
        let mut len_left = len;
        let mut at = new_at;
        if len > DATA_INS_LEN {
            let ghost start_ops = self.ops@;
            while len_left > DATA_INS_LEN
                invariant
                    at + len_left == new_at + len,
                    new_at + len <= usize::MAX,
                    at >= new_at,
                    len_left >= 1,
                    len > 0x7f,
                    self.ssam == old(self).ssam,
                    self.old_data == old(self).old_data,
                    self.new_data == old(self).new_data,
                    start_ops == old(self).ops@,
                    start_ops + insert_chunks(new_at as nat, len as nat) == self.ops@ + insert_chunks(
                        at as nat,
                        len_left as nat,
                    ),
                decreases len_left,
            {
                let ghost prev = self.ops@;
                self.ops.push(DeltaOp { ins: Optype::DATA, begin: at, len: DATA_INS_LEN });
                proof {
                    let op = DeltaOp { ins: Optype::DATA, begin: at, len: 0x7f };
                    assert(insert_chunks(at as nat, len_left as nat) == seq![op] + insert_chunks(
                        (at + 0x7f) as nat,
                        (len_left - 0x7f) as nat,
                    ));
                    assert(prev + (seq![op] + insert_chunks((at + 0x7f) as nat, (len_left - 0x7f) as nat))
                        =~= self.ops@ + insert_chunks((at + 0x7f) as nat, (len_left - 0x7f) as nat));
                }
                len_left = len_left - DATA_INS_LEN;
                at = at + DATA_INS_LEN;
            }
            let ghost prev = self.ops@;
            self.ops.push(DeltaOp { ins: Optype::DATA, begin: at, len: len_left });
            proof {
                assert(insert_chunks(at as nat, len_left as nat) =~= seq![
                    DeltaOp { ins: Optype::DATA, begin: at, len: len_left },
                ]);
                assert(prev + insert_chunks(at as nat, len_left as nat) =~= self.ops@);
            }
            assert(self.ops@ =~= old(self).ops@ + insert_chunks(new_at as nat, len as nat));
            return Ok(());
        }
        let n = self.ops.len();
        if n > 0 {
            let tail = self.ops[n - 1];
            if tail.ins == Optype::DATA && tail.begin as u128 + tail.len as u128 == new_at as u128
                && tail.len as u128 + len as u128 <= 0x7e {
                let merged = DeltaOp { ins: Optype::DATA, begin: tail.begin, len: tail.len + len };
                let _ = self.ops.pop();
                self.ops.push(merged);
                return Ok(());
            }
        }
        self.ops.push(DeltaOp { ins: Optype::DATA, begin: new_at, len });
        Ok(())
    }
}

/// The inserts that a run of `len` new bytes at `at` becomes when it is
/// longer than 127 bytes: runs of 127 bytes, then the rest.
pub open spec fn insert_chunks(at: nat, len: nat) -> Seq<DeltaOp>
    decreases len,
{
    if len > 0x7f {
        seq![DeltaOp { ins: Optype::DATA, begin: at as usize, len: 0x7f }] + insert_chunks(
            at + 0x7f,
            (len - 0x7f) as nat,
        )
    } else {
        seq![DeltaOp { ins: Optype::DATA, begin: at as usize, len: len as usize }]
    }
}

/// A run of new data split into inserts is covered exactly: the inserts
/// stand for the bytes of the run, in order, and each one of a run that is
/// not empty is an insert the delta format can carry.
pub proof fn lemma_insert_chunks_cover(at: nat, len: nat, old: Seq<u8>, new: Seq<u8>)
    requires
        at + len <= new.len(),
        new.len() <= usize::MAX,
    ensures
        ops_output(insert_chunks(at, len), old, new) == new.subrange(at as int, (at + len) as int),
        len > 0 ==> forall|i: int|
            0 <= i < insert_chunks(at, len).len() ==> op_valid(
                #[trigger] insert_chunks(at, len)[i],
                old.len(),
                new.len(),
            ),
    decreases len,
{
    let ops = insert_chunks(at, len);
    if len > 0x7f {
        let rest = insert_chunks(at + 0x7f, (len - 0x7f) as nat);
        lemma_insert_chunks_cover(at + 0x7f, (len - 0x7f) as nat, old, new);
        assert(ops.drop_first() =~= rest);
        assert(ops[0] == DeltaOp { ins: Optype::DATA, begin: at as usize, len: 0x7f });
        assert(ops[0].begin == at && ops[0].len == 0x7f);
        assert(op_output(ops[0], old, new) == new.subrange(at as int, (at + 0x7f) as int));
        assert(ops_output(ops, old, new) == op_output(ops[0], old, new) + ops_output(rest, old, new));
        assert(new.subrange(at as int, (at + len) as int) =~= new.subrange(at as int, (at + 0x7f) as int)
            + new.subrange((at + 0x7f) as int, (at + len) as int));
        assert forall|i: int| 0 <= i < ops.len() implies op_valid(
            #[trigger] ops[i],
            old.len(),
            new.len(),
        ) by {
            if i > 0 {
                assert(ops[i] == rest[i - 1]);
            }
        }
    } else {
        assert(ops.drop_first() =~= Seq::<DeltaOp>::empty());
        assert(ops[0].begin == at && ops[0].len == len);
        assert(ops_output(ops, old, new) == op_output(ops[0], old, new) + ops_output(
            Seq::<DeltaOp>::empty(),
            old,
            new,
        ));
        assert(new.subrange(at as int, (at + len) as int) + Seq::<u8>::empty() =~= new.subrange(
            at as int,
            (at + len) as int,
        ));
    }
}

} // verus!

verus! {

/// The low `n` bytes of `v`.
pub open spec fn low_bytes(v: u64, n: nat) -> u64 {
    v & (((1u64 << ((8 * n) as u64)) - 1) as u64)
}

proof fn lemma_copy_fields_mask(v: u64, count: nat)
    requires
        count <= 4,
    ensures
        copy_fields(v, count).0 < (1u8 << (count as u8)),
    decreases count,
{
    if count == 0 {
        assert(0u8 < (1u8 << 0u8)) by (bit_vector);
    } else {
        lemma_copy_fields_mask(v, (count - 1) as nat);
        let c = (count - 1) as u8;
        let q = copy_fields(v, (count - 1) as nat).0;
        assert(q < (1u8 << c) ==> (q | (1u8 << c)) < (1u8 << ((c + 1) as u8)) && q < (1u8 << ((
        c + 1) as u8))) by (bit_vector)
            requires
                c < 4,
        ;
    }
}

proof fn lemma_copy_fields_len(v: u64, count: nat)
    ensures
        copy_fields(v, count).1.len() <= count,
    decreases count,
{
    if count > 0 {
        lemma_copy_fields_len(v, (count - 1) as nat);
    }
}

/// Reading back the fields that `copy_fields` writes gives the low bytes of
/// the value, when the presence bits agree with the mask it wrote.
proof fn lemma_copy_fields_read(v: u64, count: nat, present: u8, d: Seq<u8>)
    requires
        count <= 4,
        present & (((1u8 << (count as u8)) - 1) as u8) == copy_fields(v, count).0,
        copy_fields(v, count).1.len() <= d.len(),
        d.take(copy_fields(v, count).1.len() as int) == copy_fields(v, count).1,
    ensures
        partial_read(present, count, d) == (low_bytes(v, count), copy_fields(v, count).1.len()),
    decreases count,
{
    if count == 0 {
        assert(v & (((1u64 << 0u64) - 1) as u64) == 0) by (bit_vector);
    } else {
        let c = (count - 1) as u8;
        let cn = (count - 1) as nat;
        let prevf = copy_fields(v, cn);
        lemma_copy_fields_mask(v, cn);
        let q = prevf.0;
        let byte = ((v >> ((8 * cn) as u64)) & 0xff) as u8;
        assert(c as nat == cn);
        if byte != 0 {
            assert(present & (((1u8 << ((c + 1) as u8)) - 1) as u8) == (q | (1u8 << c)) as u8 && q < (1u8
                << c) ==> present & (((1u8 << c) - 1) as u8) == q && (present >> c) & 1 == 1)
                by (bit_vector)
                requires
                    c < 4,
            ;
            assert(prevf.1.push(byte) == copy_fields(v, count).1);
            assert(d.take(prevf.1.len() as int) =~= prevf.1) by {
                assert(d.take(prevf.1.len() as int) =~= copy_fields(v, count).1.take(
                    prevf.1.len() as int,
                ));
            }
            lemma_copy_fields_read(v, cn, present, d);
            assert(d[prevf.1.len() as int] == byte) by {
                assert(copy_fields(v, count).1[prevf.1.len() as int] == byte);
                assert(d.take(copy_fields(v, count).1.len() as int)[prevf.1.len() as int] == byte);
            }
            assert((v & (((1u64 << ((8 * c) as u64)) - 1) as u64)) | ((((v >> ((8 * c) as u64)) & 0xff) as u8
                as u64) << ((8 * c) as u64)) == v & (((1u64 << ((8 * (c + 1)) as u64)) - 1) as u64))
                by (bit_vector)
                requires
                    c < 4,
            ;
        } else {
            assert(present & (((1u8 << ((c + 1) as u8)) - 1) as u8) == q && q < (1u8 << c) ==> present
                & (((1u8 << c) - 1) as u8) == q && (present >> c) & 1 == 0) by (bit_vector)
                requires
                    c < 4,
            ;
            lemma_copy_fields_read(v, cn, present, d);
            assert(((v >> ((8 * c) as u64)) & 0xff) as u8 == 0 ==> v & (((1u64 << ((8 * c) as u64))
                - 1) as u64) == v & (((1u64 << ((8 * (c + 1)) as u64)) - 1) as u64)) by (bit_vector)
                requires
                    c < 4,
            ;
        }
    }
}

} // verus!

verus! {

/// The instruction of one valid operation, followed by anything, is read
/// back as that operation: it builds the operation's bytes and takes its own
/// length.
proof fn lemma_op_step(op: DeltaOp, old: Seq<u8>, new: Seq<u8>, tail: Seq<u8>)
    requires
        op_valid(op, old.len(), new.len()),
    ensures
        delta_step(old, op_bytes(op, new) + tail) == DeltaStep::Emit(
            op_output(op, old, new),
            op_bytes(op, new).len(),
        ),
        op_bytes(op, new).len() > 0,
{
    let all = op_bytes(op, new) + tail;
    match op.ins {
        Optype::DATA => {
            let l = op.len;
            assert((l & 0x7f) as u8 == l as u8 && (l as u8) < 0x80 && l as u8 != 0) by (bit_vector)
                requires
                    1 <= l <= 0x7f,
            ;
            assert(all.drop_first().take(op.len as int) =~= new.subrange(
                op.begin as int,
                op.begin + op.len,
            ));
        },
        Optype::COPY => {
            let o = copy_fields(op.begin as u64, 4);
            let s = copy_fields(op.len as u64, 3);
            lemma_copy_fields_mask(op.begin as u64, 4);
            lemma_copy_fields_mask(op.len as u64, 3);
            lemma_copy_fields_len(op.begin as u64, 4);
            lemma_copy_fields_len(op.len as u64, 3);
            let mo = o.0;
            let ms = s.0;
            let ins = (0x80u8 | mo | (ms << 4u8)) as u8;
            assert(ins >= 0x80 && ins & (((1u8 << 4u8) - 1) as u8) == mo && (ins >> 4u8) & (((1u8
                << 3u8) - 1) as u8) == ms) by (bit_vector)
                requires
                    mo < (1u8 << 4u8),
                    ms < (1u8 << 3u8),
                    ins == (0x80u8 | mo | (ms << 4u8)) as u8,
            ;
            let r = all.drop_first();
            assert(r =~= o.1 + s.1 + tail);
            assert(r.take(o.1.len() as int) =~= o.1);
            lemma_copy_fields_read(op.begin as u64, 4, ins, r);
            let r2 = r.skip(o.1.len() as int);
            assert(r2 =~= s.1 + tail);
            assert(r2.take(s.1.len() as int) =~= s.1);
            lemma_copy_fields_read(op.len as u64, 3, ins >> 4u8, r2);
            let b = op.begin as u64;
            let l = op.len as u64;
            assert(low_bytes(b, 4) == b && low_bytes(l, 3) == l && l != 0) by (bit_vector)
                requires
                    b < 0x1_0000_0000,
                    1 <= l < 0x100_0000,
            ;
            assert(old.subrange(b as int, b + l) == op_output(op, old, new));
        },
    }
}

/// Applying the instructions of valid operations to the old data builds the
/// bytes that the operations stand for.
pub proof fn lemma_delta_ops_roundtrip(ops: Seq<DeltaOp>, old: Seq<u8>, new: Seq<u8>)
    requires
        forall|i: int| 0 <= i < ops.len() ==> op_valid(#[trigger] ops[i], old.len(), new.len()),
    ensures
        apply_instructions(old, ops_bytes(ops, new)) == Ok::<Seq<u8>, DeltaFault>(
            ops_output(ops, old, new),
        ),
    decreases ops.len(),
{
    if ops.len() == 0 {
        assert(ops_bytes(ops, new) =~= Seq::<u8>::empty());
    } else {
        let rest = ops.drop_first();
        assert forall|i: int| 0 <= i < rest.len() implies op_valid(
            #[trigger] rest[i],
            old.len(),
            new.len(),
        ) by {
            assert(rest[i] == ops[i + 1]);
        }
        lemma_delta_ops_roundtrip(rest, old, new);
        let first = op_bytes(ops[0], new);
        let tail = ops_bytes(rest, new);
        lemma_op_step(ops[0], old, new, tail);
        assert((first + tail).skip(first.len() as int) =~= tail);
        assert(ops_output(ops, old, new) == op_output(ops[0], old, new) + ops_output(rest, old, new));
    }
}

} // verus!

verus! {

proof fn lemma_varint_len_prefix(a: Seq<u8>, b: Seq<u8>)
    requires
        varint_len(a) == a.len(),
        a.len() > 0,
    ensures
        varint_len(a + b) == a.len(),
        (a + b).take(a.len() as int) == a,
        (a + b).skip(a.len() as int) == b,
    decreases a.len(),
{
    assert((a + b).take(a.len() as int) =~= a);
    assert((a + b).skip(a.len() as int) =~= b);
    if a[0] >= 0x80 {
        let r = a.drop_first();
        assert(varint_len(r) == r.len());
        if r.len() > 0 {
            lemma_varint_len_prefix(r, b);
            assert((a + b).drop_first() =~= r + b);
        }
    }
}

/// A delta made of the two lengths and the instructions of valid operations
/// that stand for the whole new data, applied to the old data, gives the new
/// data back: its header passes the checks of `apply_delta`, records both
/// lengths, and its instructions build the new data.
pub proof fn lemma_delta_roundtrip(ops: Seq<DeltaOp>, old: Seq<u8>, new: Seq<u8>)
    requires
        old.len() <= u64::MAX,
        new.len() <= u64::MAX,
        forall|i: int| 0 <= i < ops.len() ==> op_valid(#[trigger] ops[i], old.len(), new.len()),
        ops_output(ops, old, new) == new,
    ensures
        ({
            let d = base128_encode(old.len() as u64) + base128_encode(new.len() as u64) + ops_bytes(
                ops,
                new,
            );
            let n1 = varint_len(d);
            let rest = d.skip(n1 as int);
            let n2 = varint_len(rest);
            &&& delta_header_ok(old.len(), d)
            &&& le_base128(d.take(n1 as int)) == old.len()
            &&& le_base128(rest.take(n2 as int)) == new.len()
            &&& apply_instructions(old, rest.skip(n2 as int)) == Ok::<Seq<u8>, DeltaFault>(new)
        }),
{
    let a = base128_encode(old.len() as u64);
    let b = base128_encode(new.len() as u64);
    let c = ops_bytes(ops, new);
    lemma_size_encoding_roundtrip(old.len() as u64);
    lemma_size_encoding_roundtrip(new.len() as u64);
    assert(a + b + c =~= a + (b + c));
    lemma_varint_len_prefix(a, b + c);
    lemma_varint_len_prefix(b, c);
    lemma_delta_ops_roundtrip(ops, old, new);
}

} // verus!
