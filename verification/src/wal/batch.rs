//! `WriteBatch`: the unit of durability the WAL records.
//!
//! The wire encoding is compact and self-describing:
//!
//! ```text
//!   varint  op_count
//!   for each op:
//!     u8     op_type            (0 = Put, 1 = Delete)
//!     varint key_len
//!     bytes  key
//!     varint value_len           (Put only)
//!     bytes  value               (Put only)
//! ```
use vstd::prelude::*;
use vstd::slice::{slice_subrange, slice_to_vec};
use vstd::string::*;

use crate::encoding::fixed::push_bytes;
use crate::encoding::text::{decimal, decimal_string, padded, padded_string};
use crate::encoding::varint::{
    decode_u32, law_cut_varint_is_not_read, law_varint_is_read_alike, law_varint_u32_round_trip,
    lemma_parse_bounds, lemma_varint_len, push_varint, varint, varint_error, varint_parse_u32, VarintParse,
};
use crate::error::{invalid_format, DecodeError, Error, ErrorView, Result};

verus! {

/// Maximum number of operations accepted in a single batch.
pub const MAX_OPS_PER_BATCH: u32 = 1048576;

/// On-disk tag for [`Op::Put`].
pub const OP_PUT: u8 = 0;

/// On-disk tag for [`Op::Delete`].
pub const OP_DELETE: u8 = 1;

/// A single operation inside a [`WriteBatch`].
#[derive(Debug, Clone, PartialEq, Eq)]
pub enum Op {
    /// Insert or overwrite the value for `key`.
    Put {
        /// Key bytes.
        key: Vec<u8>,
        /// Value bytes.
        value: Vec<u8>,
    },
    /// Tombstone for `key`.
    Delete {
        /// Key bytes.
        key: Vec<u8>,
    },
}

/// What an [`Op`] does, over mathematical byte strings.
#[verifier::ext_equal]
pub enum OpView {
    /// See [`Op::Put`].
    Put { key: Seq<u8>, value: Seq<u8> },
    /// See [`Op::Delete`].
    Delete { key: Seq<u8> },
}

impl View for Op {
    type V = OpView;

    open spec fn view(&self) -> OpView {
        match *self {
            Op::Put { key, value } => OpView::Put { key: key@, value: value@ },
            Op::Delete { key } => OpView::Delete { key: key@ },
        }
    }
}

impl OpView {
    /// The operation's bytes on disk.
    pub open spec fn encoded(self) -> Seq<u8> {
        match self {
            OpView::Put { key, value } => seq![OP_PUT] + varint(key.len()) + key + varint(
                value.len(),
            ) + value,
            OpView::Delete { key } => seq![OP_DELETE] + varint(key.len()) + key,
        }
    }

    /// Key and value lengths fit the encoding.
    pub open spec fn encodable(self) -> bool {
        match self {
            OpView::Put { key, value } => key.len() <= u32::MAX && value.len() <= u32::MAX,
            OpView::Delete { key } => key.len() <= u32::MAX,
        }
    }
}

/// The operations one after another, each in its encoding.
pub open spec fn encoded_ops(ops: Seq<OpView>) -> Seq<u8>
    decreases ops.len(),
{
    if ops.len() == 0 {
        Seq::empty()
    } else {
        encoded_ops(ops.drop_last()) + ops.last().encoded()
    }
}

/// A batch's bytes on disk.
pub open spec fn encoded_batch(ops: Seq<OpView>) -> Seq<u8> {
    varint(ops.len()) + encoded_ops(ops)
}

/// The batch has few enough operations, each with a short enough key and
/// value, to be written and read back.
pub open spec fn encodable_batch(ops: Seq<OpView>) -> bool {
    ops.len() <= MAX_OPS_PER_BATCH && forall|i: int|
        0 <= i < ops.len() ==> (#[trigger] ops[i]).encodable()
}

/// What reading something from bytes comes to: a value and what is left, or
/// an error.
pub type Parsed<T> = core::result::Result<(T, Seq<u8>), ErrorView>;

/// Read a length-prefixed byte string from the front of `b`.
pub open spec fn parse_bytes(b: Seq<u8>) -> Parsed<Seq<u8>> {
    match varint_parse_u32(b) {
        VarintParse::Done(len, n) => if b.len() - n < len {
            Err(
                ErrorView::Decode(
                    DecodeError::UnexpectedEof { needed: (len - (b.len() - n)) as usize },
                ),
            )
        } else {
            Ok((b.subrange(n as int, (n + len) as int), b.subrange((n + len) as int, b.len() as int)))
        },
        p => Err(ErrorView::Decode(varint_error(p, b.len(), 5))),
    }
}

/// Read one operation from the front of `b`.
pub open spec fn parse_op(b: Seq<u8>) -> Parsed<OpView> {
    if b.len() == 0 {
        Err(ErrorView::Decode(DecodeError::UnexpectedEof { needed: 1 }))
    } else {
        let body = b.subrange(1, b.len() as int);
        if b[0] == OP_PUT {
            match parse_bytes(body) {
                Err(e) => Err(e),
                Ok((key, rest)) => match parse_bytes(rest) {
                    Err(e) => Err(e),
                    Ok((value, rest)) => Ok((OpView::Put { key, value }, rest)),
                },
            }
        } else if b[0] == OP_DELETE {
            match parse_bytes(body) {
                Err(e) => Err(e),
                Ok((key, rest)) => Ok((OpView::Delete { key }, rest)),
            }
        } else {
            Err(
                invalid_format(
                    "WriteBatch"@,
                    "unknown op tag 0x"@ + padded(b[0] as nat, 16, 2),
                ),
            )
        }
    }
}

/// Read `count` operations from the front of `b`.
pub open spec fn parse_ops(b: Seq<u8>, count: nat) -> Parsed<Seq<OpView>>
    decreases count,
{
    if count == 0 {
        Ok((Seq::empty(), b))
    } else {
        match parse_ops(b, (count - 1) as nat) {
            Err(e) => Err(e),
            Ok((ops, rest)) => match parse_op(rest) {
                Err(e) => Err(e),
                Ok((op, rest)) => Ok((ops.push(op), rest)),
            },
        }
    }
}

/// Read a whole batch: `b` must hold nothing else.
pub open spec fn parse_batch(b: Seq<u8>) -> core::result::Result<Seq<OpView>, ErrorView> {
    match varint_parse_u32(b) {
        VarintParse::Done(count, n) => if count > MAX_OPS_PER_BATCH {
            Err(
                invalid_format(
                    "WriteBatch"@,
                    "op_count "@ + decimal(count) + " exceeds limit 1048576"@,
                ),
            )
        } else {
            match parse_ops(b.subrange(n as int, b.len() as int), count) {
                Err(e) => Err(e),
                Ok((ops, rest)) => if rest.len() > 0 {
                    Err(
                        invalid_format(
                            "WriteBatch"@,
                            decimal(rest.len()) + " trailing bytes after final op"@,
                        ),
                    )
                } else {
                    Ok(ops)
                },
            }
        },
        p => Err(ErrorView::Decode(varint_error(p, b.len(), 5))),
    }
}

proof fn lemma_bytes_round_trip(s: Seq<u8>, rest: Seq<u8>)
    requires
        s.len() <= u32::MAX,
    ensures
        parse_bytes(varint(s.len()) + s + rest) == Ok::<_, ErrorView>((s, rest)),
{
    let b = varint(s.len()) + s + rest;
    law_varint_u32_round_trip(s.len() as u32, s + rest);
    assert(b =~= varint(s.len()) + (s + rest));
    let n = varint(s.len()).len();
    assert(b.subrange(n as int, (n + s.len()) as int) =~= s);
    assert(b.subrange((n + s.len()) as int, b.len() as int) =~= rest);
}

proof fn lemma_op_round_trip(op: OpView, rest: Seq<u8>)
    requires
        op.encodable(),
    ensures
        parse_op(op.encoded() + rest) == Ok::<_, ErrorView>((op, rest)),
{
    let b = op.encoded() + rest;
    let body = b.subrange(1, b.len() as int);
    match op {
        OpView::Put { key, value } => {
            let tail = varint(value.len()) + value + rest;
            assert(body =~= varint(key.len()) + key + tail);
            lemma_bytes_round_trip(key, tail);
            lemma_bytes_round_trip(value, rest);
        },
        OpView::Delete { key } => {
            assert(body =~= varint(key.len()) + key + rest);
            lemma_bytes_round_trip(key, rest);
        },
    }
}

proof fn lemma_ops_round_trip(ops: Seq<OpView>, rest: Seq<u8>)
    requires
        forall|i: int| 0 <= i < ops.len() ==> (#[trigger] ops[i]).encodable(),
    ensures
        parse_ops(encoded_ops(ops) + rest, ops.len()) == Ok::<_, ErrorView>((ops, rest)),
    decreases ops.len(),
{
    if ops.len() == 0 {
        assert(encoded_ops(ops) + rest =~= rest);
        assert(ops =~= Seq::empty());
    } else {
        let front = ops.drop_last();
        let op = ops.last();
        assert forall|i: int| 0 <= i < front.len() implies (#[trigger] front[i]).encodable() by {
            assert(front[i] == ops[i]);
        }
        assert(ops[ops.len() - 1].encodable());
        lemma_ops_round_trip(front, op.encoded() + rest);
        assert(encoded_ops(ops) + rest =~= encoded_ops(front) + (op.encoded() + rest));
        lemma_op_round_trip(op, rest);
        assert(front.push(op) =~= ops);
    }
}

/// Law: decoding an encoded batch gives back its operations, in order.
pub proof fn law_batch_round_trip(ops: Seq<OpView>)
    requires
        encodable_batch(ops),
    ensures
        parse_batch(encoded_batch(ops)) == Ok::<Seq<OpView>, ErrorView>(ops),
{
    let b = encoded_batch(ops);
    law_varint_u32_round_trip(ops.len() as u32, encoded_ops(ops));
    let n = varint(ops.len()).len();
    assert(b.subrange(n as int, b.len() as int) =~= encoded_ops(ops) + Seq::empty());
    lemma_ops_round_trip(ops, Seq::empty());
}

/// The operation's key and value have lengths that four bytes can hold.
pub open spec fn lengths_fit(op: OpView) -> bool {
    match op {
        OpView::Put { key, value } => key.len() <= 0xFFFF_FFFF && value.len() <= 0xFFFF_FFFF,
        OpView::Delete { key } => key.len() <= 0xFFFF_FFFF,
    }
}

/// Law: every batch of up to 1048576 operations is read back as it was written,
/// and none of more is read at all. What follows a batch is not passed over: it
/// makes the bytes no batch.
pub proof fn law_batch_and_nothing_else(ops: Seq<OpView>, more: Seq<u8>)
    requires
        forall|i: int| 0 <= i < ops.len() ==> lengths_fit(#[trigger] ops[i]),
        ops.len() <= 0xFFFF_FFFF,
    ensures
        ops.len() <= 1_048_576 ==> parse_batch(encoded_batch(ops)) == Ok::<Seq<OpView>, ErrorView>(
            ops,
        ),
        ops.len() > 1_048_576 ==> parse_batch(encoded_batch(ops) + more) is Err,
        more.len() > 0 ==> parse_batch(encoded_batch(ops) + more) is Err,
{
    assert forall|i: int| 0 <= i < ops.len() implies (#[trigger] ops[i]).encodable() by {
        assert(lengths_fit(ops[i]));
    }
    if ops.len() <= 1_048_576 {
        law_batch_round_trip(ops);
    }
    let b = encoded_batch(ops) + more;
    let n = varint(ops.len()).len() as int;
    law_varint_u32_round_trip(ops.len() as u32, encoded_ops(ops) + more);
    assert(b =~= varint(ops.len()) + (encoded_ops(ops) + more));
    assert(b.subrange(n, b.len() as int) =~= encoded_ops(ops) + more);
    lemma_ops_round_trip(ops, more);
}

proof fn lemma_bytes_read_alike(b: Seq<u8>, more: Seq<u8>)
    ensures
        parse_bytes(b) matches Ok((s, rest)) ==> parse_bytes(b + more) == Ok::<_, ErrorView>(
            (s, rest + more),
        ),
{
    law_varint_is_read_alike(b, more);
    lemma_parse_bounds(b, 0, 5, 15);
    if let VarintParse::Done(len, n) = varint_parse_u32(b) {
        if b.len() - n >= len {
            let (i, j) = (n as int, (n + len) as int);
            let c = b + more;
            assert(c.subrange(i, j) =~= b.subrange(i, j));
            assert(c.subrange(j, c.len() as int) =~= b.subrange(j, b.len() as int) + more);
        }
    }
}

proof fn lemma_op_read_alike(b: Seq<u8>, more: Seq<u8>)
    ensures
        parse_op(b) matches Ok((op, rest)) ==> parse_op(b + more) == Ok::<_, ErrorView>(
            (op, rest + more),
        ),
{
    if b.len() > 0 {
        let body = b.subrange(1, b.len() as int);
        assert((b + more).subrange(1, (b + more).len() as int) =~= body + more);
        lemma_bytes_read_alike(body, more);
        if let Ok((key, rest)) = parse_bytes(body) {
            lemma_bytes_read_alike(rest, more);
        }
    }
}

proof fn lemma_ops_read_alike(b: Seq<u8>, count: nat, more: Seq<u8>)
    ensures
        parse_ops(b, count) matches Ok((ops, rest)) ==> parse_ops(b + more, count) == Ok::<
            _,
            ErrorView,
        >((ops, rest + more)),
    decreases count,
{
    if count > 0 {
        lemma_ops_read_alike(b, (count - 1) as nat, more);
        if let Ok((ops, rest)) = parse_ops(b, (count - 1) as nat) {
            lemma_op_read_alike(rest, more);
        }
    }
}

/// Law: a batch is read whole or not at all. Bytes that are a batch are none with
/// more behind them, nor with any of the last bytes gone.
pub proof fn law_part_of_a_batch_is_none(b: Seq<u8>, more: Seq<u8>)
    requires
        more.len() > 0,
    ensures
        parse_batch(b) is Err || parse_batch(b + more) is Err,
{
    law_varint_is_read_alike(b, more);
    lemma_parse_bounds(b, 0, 5, 15);
    if let VarintParse::Done(count, n) = varint_parse_u32(b) {
        let body = b.subrange(n as int, b.len() as int);
        assert((b + more).subrange(n as int, (b + more).len() as int) =~= body + more);
        lemma_ops_read_alike(body, count, more);
    }
}

/// Law: a key or value of which only the first `k` bytes are there is not read, and
/// the error tells how many are missing.
pub proof fn law_cut_bytes_tell_what_is_missing(s: Seq<u8>, k: int)
    requires
        s.len() <= 0xFFFF_FFFF,
        0 <= k < s.len(),
    ensures
        parse_bytes(varint(s.len()) + s.subrange(0, k)) == Err::<(Seq<u8>, Seq<u8>), ErrorView>(
            ErrorView::Decode(DecodeError::UnexpectedEof { needed: (s.len() - k) as usize }),
        ),
{
    law_varint_u32_round_trip(s.len() as u32, s.subrange(0, k));
}

/// Law: where the bytes end inside a length, or inside the number of operations, the
/// error tells how many bytes five would still take.
pub proof fn law_cut_length_tells_what_is_missing(b: Seq<u8>)
    requires
        b.len() < 5,
        forall|i: int| 0 <= i < b.len() ==> #[trigger] b[i] >= 128,
    ensures
        parse_bytes(b) == Err::<(Seq<u8>, Seq<u8>), ErrorView>(
            ErrorView::Decode(DecodeError::UnexpectedEof { needed: (5 - b.len()) as usize }),
        ),
        parse_batch(b) == Err::<Seq<OpView>, ErrorView>(
            ErrorView::Decode(DecodeError::UnexpectedEof { needed: (5 - b.len()) as usize }),
        ),
{
    law_cut_varint_is_not_read(b);
}

/// Law: an operation starts with a tag, 0 for a put and 1 for a delete; any other
/// is refused.
pub proof fn law_tags_of_operations(b: Seq<u8>)
    requires
        b.len() > 0,
    ensures
        b[0] > 1 ==> parse_op(b) == Err::<(OpView, Seq<u8>), ErrorView>(
            ErrorView::InvalidFormat {
                context: "WriteBatch"@,
                reason: "unknown op tag 0x"@ + padded(b[0] as nat, 16, 2),
            },
        ),
        parse_op(b) matches Ok((op, rest)) ==> (b[0] == 0 <==> op is Put) && (b[0] == 1 <==> op
            is Delete),
{
}

/// Bytes of the keys and values of operations.
pub open spec fn ops_payload(ops: Seq<OpView>) -> nat
    decreases ops.len(),
{
    if ops.len() == 0 {
        0
    } else {
        ops_payload(ops.drop_last()) + (match ops.last() {
            OpView::Put { key, value } => key.len() + value.len(),
            OpView::Delete { key } => key.len(),
        })
    }
}

/// Law: a batch takes the bytes of its keys and values, and little more: a tag and
/// at most two lengths for each operation, and their number.
pub proof fn law_batch_size(ops: Seq<OpView>)
    requires
        forall|i: int| 0 <= i < ops.len() ==> lengths_fit(#[trigger] ops[i]),
        ops.len() <= 0xFFFF_FFFF,
    ensures
        ops_payload(ops) + ops.len() < encoded_batch(ops).len(),
        encoded_batch(ops).len() <= ops_payload(ops) + 11 * ops.len() + 5,
{
    lemma_ops_size(ops);
    lemma_varint_len(ops.len());
}

proof fn lemma_ops_size(ops: Seq<OpView>)
    requires
        forall|i: int| 0 <= i < ops.len() ==> lengths_fit(#[trigger] ops[i]),
    ensures
        ops_payload(ops) + ops.len() <= encoded_ops(ops).len() <= ops_payload(ops) + 11 * ops.len(),
    decreases ops.len(),
{
    if ops.len() > 0 {
        let less = ops.drop_last();
        assert forall|i: int| 0 <= i < less.len() implies lengths_fit(#[trigger] less[i]) by {
            assert(less[i] == ops[i]);
        }
        lemma_ops_size(less);
        assert(lengths_fit(ops[ops.len() - 1]));
        match ops.last() {
            OpView::Put { key, value } => {
                lemma_varint_len(key.len());
                lemma_varint_len(value.len());
            },
            OpView::Delete { key } => {
                lemma_varint_len(key.len());
            },
        }
    }
}

proof fn lemma_parse_bytes_short(b: Seq<u8>)
    ensures
        parse_bytes(b) matches Ok((s, rest)) ==> s.len() <= u32::MAX && rest.len() < b.len(),
{
    lemma_parse_u32_small(b, 0);
    lemma_parse_bounds(b, 0, 5, 15);
}

/// A parsed `u32` varint fits a `u32`.
proof fn lemma_parse_u32_small(b: Seq<u8>, i: nat)
    requires
        i <= 4,
    ensures
        crate::encoding::varint::varint_parse_from(b, i, 5, 15) matches VarintParse::Done(v, n)
            ==> v < (if i == 0 { 0x1_0000_0000nat } else if i == 1 { 0x200_0000nat }
            else if i == 2 { 0x4_0000nat } else if i == 3 { 0x800nat } else { 16nat }),
    decreases 4 - i,
{
    reveal_with_fuel(crate::encoding::varint::varint_parse_from, 2);
    if i < 4 {
        lemma_parse_u32_small(b, i + 1);
    }
}

proof fn lemma_parsed_ops_encodable(b: Seq<u8>, count: nat)
    ensures
        parse_ops(b, count) matches Ok((ops, rest)) ==> ops.len() == count && forall|i: int|
            0 <= i < ops.len() ==> (#[trigger] ops[i]).encodable(),
    decreases count,
{
    if count > 0 {
        lemma_parsed_ops_encodable(b, (count - 1) as nat);
        match parse_ops(b, (count - 1) as nat) {
            Ok((ops, rest)) => {
                if rest.len() > 0 {
                    let body = rest.subrange(1, rest.len() as int);
                    lemma_parse_bytes_short(body);
                    match parse_bytes(body) {
                        Ok((key, r)) => {
                            lemma_parse_bytes_short(r);
                        },
                        _ => {},
                    }
                }
            },
            _ => {},
        }
    }
}

/// Law: whatever bytes decode, encoding the result and decoding it again
/// gives the same operations.
pub proof fn law_reencoding_is_stable(b: Seq<u8>)
    ensures
        parse_batch(b) matches Ok(ops) ==> parse_batch(encoded_batch(ops)) == Ok::<
            Seq<OpView>,
            ErrorView,
        >(ops),
{
    match varint_parse_u32(b) {
        VarintParse::Done(count, n) => {
            lemma_parsed_ops_encodable(b.subrange(n as int, b.len() as int), count);
        },
        _ => {},
    }
    match parse_batch(b) {
        Ok(ops) => {
            law_batch_round_trip(ops);
        },
        _ => {},
    }
}

/// The views of a slice of operations.
pub open spec fn op_views(ops: Seq<Op>) -> Seq<OpView> {
    Seq::new(ops.len(), |i: int| ops[i]@)
}

/// A batch of operations that will be applied atomically: either every op in
/// the batch is durable, or none of them are.
#[derive(Debug, Clone, PartialEq, Eq)]
pub struct WriteBatch {
    ops: Vec<Op>,
}

impl View for WriteBatch {
    type V = Seq<OpView>;

    closed spec fn view(&self) -> Seq<OpView> {
        op_views(self.ops@)
    }
}

impl WriteBatch {
    /// Construct an empty batch.
    pub fn new() -> (b: WriteBatch)
        ensures
            b@ == Seq::<OpView>::empty(),
    {
        let b = WriteBatch { ops: Vec::new() };
        assert(b@ =~= Seq::<OpView>::empty());
        b
    }

    /// Append a put.
    pub fn put(&mut self, key: &[u8], value: &[u8]) -> (r: &mut WriteBatch)
        ensures
            r@ == old(self)@.push(OpView::Put { key: key@, value: value@ }),
            *final(self) == *final(r),
    {
        self.ops.push(Op::Put { key: slice_to_vec(key), value: slice_to_vec(value) });
        assert(self@ =~= old(self)@.push(OpView::Put { key: key@, value: value@ }));
        self
    }

    /// Append a delete.
    pub fn delete(&mut self, key: &[u8]) -> (r: &mut WriteBatch)
        ensures
            r@ == old(self)@.push(OpView::Delete { key: key@ }),
            *final(self) == *final(r),
    {
        self.ops.push(Op::Delete { key: slice_to_vec(key) });
        assert(self@ =~= old(self)@.push(OpView::Delete { key: key@ }));
        self
    }

    /// Number of ops in the batch.
    pub fn len(&self) -> (n: usize)
        ensures
            n == self@.len(),
    {
        self.ops.len()
    }

    /// `true` if the batch carries zero ops.
    pub fn is_empty(&self) -> (r: bool)
        ensures
            r == (self@.len() == 0),
    {
        self.ops.is_empty()
    }

    /// Borrow the operations.
    pub fn ops(&self) -> (ops: &[Op])
        ensures
            op_views(ops@) == self@,
    {
        self.ops.as_slice()
    }

    /// Encode the batch into a heap-allocated `Vec<u8>`.
    pub fn encode(&self) -> (out: Vec<u8>)
        requires
            self@.len() <= u32::MAX,
            forall|i: int| 0 <= i < self@.len() ==> (#[trigger] self@[i]).encodable(),
        ensures
            out@ == encoded_batch(self@),
    {
        let mut out: Vec<u8> = Vec::new();
        self.encode_into(&mut out);
        assert(out@ =~= encoded_batch(self@));
        out
    }

    /// Encode the batch into the supplied buffer (appended to whatever is
    /// already there).
    pub fn encode_into(&self, out: &mut Vec<u8>)
        requires
            self@.len() <= u32::MAX,
            forall|i: int| 0 <= i < self@.len() ==> (#[trigger] self@[i]).encodable(),
        ensures
            final(out)@ == old(out)@ + encoded_batch(self@),
    {
        let ghost start = out@;
        push_varint(out, self.ops.len() as u64);
        let n: usize = self.ops.len();
        let mut i: usize = 0;
        assert(out@ + encoded_ops(self@.subrange(0, 0)) =~= out@);
        while i < n
            invariant
                i <= n,
                n == self.ops@.len(),
                self@.len() == n,
                out@ == start + varint(self@.len()) + encoded_ops(self@.subrange(0, i as int)),
                forall|k: int| 0 <= k < self@.len() ==> (#[trigger] self@[k]).encodable(),
            decreases n - i,
        {
            let ghost done = out@;
            let ghost v = self@[i as int];
            assert(v.encodable());
            match &self.ops[i] {
                Op::Put { key, value } => {
                    out.push(OP_PUT);
                    push_varint(out, key.len() as u64);
                    push_bytes(out, key.as_slice());
                    push_varint(out, value.len() as u64);
                    push_bytes(out, value.as_slice());
                    assert(v == (OpView::Put { key: key@, value: value@ }));
                    assert(out@ =~= done + v.encoded());
                },
                Op::Delete { key } => {
                    out.push(OP_DELETE);
                    push_varint(out, key.len() as u64);
                    push_bytes(out, key.as_slice());
                    assert(v == (OpView::Delete { key: key@ }));
                    assert(out@ =~= done + v.encoded());
                },
            }
            proof {
                let now = self@.subrange(0, i + 1);
                assert(now.drop_last() =~= self@.subrange(0, i as int));
                assert(out@ =~= start + varint(self@.len()) + encoded_ops(now));
            }
            i += 1;
        }
        assert(self@.subrange(0, n as int) =~= self@);
        assert(out@ =~= start + encoded_batch(self@));
    }

    /// Decode a batch from `bytes`. Returns an error if the bytes are
    /// truncated, have an unknown op tag, or claim a key/value length the
    /// remaining buffer cannot satisfy.
    pub fn decode(bytes: &[u8]) -> (r: Result<WriteBatch>)
        ensures
            match parse_batch(bytes@) {
                Ok(ops) => r matches Ok(b) && b@ == ops,
                Err(e) => r matches Err(x) && x@ == e,
            },
    {
        let (op_count, consumed): (u32, usize) = match decode_u32(bytes) {
            Ok(p) => p,
            Err(e) => {
                return Err(e);
            },
        };
        if op_count > MAX_OPS_PER_BATCH {
            let mut reason: String = "op_count ".to_owned();
            reason.append(decimal_string(op_count as u64).as_str());
            reason.append(" exceeds limit 1048576");
            return Err(Error::InvalidFormat { context: "WriteBatch", reason });
        }
        let body: &[u8] = slice_subrange(bytes, consumed, bytes.len());
        let mut rest: &[u8] = body;
        let mut ops: Vec<Op> = Vec::new();
        let mut i: u32 = 0;
        assert(op_views(ops@) =~= Seq::<OpView>::empty());
        while i < op_count
            invariant
                i <= op_count,
                op_count <= MAX_OPS_PER_BATCH,
                parse_ops(body@, i as nat) == Ok::<_, ErrorView>((op_views(ops@), rest@)),
                parse_batch(bytes@) == (match parse_ops(body@, op_count as nat) {
                    Err(e) => Err(e),
                    Ok((all, left)) => if left.len() > 0 {
                        Err(
                            invalid_format(
                                "WriteBatch"@,
                                decimal(left.len()) + " trailing bytes after final op"@,
                            ),
                        )
                    } else {
                        Ok(all)
                    },
                }),
            decreases op_count - i,
        {
            proof {
                lemma_parse_ops_fails(body@, (i + 1) as nat, op_count as nat);
            }
            match decode_op(rest) {
                Err(e) => {
                    return Err(e);
                },
                Ok((op, left)) => {
                    let ghost before = op_views(ops@);
                    let ghost v = op@;
                    ops.push(op);
                    rest = left;
                    assert(op_views(ops@) =~= before.push(v));
                },
            }
            i += 1;
        }
        if rest.len() > 0 {
            let mut reason: String = decimal_string(rest.len() as u64);
            reason.append(" trailing bytes after final op");
            return Err(Error::InvalidFormat { context: "WriteBatch", reason });
        }
        Ok(WriteBatch { ops })
    }
}

impl Default for WriteBatch {
    fn default() -> (b: WriteBatch)
        ensures
            b@ == Seq::<OpView>::empty(),
    {
        WriteBatch::new()
    }
}

/// Where reading a number of operations fails, reading more of them fails in
/// the same way.
proof fn lemma_parse_ops_fails(b: Seq<u8>, few: nat, many: nat)
    requires
        few <= many,
    ensures
        parse_ops(b, few) matches Err(e) ==> parse_ops(b, many) == Err::<(Seq<OpView>, Seq<u8>), _>(
            e,
        ),
    decreases many,
{
    if few < many {
        lemma_parse_ops_fails(b, few, (many - 1) as nat);
    }
}

/// Split off a length-prefixed byte string.
fn take_bytes(b: &[u8]) -> (r: Result<(&[u8], &[u8])>)
    ensures
        match parse_bytes(b@) {
            Ok((s, rest)) => r matches Ok(p) && p.0@ == s && p.1@ == rest,
            Err(e) => r matches Err(x) && x@ == e,
        },
{
    let (len, n): (u32, usize) = match decode_u32(b) {
        Ok(p) => p,
        Err(e) => {
            return Err(e);
        },
    };
    take(slice_subrange(b, n, b.len()), len as usize, b, n)
}

/// The first `n` bytes and the others.
fn take<'a>(bytes: &'a [u8], n: usize, whole: &'a [u8], from: usize) -> (r: Result<
    (&'a [u8], &'a [u8]),
>)
    requires
        from <= whole@.len(),
        bytes@ == whole@.subrange(from as int, whole@.len() as int),
    ensures
        bytes@.len() < n ==> (r matches Err(x) && x@ == ErrorView::Decode(
            DecodeError::UnexpectedEof { needed: (n - bytes@.len()) as usize },
        )),
        bytes@.len() >= n ==> (r matches Ok(p) && p.0@ == whole@.subrange(from as int, from + n)
            && p.1@ == whole@.subrange(from + n, whole@.len() as int)),
{
    if bytes.len() < n {
        return Err(Error::Decode(DecodeError::UnexpectedEof { needed: n - bytes.len() }));
    }
    let front = slice_subrange(bytes, 0, n);
    let back = slice_subrange(bytes, n, bytes.len());
    assert(front@ =~= whole@.subrange(from as int, from + n));
    assert(back@ =~= whole@.subrange(from + n, whole@.len() as int));
    Ok((front, back))
}

/// Read one operation from the front of `b`.
fn decode_op(b: &[u8]) -> (r: Result<(Op, &[u8])>)
    ensures
        match parse_op(b@) {
            Ok((op, rest)) => r matches Ok(p) && p.0@ == op && p.1@ == rest,
            Err(e) => r matches Err(x) && x@ == e,
        },
{
    if b.len() == 0 {
        return Err(Error::Decode(DecodeError::UnexpectedEof { needed: 1 }));
    }
    let tag: u8 = b[0];
    let body: &[u8] = slice_subrange(b, 1, b.len());
    if tag == OP_PUT {
        let (key, rest): (&[u8], &[u8]) = match take_bytes(body) {
            Ok(p) => p,
            Err(e) => {
                return Err(e);
            },
        };
        let (value, rest): (&[u8], &[u8]) = match take_bytes(rest) {
            Ok(p) => p,
            Err(e) => {
                return Err(e);
            },
        };
        Ok((Op::Put { key: slice_to_vec(key), value: slice_to_vec(value) }, rest))
    } else if tag == OP_DELETE {
        let (key, rest): (&[u8], &[u8]) = match take_bytes(body) {
            Ok(p) => p,
            Err(e) => {
                return Err(e);
            },
        };
        Ok((Op::Delete { key: slice_to_vec(key) }, rest))
    } else {
        let mut reason: String = "unknown op tag 0x".to_owned();
        reason.append(padded_string(tag as u64, 16, 2).as_str());
        Err(Error::InvalidFormat { context: "WriteBatch", reason })
    }
}

} // verus!
