//! The byte form of a key collection.

use crate::constraint_system::{Shift, ShiftVariant};
use crate::shift::keys::{
    ConstraintIndex, DenseShiftEncoding, Key, KeyCollection, KeyRange, KeySegment, Operation,
    ShiftSeq,
};
use crate::utils::serialization::{ByteReader, DeserializeBytes, SerializationError, SerializeBytes};
use vstd::prelude::*;

verus! {

/// The version of the byte form.
pub const KEY_COLLECTION_VERSION: u32 = 3;

impl Operation {
    /// The tag byte of an operation.
    pub open spec fn tag(self) -> u8 {
        match self {
            Operation::BitwiseAnd => 0,
            Operation::IntegerMul => 1,
            Operation::BinMul => 2,
            Operation::Zero => 3,
        }
    }
}

impl SerializeBytes for Operation {
    type Contents = Operation;

    open spec fn contents(&self) -> Operation {
        *self
    }

    open spec fn encoded(&self) -> Seq<u8> {
        seq![self.tag()]
    }

    open spec fn encodable(&self) -> bool {
        true
    }

    fn serialize(&self, buf: &mut Vec<u8>) -> (r: Result<(), SerializationError>) {
        // The tags do not follow declaration order, so that reordering keeps the format.
        let tag: u8 = match self {
            Operation::BitwiseAnd => 0,
            Operation::IntegerMul => 1,
            Operation::BinMul => 2,
            Operation::Zero => 3,
        };
        tag.serialize(buf)
    }
}

impl DeserializeBytes for Operation {
    open spec fn parse(s: Seq<u8>) -> Result<
        (Operation, Seq<u8>),
        SerializationError,
    > {
        if s.len() == 0 {
            Err(SerializationError::NotEnoughBytes)
        } else if s[0] == 0 {
            Ok((Operation::BitwiseAnd, s.skip(1)))
        } else if s[0] == 1 {
            Ok((Operation::IntegerMul, s.skip(1)))
        } else if s[0] == 2 {
            Ok((Operation::BinMul, s.skip(1)))
        } else if s[0] == 3 {
            Ok((Operation::Zero, s.skip(1)))
        } else {
            Err(SerializationError::UnknownEnumVariant { name: "Operation", index: s[0] })
        }
    }

    proof fn round_trip(&self, tail: Seq<u8>) {
        assert((self.encoded() + tail).skip(1) =~= tail);
    }

    fn deserialize(reader: &mut ByteReader<'_>) -> (r: Result<Self, SerializationError>) {
        let tag = match u8::deserialize(reader) {
            Ok(tag) => tag,
            Err(e) => {
                return Err(e);
            },
        };
        if tag == 0 {
            Ok(Operation::BitwiseAnd)
        } else if tag == 1 {
            Ok(Operation::IntegerMul)
        } else if tag == 2 {
            Ok(Operation::BinMul)
        } else if tag == 3 {
            Ok(Operation::Zero)
        } else {
            Err(SerializationError::UnknownEnumVariant { name: "Operation", index: tag })
        }
    }
}

impl SerializeBytes for Shift {
    type Contents = Shift;

    open spec fn contents(&self) -> Shift {
        *self
    }

    open spec fn encoded(&self) -> Seq<u8> {
        seq![self.variant.position() as u8, self.amount]
    }

    open spec fn encodable(&self) -> bool {
        true
    }

    fn serialize(&self, buf: &mut Vec<u8>) -> (r: Result<(), SerializationError>) {
        buf.push(self.variant.to_index() as u8);
        buf.push(self.amount);
        assert(buf@ =~= old(buf)@ + self.encoded());
        Ok(())
    }
}

impl DeserializeBytes for Shift {
    open spec fn parse(s: Seq<u8>) -> Result<
        (Shift, Seq<u8>),
        SerializationError,
    > {
        if s.len() == 0 {
            Err(SerializationError::NotEnoughBytes)
        } else if s[0] >= 8 {
            Err(SerializationError::UnknownEnumVariant { name: "ShiftVariant", index: s[0] })
        } else if s.len() == 1 {
            Err(SerializationError::NotEnoughBytes)
        } else {
            Ok((Shift { variant: ShiftVariant::at(s[0] as int), amount: s[1] }, s.skip(2)))
        }
    }

    proof fn round_trip(&self, tail: Seq<u8>) {
        assert((self.encoded() + tail).skip(2) =~= tail);
        assert(ShiftVariant::at(self.variant.position()) == self.variant);
    }

    fn deserialize(reader: &mut ByteReader<'_>) -> (r: Result<Self, SerializationError>) {
        let ghost s = reader.rest();
        let tag = match u8::deserialize(reader) {
            Ok(tag) => tag,
            Err(e) => {
                return Err(e);
            },
        };
        if tag >= 8 {
            return Err(SerializationError::UnknownEnumVariant { name: "ShiftVariant", index: tag });
        }
        let amount = match u8::deserialize(reader) {
            Ok(amount) => amount,
            Err(e) => {
                return Err(e);
            },
        };
        assert(s.skip(1).skip(1) =~= s.skip(2));
        Ok(Shift { variant: ShiftVariant::from_index(tag as usize), amount })
    }
}

impl SerializeBytes for ShiftSeq {
    type Contents = ShiftSeq;

    open spec fn contents(&self) -> ShiftSeq {
        *self
    }

    open spec fn encoded(&self) -> Seq<u8> {
        self.inner.encoded() + self.outer.encoded()
    }

    open spec fn encodable(&self) -> bool {
        self.inner.encodable() && self.outer.encodable()
    }

    fn serialize(&self, buf: &mut Vec<u8>) -> (r: Result<(), SerializationError>) {
        match self.inner.serialize(buf) {
            Ok(_) => {},
            Err(e) => {
                return Err(e);
            },
        }
        match self.outer.serialize(buf) {
            Ok(_) => {},
            Err(e) => {
                return Err(e);
            },
        }
        assert(buf@ =~= old(buf)@ + self.encoded());
        Ok(())
    }
}

impl DeserializeBytes for ShiftSeq {
    open spec fn parse(s: Seq<u8>) -> Result<
        (ShiftSeq, Seq<u8>),
        SerializationError,
    > {
        match <Shift as DeserializeBytes>::parse(s) {
            Err(e) => Err(e),
            Ok((inner, s1)) => match <Shift as DeserializeBytes>::parse(s1) {
                Err(e) => Err(e),
                Ok((outer, s2)) => Ok((ShiftSeq { inner, outer }, s2)),
            },
        }
    }

    proof fn round_trip(&self, tail: Seq<u8>) {
        let t1 = self.outer.encoded() + tail;
        let t0 = self.inner.encoded() + t1;
        self.inner.round_trip(t1);
        self.outer.round_trip(tail);
        assert(self.encoded() + tail =~= t0);
    }

    fn deserialize(reader: &mut ByteReader<'_>) -> (r: Result<Self, SerializationError>) {
        let inner = match <Shift as DeserializeBytes>::deserialize(reader) {
            Ok(inner) => inner,
            Err(e) => {
                return Err(e);
            },
        };
        let outer = match <Shift as DeserializeBytes>::deserialize(reader) {
            Ok(outer) => outer,
            Err(e) => {
                return Err(e);
            },
        };
        Ok(ShiftSeq { inner, outer })
    }
}

impl SerializeBytes for ConstraintIndex {
    type Contents = ConstraintIndex;

    open spec fn contents(&self) -> ConstraintIndex {
        *self
    }

    open spec fn encoded(&self) -> Seq<u8> {
        self.operand_index.encoded() + self.constraint_index.encoded()
    }

    open spec fn encodable(&self) -> bool {
        self.operand_index.encodable() && self.constraint_index.encodable()
    }

    fn serialize(&self, buf: &mut Vec<u8>) -> (r: Result<(), SerializationError>) {
        match self.operand_index.serialize(buf) {
            Ok(_) => {},
            Err(e) => {
                return Err(e);
            },
        }
        match self.constraint_index.serialize(buf) {
            Ok(_) => {},
            Err(e) => {
                return Err(e);
            },
        }
        assert(buf@ =~= old(buf)@ + self.encoded());
        Ok(())
    }
}

impl DeserializeBytes for ConstraintIndex {
    open spec fn parse(s: Seq<u8>) -> Result<
        (ConstraintIndex, Seq<u8>),
        SerializationError,
    > {
        match <u8 as DeserializeBytes>::parse(s) {
            Err(e) => Err(e),
            Ok((operand_index, s1)) => match <u32 as DeserializeBytes>::parse(s1) {
                Err(e) => Err(e),
                Ok((constraint_index, s2)) => Ok((ConstraintIndex { operand_index, constraint_index }, s2)),
            },
        }
    }

    proof fn round_trip(&self, tail: Seq<u8>) {
        let t1 = self.constraint_index.encoded() + tail;
        let t0 = self.operand_index.encoded() + t1;
        self.operand_index.round_trip(t1);
        self.constraint_index.round_trip(tail);
        assert(self.encoded() + tail =~= t0);
    }

    fn deserialize(reader: &mut ByteReader<'_>) -> (r: Result<Self, SerializationError>) {
        let operand_index = match <u8 as DeserializeBytes>::deserialize(reader) {
            Ok(operand_index) => operand_index,
            Err(e) => {
                return Err(e);
            },
        };
        let constraint_index = match <u32 as DeserializeBytes>::deserialize(reader) {
            Ok(constraint_index) => constraint_index,
            Err(e) => {
                return Err(e);
            },
        };
        Ok(ConstraintIndex { operand_index, constraint_index })
    }
}

impl SerializeBytes for KeyRange {
    type Contents = KeyRange;

    open spec fn contents(&self) -> KeyRange {
        *self
    }

    open spec fn encoded(&self) -> Seq<u8> {
        self.start.encoded() + self.end.encoded()
    }

    open spec fn encodable(&self) -> bool {
        self.start.encodable() && self.end.encodable()
    }

    fn serialize(&self, buf: &mut Vec<u8>) -> (r: Result<(), SerializationError>) {
        match self.start.serialize(buf) {
            Ok(_) => {},
            Err(e) => {
                return Err(e);
            },
        }
        match self.end.serialize(buf) {
            Ok(_) => {},
            Err(e) => {
                return Err(e);
            },
        }
        assert(buf@ =~= old(buf)@ + self.encoded());
        Ok(())
    }
}

impl DeserializeBytes for KeyRange {
    open spec fn parse(s: Seq<u8>) -> Result<
        (KeyRange, Seq<u8>),
        SerializationError,
    > {
        match <u32 as DeserializeBytes>::parse(s) {
            Err(e) => Err(e),
            Ok((start, s1)) => match <u32 as DeserializeBytes>::parse(s1) {
                Err(e) => Err(e),
                Ok((end, s2)) => Ok((KeyRange { start, end }, s2)),
            },
        }
    }

    proof fn round_trip(&self, tail: Seq<u8>) {
        let t1 = self.end.encoded() + tail;
        let t0 = self.start.encoded() + t1;
        self.start.round_trip(t1);
        self.end.round_trip(tail);
        assert(self.encoded() + tail =~= t0);
    }

    fn deserialize(reader: &mut ByteReader<'_>) -> (r: Result<Self, SerializationError>) {
        let start = match <u32 as DeserializeBytes>::deserialize(reader) {
            Ok(start) => start,
            Err(e) => {
                return Err(e);
            },
        };
        let end = match <u32 as DeserializeBytes>::deserialize(reader) {
            Ok(end) => end,
            Err(e) => {
                return Err(e);
            },
        };
        Ok(KeyRange { start, end })
    }
}

impl SerializeBytes for Key {
    type Contents = Key;

    open spec fn contents(&self) -> Key {
        *self
    }

    open spec fn encoded(&self) -> Seq<u8> {
        self.operation.encoded() + self.dense_shift_idx.encoded() + self.start.encoded() + self.end.encoded()
    }

    open spec fn encodable(&self) -> bool {
        self.operation.encodable() && self.dense_shift_idx.encodable() && self.start.encodable() && self.end.encodable()
    }

    fn serialize(&self, buf: &mut Vec<u8>) -> (r: Result<(), SerializationError>) {
        match self.operation.serialize(buf) {
            Ok(_) => {},
            Err(e) => {
                return Err(e);
            },
        }
        match self.dense_shift_idx.serialize(buf) {
            Ok(_) => {},
            Err(e) => {
                return Err(e);
            },
        }
        match self.start.serialize(buf) {
            Ok(_) => {},
            Err(e) => {
                return Err(e);
            },
        }
        match self.end.serialize(buf) {
            Ok(_) => {},
            Err(e) => {
                return Err(e);
            },
        }
        assert(buf@ =~= old(buf)@ + self.encoded());
        Ok(())
    }
}

impl DeserializeBytes for Key {
    open spec fn parse(s: Seq<u8>) -> Result<
        (Key, Seq<u8>),
        SerializationError,
    > {
        match <Operation as DeserializeBytes>::parse(s) {
            Err(e) => Err(e),
            Ok((operation, s1)) => match <u32 as DeserializeBytes>::parse(s1) {
                Err(e) => Err(e),
                Ok((dense_shift_idx, s2)) => match <u32 as DeserializeBytes>::parse(s2) {
                    Err(e) => Err(e),
                    Ok((start, s3)) => match <u32 as DeserializeBytes>::parse(s3) {
                        Err(e) => Err(e),
                        Ok((end, s4)) => Ok((Key { operation, dense_shift_idx, start, end }, s4)),
                    },
                },
            },
        }
    }

    proof fn round_trip(&self, tail: Seq<u8>) {
        let t3 = self.end.encoded() + tail;
        let t2 = self.start.encoded() + t3;
        let t1 = self.dense_shift_idx.encoded() + t2;
        let t0 = self.operation.encoded() + t1;
        self.operation.round_trip(t1);
        self.dense_shift_idx.round_trip(t2);
        self.start.round_trip(t3);
        self.end.round_trip(tail);
        assert(self.encoded() + tail =~= t0);
    }

    fn deserialize(reader: &mut ByteReader<'_>) -> (r: Result<Self, SerializationError>) {
        let operation = match <Operation as DeserializeBytes>::deserialize(reader) {
            Ok(operation) => operation,
            Err(e) => {
                return Err(e);
            },
        };
        let dense_shift_idx = match <u32 as DeserializeBytes>::deserialize(reader) {
            Ok(dense_shift_idx) => dense_shift_idx,
            Err(e) => {
                return Err(e);
            },
        };
        let start = match <u32 as DeserializeBytes>::deserialize(reader) {
            Ok(start) => start,
            Err(e) => {
                return Err(e);
            },
        };
        let end = match <u32 as DeserializeBytes>::deserialize(reader) {
            Ok(end) => end,
            Err(e) => {
                return Err(e);
            },
        };
        Ok(Key { operation, dense_shift_idx, start, end })
    }
}

impl SerializeBytes for DenseShiftEncoding {
    type Contents = Seq<ShiftSeq>;

    open spec fn contents(&self) -> Seq<ShiftSeq> {
        self.sequences.contents()
    }

    open spec fn encoded(&self) -> Seq<u8> {
        self.sequences.encoded()
    }

    open spec fn encodable(&self) -> bool {
        self.sequences.encodable()
    }

    fn serialize(&self, buf: &mut Vec<u8>) -> (r: Result<(), SerializationError>) {
        match self.sequences.serialize(buf) {
            Ok(_) => {},
            Err(e) => {
                return Err(e);
            },
        }
        assert(buf@ =~= old(buf)@ + self.encoded());
        Ok(())
    }
}

impl DeserializeBytes for DenseShiftEncoding {
    open spec fn parse(s: Seq<u8>) -> Result<
        (Seq<ShiftSeq>, Seq<u8>),
        SerializationError,
    > {
        match <Vec<ShiftSeq> as DeserializeBytes>::parse(s) {
            Err(e) => Err(e),
            Ok((sequences, s1)) => Ok((sequences, s1)),
        }
    }

    proof fn round_trip(&self, tail: Seq<u8>) {
        let t0 = self.sequences.encoded() + tail;
        self.sequences.round_trip(tail);
        assert(self.encoded() + tail =~= t0);
    }

    fn deserialize(reader: &mut ByteReader<'_>) -> (r: Result<Self, SerializationError>) {
        let sequences = match <Vec<ShiftSeq> as DeserializeBytes>::deserialize(reader) {
            Ok(sequences) => sequences,
            Err(e) => {
                return Err(e);
            },
        };
        Ok(DenseShiftEncoding { sequences })
    }
}

/// What the bytes say about a key segment.
pub struct SegmentModel {
    pub keys: Seq<Key>,
    pub key_ranges: Seq<KeyRange>,
    pub constraint_indices: Seq<ConstraintIndex>,
    pub sequences: Seq<ShiftSeq>,
}

/// The byte form of a segment: its four lists one after the other.
#[verifier::opaque]
pub open spec fn segment_bytes(segment: &KeySegment) -> Seq<u8> {
    segment.keys.encoded() + segment.key_ranges.encoded() + segment.constraint_indices.encoded()
        + segment.dense_shift_enc.encoded()
}

/// The segment at the start of some bytes, and the bytes after it.
#[verifier::opaque]
pub open spec fn segment_parsed(s: Seq<u8>) -> Result<
        (SegmentModel, Seq<u8>),
        SerializationError,
    > {
    match <Vec<Key> as DeserializeBytes>::parse(s) {
        Err(e) => Err(e),
        Ok((keys, s1)) => match <Vec<KeyRange> as DeserializeBytes>::parse(s1) {
            Err(e) => Err(e),
            Ok((key_ranges, s2)) => match <Vec<ConstraintIndex> as DeserializeBytes>::parse(
                s2,
            ) {
                Err(e) => Err(e),
                Ok((constraint_indices, s3)) => match <DenseShiftEncoding as DeserializeBytes>::parse(
                s3) {
                    Err(e) => Err(e),
                    Ok((sequences, s4)) => Ok(
                        (SegmentModel { keys, key_ranges, constraint_indices, sequences }, s4),
                    ),
                },
            },
        },
    }
}

impl SerializeBytes for KeySegment {
    type Contents = SegmentModel;

    open spec fn contents(&self) -> SegmentModel {
        SegmentModel {
            keys: self.keys.contents(),
            key_ranges: self.key_ranges.contents(),
            constraint_indices: self.constraint_indices.contents(),
            sequences: self.dense_shift_enc.contents(),
        }
    }

    open spec fn encoded(&self) -> Seq<u8> {
        segment_bytes(self)
    }

    open spec fn encodable(&self) -> bool {
        &&& self.keys.encodable()
        &&& self.key_ranges.encodable()
        &&& self.constraint_indices.encodable()
        &&& self.dense_shift_enc.encodable()
    }

    fn serialize(&self, buf: &mut Vec<u8>) -> (r: Result<(), SerializationError>) {
        match self.keys.serialize(buf) {
            Ok(_) => {},
            Err(e) => {
                return Err(e);
            },
        }
        match self.key_ranges.serialize(buf) {
            Ok(_) => {},
            Err(e) => {
                return Err(e);
            },
        }
        match self.constraint_indices.serialize(buf) {
            Ok(_) => {},
            Err(e) => {
                return Err(e);
            },
        }
        match self.dense_shift_enc.serialize(buf) {
            Ok(_) => {},
            Err(e) => {
                return Err(e);
            },
        }
        proof {
            reveal(segment_bytes);
        }
        assert(buf@ =~= old(buf)@ + self.encoded());
        Ok(())
    }
}

impl DeserializeBytes for KeySegment {
    open spec fn parse(s: Seq<u8>) -> Result<
        (SegmentModel, Seq<u8>),
        SerializationError,
    > {
        segment_parsed(s)
    }

    #[verifier::rlimit(40)]
    #[verifier::spinoff_prover]
    proof fn round_trip(&self, tail: Seq<u8>) {
        reveal(segment_bytes);
        reveal(segment_parsed);
        let t3 = self.dense_shift_enc.encoded() + tail;
        let t2 = self.constraint_indices.encoded() + t3;
        let t1 = self.key_ranges.encoded() + t2;
        let t0 = self.keys.encoded() + t1;
        self.keys.round_trip(t1);
        self.key_ranges.round_trip(t2);
        self.constraint_indices.round_trip(t3);
        self.dense_shift_enc.round_trip(tail);
        lemma_concat(
            self.keys.encoded(),
            self.key_ranges.encoded(),
            self.constraint_indices.encoded(),
            self.dense_shift_enc.encoded(),
            tail,
        );
    }

    fn deserialize(reader: &mut ByteReader<'_>) -> (r: Result<Self, SerializationError>) {
        proof {
            reveal(segment_parsed);
        }
        let keys = match <Vec<Key> as DeserializeBytes>::deserialize(reader) {
            Ok(keys) => keys,
            Err(e) => {
                return Err(e);
            },
        };
        let key_ranges = match <Vec<KeyRange> as DeserializeBytes>::deserialize(reader) {
            Ok(key_ranges) => key_ranges,
            Err(e) => {
                return Err(e);
            },
        };
        let constraint_indices = match <Vec<ConstraintIndex> as DeserializeBytes>::deserialize(
            reader,
        ) {
            Ok(constraint_indices) => constraint_indices,
            Err(e) => {
                return Err(e);
            },
        };
        let dense_shift_enc = match <DenseShiftEncoding as DeserializeBytes>::deserialize(reader) {
            Ok(dense_shift_enc) => dense_shift_enc,
            Err(e) => {
                return Err(e);
            },
        };
        Ok(KeySegment { keys, key_ranges, constraint_indices, dense_shift_enc })
    }
}

impl SerializeBytes for KeyCollection {
    type Contents = (SegmentModel, SegmentModel);

    open spec fn contents(&self) -> (SegmentModel, SegmentModel) {
        (self.public.contents(), self.hidden.contents())
    }

    open spec fn encoded(&self) -> Seq<u8> {
        KEY_COLLECTION_VERSION.encoded() + self.public.encoded() + self.hidden.encoded()
    }

    open spec fn encodable(&self) -> bool {
        self.public.encodable() && self.hidden.encodable()
    }

    fn serialize(&self, buf: &mut Vec<u8>) -> (r: Result<(), SerializationError>) {
        match KEY_COLLECTION_VERSION.serialize(buf) {
            Ok(_) => {},
            Err(e) => {
                return Err(e);
            },
        }
        match self.public.serialize(buf) {
            Ok(_) => {},
            Err(e) => {
                return Err(e);
            },
        }
        match self.hidden.serialize(buf) {
            Ok(_) => {},
            Err(e) => {
                return Err(e);
            },
        }
        assert(buf@ =~= old(buf)@ + self.encoded());
        Ok(())
    }
}

impl DeserializeBytes for KeyCollection {
    open spec fn parse(s: Seq<u8>) -> Result<
        ((SegmentModel, SegmentModel), Seq<u8>),
        SerializationError,
    > {
        match <u32 as DeserializeBytes>::parse(s) {
            Err(e) => Err(e),
            Ok((version, s0)) => if version != KEY_COLLECTION_VERSION {
                Err(SerializationError::InvalidConstruction { name: "KeyCollection::version" })
            } else {
                match <KeySegment as DeserializeBytes>::parse(s0) {
                    Err(e) => Err(e),
                    Ok((public, s1)) => match <KeySegment as DeserializeBytes>::parse(s1) {
                        Err(e) => Err(e),
                        Ok((hidden, s2)) => Ok(((public, hidden), s2)),
                    },
                }
            },
        }
    }

    proof fn round_trip(&self, tail: Seq<u8>) {
        let t1 = self.hidden.encoded() + tail;
        let t0 = self.public.encoded() + t1;
        self.public.round_trip(t1);
        self.hidden.round_trip(tail);
        KEY_COLLECTION_VERSION.round_trip(t0);
        assert(self.encoded() + tail =~= KEY_COLLECTION_VERSION.encoded() + t0);
    }

    fn deserialize(reader: &mut ByteReader<'_>) -> (r: Result<Self, SerializationError>) {
        let version = match u32::deserialize(reader) {
            Ok(version) => version,
            Err(e) => {
                return Err(e);
            },
        };
        if version != KEY_COLLECTION_VERSION {
            return Err(
                SerializationError::InvalidConstruction { name: "KeyCollection::version" },
            );
        }
        let public = match <KeySegment as DeserializeBytes>::deserialize(reader) {
            Ok(public) => public,
            Err(e) => {
                return Err(e);
            },
        };
        let hidden = match <KeySegment as DeserializeBytes>::deserialize(reader) {
            Ok(hidden) => hidden,
            Err(e) => {
                return Err(e);
            },
        };
        Ok(KeyCollection { public, hidden })
    }
}

/// What a segment's bytes say is the segment's contents.
pub proof fn segment_model_is_contents(segment: &KeySegment)
    ensures
        <KeySegment as SerializeBytes>::contents(segment) == (SegmentModel {
            keys: segment.keys@,
            key_ranges: segment.key_ranges@,
            constraint_indices: segment.constraint_indices@,
            sequences: segment.dense_shift_enc.sequences@,
        }),
{
    assert(segment.keys.contents() =~= segment.keys@);
    assert(segment.key_ranges.contents() =~= segment.key_ranges@);
    assert(segment.constraint_indices.contents() =~= segment.constraint_indices@);
    assert(segment.dense_shift_enc.contents() =~= segment.dense_shift_enc.sequences@);
}

/// A key collection survives being written and read back.
pub proof fn key_collection_survives_serialization(keys: &KeyCollection, tail: Seq<u8>)
    requires
        keys.encodable(),
    ensures
        KeyCollection::parse(keys.encoded() + tail) == Ok::<_, SerializationError>(
            (keys.contents(), tail),
        ),
{
    keys.round_trip(tail);
}

/// Lists end to end do not depend on how they are grouped.
proof fn lemma_concat(a: Seq<u8>, b: Seq<u8>, c: Seq<u8>, d: Seq<u8>, tail: Seq<u8>)
    ensures
        a + b + c + d + tail == a + (b + (c + (d + tail))),
{
    assert(a + b + c + d + tail =~= a + (b + (c + (d + tail))));
}

} // verus!
