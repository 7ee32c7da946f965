//! A byte format for plain data: little-endian integers, and lists behind their length.

use vstd::prelude::*;

verus! {

/// Why writing or reading bytes failed.
#[derive(Clone, Copy, Debug, PartialEq, Eq)]
pub enum SerializationError {
    /// The bytes end before the value does.
    NotEnoughBytes,
    /// A tag byte names no variant.
    UnknownEnumVariant { name: &'static str, index: u8 },
    /// The parts do not make up a value.
    InvalidConstruction { name: &'static str },
}

/// A position in a list of bytes.
pub struct ByteReader<'a> {
    pub bytes: &'a [u8],
    pub position: usize,
}

impl<'a> ByteReader<'a> {
    /// The position lies within the bytes.
    pub open spec fn wf(&self) -> bool {
        self.position <= self.bytes.len()
    }

    /// The bytes still to read.
    pub open spec fn rest(&self) -> Seq<u8> {
        self.bytes@.skip(self.position as int)
    }

    /// A reader at the start of some bytes.
    pub fn new(bytes: &'a [u8]) -> (r: Self)
        ensures
            r.wf(),
            r.rest() == bytes@,
    {
        let r = ByteReader { bytes, position: 0 };
        assert(r.rest() =~= bytes@);
        r
    }

    /// The next byte.
    pub fn next(&mut self) -> (r: Option<u8>)
        requires
            old(self).wf(),
        ensures
            final(self).wf(),
            match r {
                Some(b) => old(self).rest().len() > 0 && b == old(self).rest()[0] && final(self).rest() == old(self).rest().skip(1),
                None => old(self).rest().len() == 0 && final(self).rest() == old(self).rest(),
            },
    {
        if self.position < self.bytes.len() {
            let b = self.bytes[self.position];
            self.position = self.position + 1;
            assert(self.rest() =~= old(self).rest().skip(1));
            Some(b)
        } else {
            None
        }
    }
}

/// A value that has a byte form.
pub trait SerializeBytes: Sized {
    /// What the bytes say about the value.
    type Contents;

    /// What the value stands for.
    spec fn contents(&self) -> Self::Contents;

    /// The byte form.
    spec fn encoded(&self) -> Seq<u8>;

    /// Whether the value has a byte form: every list's length fits 32 bits.
    spec fn encodable(&self) -> bool;

    /// Appends the byte form.
    fn serialize(&self, buf: &mut Vec<u8>) -> (r: Result<(), SerializationError>)
        ensures
            r is Ok <==> self.encodable(),
            r matches Err(e) ==> e == (SerializationError::InvalidConstruction { name: "length" }),
            r is Ok ==> final(buf)@ == old(buf)@ + self.encoded(),
    ;
}

/// A value that can be read back from its byte form.
pub trait DeserializeBytes: SerializeBytes {
    /// The value at the start of some bytes, and the bytes after it; or what is wrong with them.
    spec fn parse(s: Seq<u8>) -> Result<(Self::Contents, Seq<u8>), SerializationError>;

    /// Reading gives back what was written.
    proof fn round_trip(&self, tail: Seq<u8>)
        requires
            self.encodable(),
        ensures
            Self::parse(self.encoded() + tail) == Ok::<_, SerializationError>(
                (self.contents(), tail),
            ),
    ;

    /// Reads the value at the start of the bytes.
    fn deserialize(reader: &mut ByteReader<'_>) -> (r: Result<Self, SerializationError>)
        requires
            old(reader).wf(),
        ensures
            final(reader).wf(),
            match r {
                Ok(v) => Self::parse(old(reader).rest()) == Ok::<_, SerializationError>(
                    (v.contents(), final(reader).rest()),
                ),
                Err(e) => Self::parse(old(reader).rest()) == Err::<
                    (Self::Contents, Seq<u8>),
                    _,
                >(e),
            },
    ;
}

impl SerializeBytes for u8 {
    type Contents = u8;

    open spec fn contents(&self) -> u8 {
        *self
    }

    open spec fn encoded(&self) -> Seq<u8> {
        seq![*self]
    }

    open spec fn encodable(&self) -> bool {
        true
    }

    fn serialize(&self, buf: &mut Vec<u8>) -> (r: Result<(), SerializationError>) {
        buf.push(*self);
        assert(buf@ =~= old(buf)@ + self.encoded());
        Ok(())
    }
}

impl DeserializeBytes for u8 {
    open spec fn parse(s: Seq<u8>) -> Result<(u8, Seq<u8>), SerializationError> {
        if s.len() == 0 {
            Err(SerializationError::NotEnoughBytes)
        } else {
            Ok((s[0], s.skip(1)))
        }
    }

    proof fn round_trip(&self, tail: Seq<u8>) {
        assert((self.encoded() + tail).skip(1) =~= tail);
    }

    fn deserialize(reader: &mut ByteReader<'_>) -> (r: Result<Self, SerializationError>) {
        let ghost s = reader.rest();
        match reader.next() {
            Some(b) => {
                assert(<u8 as DeserializeBytes>::parse(s) == Ok::<_, SerializationError>(
                    (b, s.skip(1)),
                ));
                assert(b.contents() == b);
                Ok(b)
            },
            None => Err(SerializationError::NotEnoughBytes),
        }
    }
}

/// The number four bytes stand for, the first least significant.
pub open spec fn le_value(s: Seq<u8>) -> int {
    s[0] + 0x100 * s[1] + 0x10000 * s[2] + 0x1000000 * s[3]
}

impl SerializeBytes for u32 {
    type Contents = u32;

    open spec fn contents(&self) -> u32 {
        *self
    }

    open spec fn encoded(&self) -> Seq<u8> {
        seq![
            (*self % 0x100) as u8,
            ((*self / 0x100) % 0x100) as u8,
            ((*self / 0x10000) % 0x100) as u8,
            (*self / 0x1000000) as u8,
        ]
    }

    open spec fn encodable(&self) -> bool {
        true
    }

    fn serialize(&self, buf: &mut Vec<u8>) -> (r: Result<(), SerializationError>) {
        buf.push((*self % 0x100) as u8);
        buf.push(((*self / 0x100) % 0x100) as u8);
        buf.push(((*self / 0x10000) % 0x100) as u8);
        buf.push((*self / 0x1000000) as u8);
        assert(buf@ =~= old(buf)@ + self.encoded());
        Ok(())
    }
}

impl DeserializeBytes for u32 {
    open spec fn parse(s: Seq<u8>) -> Result<(u32, Seq<u8>), SerializationError> {
        if s.len() < 4 {
            Err(SerializationError::NotEnoughBytes)
        } else {
            Ok((le_value(s) as u32, s.skip(4)))
        }
    }

    proof fn round_trip(&self, tail: Seq<u8>) {
        let s = self.encoded() + tail;
        assert(s.skip(4) =~= tail);
        assert(le_value(s) == *self);
    }

    fn deserialize(reader: &mut ByteReader<'_>) -> (r: Result<Self, SerializationError>) {
        let ghost s = reader.rest();
        let mut b: [u8; 4] = [0; 4];
        let mut i: usize = 0;
        assert(s.skip(0) =~= s);
        while i < 4
            invariant
                i <= 4,
                reader.wf(),
                s == old(reader).rest(),
                i <= s.len(),
                reader.rest() == s.skip(i as int),
                forall|k: int| 0 <= k < i ==> #[trigger] b[k] == s[k],
            decreases 4 - i,
        {
            match reader.next() {
                Some(x) => {
                    b[i] = x;
                    assert(s.skip(i as int).skip(1) =~= s.skip(i + 1));
                },
                None => {
                    return Err(SerializationError::NotEnoughBytes);
                },
            }
            i = i + 1;
        }
        assert(b[0] == s[0] && b[1] == s[1] && b[2] == s[2] && b[3] == s[3]);
        let value: u32 = b[0] as u32 + 0x100 * b[1] as u32 + 0x10000 * b[2] as u32 + 0x1000000
            * b[3] as u32;
        Ok(value)
    }
}

/// A value whose byte form always has the same length.
pub trait FixedSizeSerializeBytes: SerializeBytes {
    /// The length of the byte form.
    const BYTE_SIZE: usize;

    /// The byte form exists and has that length.
    proof fn fixed_size(&self)
        ensures
            self.encodable(),
            self.encoded().len() == Self::BYTE_SIZE,
    ;
}

/// Byte `i` of a number, the first least significant.
pub open spec fn le_byte(x: int, i: int) -> u8
    decreases i,
{
    if i <= 0 {
        (x % 0x100) as u8
    } else {
        le_byte(x / 0x100, i - 1)
    }
}

impl SerializeBytes for u128 {
    type Contents = u128;

    open spec fn contents(&self) -> u128 {
        *self
    }

    open spec fn encoded(&self) -> Seq<u8> {
        Seq::new(16, |i: int| le_byte(*self as int, i))
    }

    open spec fn encodable(&self) -> bool {
        true
    }

    fn serialize(&self, buf: &mut Vec<u8>) -> (r: Result<(), SerializationError>) {
        let ghost before = buf@;
        let ghost own = self.encoded();
        let mut x: u128 = *self;
        let mut i: usize = 0;
        assert(before + own.take(0) =~= before);
        while i < 16
            invariant
                i <= 16,
                own == self.encoded(),
                buf@ == before + own.take(i as int),
                forall|k: int|
                    i <= k < 16 ==> #[trigger] own[k] == le_byte(x as int, k - i),
            decreases 16 - i,
        {
            assert(own[i as int] == le_byte(x as int, 0));
            buf.push((x % 0x100) as u8);
            proof {
                assert(buf@ =~= before + own.take(i + 1));
                assert forall|k: int| i + 1 <= k < 16 implies #[trigger] own[k] == le_byte(
                    (x / 0x100) as int,
                    k - (i + 1),
                ) by {
                    assert(own[k] == le_byte(x as int, k - i));
                }
            }
            x = x / 0x100;
            i = i + 1;
        }
        assert(own.take(16) =~= own);
        Ok(())
    }
}

impl FixedSizeSerializeBytes for u128 {
    const BYTE_SIZE: usize = 16;

    proof fn fixed_size(&self) {
    }
}

/// The byte forms of a list's items, one after the other.
pub open spec fn encoded_items<T: SerializeBytes>(items: Seq<T>) -> Seq<u8>
    decreases items.len(),
{
    if items.len() == 0 {
        Seq::empty()
    } else {
        encoded_items(items.drop_last()) + items.last().encoded()
    }
}

/// What a list's items stand for.
pub open spec fn item_contents<T: SerializeBytes>(items: Seq<T>) -> Seq<T::Contents> {
    Seq::new(items.len(), |i: int| items[i].contents())
}

/// The first `n` items at the start of some bytes, and the bytes after them; or what is wrong with
/// the first bad item.
pub open spec fn parse_items<T: DeserializeBytes>(s: Seq<u8>, n: nat) -> Result<
    (Seq<T::Contents>, Seq<u8>),
    SerializationError,
>
    decreases n,
{
    if n == 0 {
        Ok((Seq::empty(), s))
    } else {
        match parse_items::<T>(s, (n - 1) as nat) {
            Err(e) => Err(e),
            Ok((done, rest)) => match T::parse(rest) {
                Err(e) => Err(e),
                Ok((item, rest)) => Ok((done.push(item), rest)),
            },
        }
    }
}

/// Fewer items than can be read can be read.
proof fn lemma_parse_fewer<T: DeserializeBytes>(s: Seq<u8>, m: nat, n: nat)
    requires
        m <= n,
        parse_items::<T>(s, m) is Err,
    ensures
        parse_items::<T>(s, n) == parse_items::<T>(s, m),
    decreases n,
{
    if m < n {
        lemma_parse_fewer::<T>(s, m, (n - 1) as nat);
    }
}

/// Reading items gives back what was written.
proof fn lemma_items_round_trip<T: DeserializeBytes>(items: Seq<T>, tail: Seq<u8>)
    requires
        forall|i: int| 0 <= i < items.len() ==> (#[trigger] items[i]).encodable(),
    ensures
        parse_items::<T>(encoded_items(items) + tail, items.len()) == Ok::<_, SerializationError>(
            (item_contents(items), tail),
        ),
    decreases items.len(),
{
    if items.len() == 0 {
        assert(encoded_items(items) + tail =~= tail);
        assert(item_contents(items) =~= Seq::<T::Contents>::empty());
    } else {
        let (init, last) = (items.drop_last(), items.last());
        assert forall|i: int| 0 <= i < init.len() implies (#[trigger] init[i]).encodable() by {
            assert(items[i].encodable());
        }
        lemma_items_round_trip(init, last.encoded() + tail);
        assert(encoded_items(init) + (last.encoded() + tail) =~= encoded_items(items) + tail);
        assert(items[items.len() - 1].encodable());
        last.round_trip(tail);
        assert(item_contents(init).push(last.contents()) =~= item_contents(items));
    }
}

impl<T: SerializeBytes> SerializeBytes for Vec<T> {
    type Contents = Seq<T::Contents>;

    open spec fn contents(&self) -> Seq<T::Contents> {
        item_contents(self@)
    }

    open spec fn encoded(&self) -> Seq<u8> {
        (self.len() as u32).encoded() + encoded_items(self@)
    }

    open spec fn encodable(&self) -> bool {
        &&& self.len() <= u32::MAX
        &&& forall|i: int| 0 <= i < self.len() ==> (#[trigger] self@[i]).encodable()
    }

    fn serialize(&self, buf: &mut Vec<u8>) -> (r: Result<(), SerializationError>) {
        if self.len() > 0xffff_ffff {
            return Err(SerializationError::InvalidConstruction { name: "length" });
        }
        let n: u32 = self.len() as u32;
        match n.serialize(buf) {
            Ok(_) => {},
            Err(e) => {
                return Err(e);
            },
        }
        let ghost start = buf@;
        let mut i: usize = 0;
        proof {
            assert(self@.take(0) =~= Seq::<T>::empty());
            assert(start + Seq::<u8>::empty() =~= start);
        }
        while i < self.len()
            invariant
                i <= self.len(),
                self.len() <= u32::MAX,
                buf@ == start + encoded_items(self@.take(i as int)),
                forall|k: int| 0 <= k < i ==> (#[trigger] self@[k]).encodable(),
            decreases self.len() - i,
        {
            match self[i].serialize(buf) {
                Ok(_) => {},
                Err(e) => {
                    assert(!self@[i as int].encodable());
                    return Err(e);
                },
            }
            proof {
                let done = self@.take(i + 1);
                assert(done.drop_last() =~= self@.take(i as int));
                assert(buf@ =~= start + encoded_items(done));
            }
            i = i + 1;
        }
        proof {
            assert(self@.take(i as int) =~= self@);
            assert(buf@ =~= old(buf)@ + self.encoded());
        }
        Ok(())
    }
}

impl<T: DeserializeBytes> DeserializeBytes for Vec<T> {
    open spec fn parse(s: Seq<u8>) -> Result<
        (Seq<T::Contents>, Seq<u8>),
        SerializationError,
    > {
        match u32::parse(s) {
            Err(e) => Err(e),
            Ok((n, rest)) => parse_items::<T>(rest, n as nat),
        }
    }

    proof fn round_trip(&self, tail: Seq<u8>) {
        let n = self.len() as u32;
        n.round_trip(encoded_items(self@) + tail);
        assert(n.encoded() + (encoded_items(self@) + tail) =~= self.encoded() + tail);
        lemma_items_round_trip(self@, tail);
    }

    fn deserialize(reader: &mut ByteReader<'_>) -> (r: Result<Self, SerializationError>) {
        let n = match u32::deserialize(reader) {
            Ok(n) => n,
            Err(e) => {
                return Err(e);
            },
        };
        let ghost s = reader.rest();
        let mut items: Vec<T> = Vec::new();
        let mut i: u32 = 0;
        assert(item_contents(items@) =~= Seq::<T::Contents>::empty());
        while i < n
            invariant
                i <= n,
                reader.wf(),
                u32::parse(old(reader).rest()) == Ok::<_, SerializationError>((n, s)),
                items.len() == i,
                parse_items::<T>(s, i as nat) == Ok::<_, SerializationError>(
                    (item_contents(items@), reader.rest()),
                ),
            decreases n - i,
        {
            let ghost before = items@;
            match T::deserialize(reader) {
                Ok(item) => {
                    items.push(item);
                    assert(item_contents(items@) =~= item_contents(before).push(item.contents()));
                },
                Err(e) => {
                    proof {
                        assert(parse_items::<T>(s, (i + 1) as nat) == Err::<
                            (Seq<T::Contents>, Seq<u8>),
                            _,
                        >(e));
                        lemma_parse_fewer::<T>(s, (i + 1) as nat, n as nat);
                    }
                    return Err(e);
                },
            }
            i = i + 1;
        }
        Ok(items)
    }
}

} // verus!
