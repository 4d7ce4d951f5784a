//! Encoding values to bytes and decoding them back.
//!
//! Decoding gives the value together with the number of bytes it took, so it
//! does not depend on the in-memory size of the type and serves recursive and
//! variable-length types alike. Encoding appends to a buffer, so
//! variable-length types need no extra allocation.

use vstd::prelude::*;
use crate::le_bytes::{u32_le, u64_le, u32_from_le, u64_from_le, u32_read_le, u64_read_le,
    push_u32_le, push_u64_le, lemma_u32_le_roundtrip, lemma_u64_le_roundtrip};
use super::error::DepMetadataError;

verus! {

/// Decoding from the bytes on disk.
pub trait DiskDecode: Sized + View {
    /// What decoding `bytes` gives: the value (by its view) and the number
    /// of bytes it took.
    spec fn parse(bytes: Seq<u8>) -> Result<(<Self as View>::V, int), DepMetadataError>;

    fn decode(bytes: &[u8]) -> (r: Result<(Self, usize), DepMetadataError>)
        ensures
            match r {
                Ok((x, n)) => n <= bytes@.len() && Self::parse(bytes@) == Ok::<
                    (<Self as View>::V, int),
                    DepMetadataError,
                >((x@, n as int)),
                Err(e) => Self::parse(bytes@) == Err::<(<Self as View>::V, int), DepMetadataError>(
                    e,
                ),
            },
    ;
}

/// Encoding by appending to a buffer.
pub trait DiskEncode: View {
    /// The bytes that encode a value (given by its view).
    spec fn encoding(v: <Self as View>::V) -> Seq<u8>;

    fn encode(&self, buf: &mut Vec<u8>)
        ensures
            final(buf)@ == old(buf)@ + Self::encoding(self@),
    ;
}

/// Types whose encoding decodes back to the value.
pub trait DiskCodec: DiskDecode + DiskEncode {
    /// Whether `v` can be written faithfully: every count in it fits in a `u32`.
    spec fn encodable(v: <Self as View>::V) -> bool;

    /// Decoding what was encoded gives the value back, whatever follows it,
    /// and takes exactly the encoding's bytes.
    proof fn lemma_roundtrip(v: <Self as View>::V, rest: Seq<u8>)
        requires
            Self::encodable(v),
        ensures
            Self::parse(Self::encoding(v) + rest) == Ok::<(<Self as View>::V, int), DepMetadataError>(
                (v, Self::encoding(v).len() as int),
            ),
    ;
}

/// The error for `bytes` holding fewer than `needed` bytes.
pub open spec fn unexpected_end(needed: usize, bytes: Seq<u8>) -> DepMetadataError {
    DepMetadataError::UnexpectedEnd { needed, available: bytes.len() as usize }
}

/// A value of type `T` read at `pos`, with the position right after it.
pub open spec fn field<T: DiskDecode>(bytes: Seq<u8>, pos: int) -> Result<(<T as View>::V, int), DepMetadataError> {
    match T::parse(bytes.subrange(pos, bytes.len() as int)) {
        Ok((v, n)) => Ok((v, pos + n)),
        Err(e) => Err(e),
    }
}

/// Reading a value back at the place where its encoding stands.
pub proof fn lemma_field<T: DiskCodec>(pre: Seq<u8>, v: <T as View>::V, post: Seq<u8>)
    requires
        T::encodable(v),
    ensures
        field::<T>(pre + T::encoding(v) + post, pre.len() as int) == Ok::<(<T as View>::V, int), DepMetadataError>(
            (v, (pre.len() + T::encoding(v).len()) as int),
        ),
{
    let data = pre + T::encoding(v) + post;
    assert(data.subrange(pre.len() as int, data.len() as int) =~= T::encoding(v) + post);
    T::lemma_roundtrip(v, post);
}

/// Reading a value back at the start of its encoding.
pub proof fn lemma_field_first<T: DiskCodec>(v: <T as View>::V, post: Seq<u8>)
    requires
        T::encodable(v),
    ensures
        field::<T>(T::encoding(v) + post, 0) == Ok::<(<T as View>::V, int), DepMetadataError>(
            (v, T::encoding(v).len() as int),
        ),
{
    let data = T::encoding(v) + post;
    assert(data.subrange(0, data.len() as int) =~= data);
    T::lemma_roundtrip(v, post);
}

// --- u32 and u64, little endian ---

impl DiskDecode for u32 {
    open spec fn parse(bytes: Seq<u8>) -> Result<(u32, int), DepMetadataError> {
        if bytes.len() < 4 {
            Err(unexpected_end(4, bytes))
        } else {
            Ok((u32_from_le(bytes.subrange(0, 4)), 4))
        }
    }

    fn decode(bytes: &[u8]) -> (r: Result<(u32, usize), DepMetadataError>) {
        if bytes.len() < 4 {
            return Err(DepMetadataError::UnexpectedEnd { needed: 4, available: bytes.len() });
        }
        Ok((u32_read_le(bytes, 0), 4))
    }
}

impl DiskEncode for u32 {
    open spec fn encoding(v: u32) -> Seq<u8> {
        u32_le(v)
    }

    fn encode(&self, buf: &mut Vec<u8>) {
        push_u32_le(buf, *self);
    }
}

impl DiskCodec for u32 {
    open spec fn encodable(v: u32) -> bool {
        true
    }

    proof fn lemma_roundtrip(v: u32, rest: Seq<u8>) {
        lemma_u32_le_roundtrip(v);
        assert((u32_le(v) + rest).subrange(0, 4) =~= u32_le(v));
    }
}

impl DiskDecode for u64 {
    open spec fn parse(bytes: Seq<u8>) -> Result<(u64, int), DepMetadataError> {
        if bytes.len() < 8 {
            Err(unexpected_end(8, bytes))
        } else {
            Ok((u64_from_le(bytes.subrange(0, 8)), 8))
        }
    }

    fn decode(bytes: &[u8]) -> (r: Result<(u64, usize), DepMetadataError>) {
        if bytes.len() < 8 {
            return Err(DepMetadataError::UnexpectedEnd { needed: 8, available: bytes.len() });
        }
        Ok((u64_read_le(bytes, 0), 8))
    }
}

impl DiskEncode for u64 {
    open spec fn encoding(v: u64) -> Seq<u8> {
        u64_le(v)
    }

    fn encode(&self, buf: &mut Vec<u8>) {
        push_u64_le(buf, *self);
    }
}

impl DiskCodec for u64 {
    open spec fn encodable(v: u64) -> bool {
        true
    }

    proof fn lemma_roundtrip(v: u64, rest: Seq<u8>) {
        lemma_u64_le_roundtrip(v);
        assert((u64_le(v) + rest).subrange(0, 8) =~= u64_le(v));
    }
}

// --- sequences of values ---

/// `count` values read one after the other from `pos` on, with the position
/// after them.
pub open spec fn parse_seq<T: DiskDecode>(bytes: Seq<u8>, pos: int, count: nat) -> Result<
    (Seq<<T as View>::V>, int),
    DepMetadataError,
>
    decreases count,
{
    if count == 0 {
        Ok((Seq::empty(), pos))
    } else {
        match parse_seq::<T>(bytes, pos, (count - 1) as nat) {
            Ok((vs, p)) => match T::parse(bytes.subrange(p, bytes.len() as int)) {
                Ok((v, n)) => Ok((vs.push(v), p + n)),
                Err(e) => Err(e),
            },
            Err(e) => Err(e),
        }
    }
}

/// Once reading a sequence fails, reading a longer one fails the same way.
pub proof fn lemma_parse_seq_stays_err<T: DiskDecode>(bytes: Seq<u8>, pos: int, k: nat, count: nat)
    requires
        k <= count,
        parse_seq::<T>(bytes, pos, k) is Err,
    ensures
        parse_seq::<T>(bytes, pos, count) == parse_seq::<T>(bytes, pos, k),
    decreases count,
{
    if count > k {
        lemma_parse_seq_stays_err::<T>(bytes, pos, k, (count - 1) as nat);
    }
}

/// The encodings of the values, one after the other.
pub open spec fn seq_encoding<T: DiskEncode>(vs: Seq<<T as View>::V>) -> Seq<u8>
    decreases vs.len(),
{
    if vs.len() == 0 {
        Seq::empty()
    } else {
        seq_encoding::<T>(vs.drop_last()) + T::encoding(vs.last())
    }
}

pub open spec fn all_encodable<T: DiskCodec>(vs: Seq<<T as View>::V>) -> bool {
    forall|i: int| 0 <= i < vs.len() ==> T::encodable(#[trigger] vs[i])
}

/// Reading back the encodings of some values, whatever stands around them,
/// gives the values and the position right after them.
pub proof fn lemma_parse_seq_encoding<T: DiskCodec>(pre: Seq<u8>, vs: Seq<<T as View>::V>, post: Seq<u8>)
    requires
        all_encodable::<T>(vs),
    ensures
        parse_seq::<T>(pre + seq_encoding::<T>(vs) + post, pre.len() as int, vs.len()) == Ok::<
            (Seq<<T as View>::V>, int),
            DepMetadataError,
        >((vs, (pre.len() + seq_encoding::<T>(vs).len()) as int)),
    decreases vs.len(),
{
    let data = pre + seq_encoding::<T>(vs) + post;
    if vs.len() == 0 {
        assert(vs =~= Seq::<<T as View>::V>::empty());
    } else {
        let init = vs.drop_last();
        let v = vs.last();
        assert(data =~= pre + seq_encoding::<T>(init) + (T::encoding(v) + post));
        assert(all_encodable::<T>(init)) by {
            assert forall|i: int| 0 <= i < init.len() implies T::encodable(#[trigger] init[i]) by {
                assert(init[i] == vs[i]);
            }
        }
        assert(T::encodable(vs[vs.len() - 1]));
        lemma_parse_seq_encoding::<T>(pre, init, T::encoding(v) + post);
        let p: int = (pre.len() + seq_encoding::<T>(init).len()) as int;
        assert(data.subrange(p, data.len() as int) =~= T::encoding(v) + post);
        T::lemma_roundtrip(v, post);
        assert(init.push(v) =~= vs);
    }
}

/// Decodes `count` values one after the other from `pos` on.
pub fn decode_seq<T: DiskDecode>(bytes: &[u8], pos: usize, count: u32) -> (r: Result<(Vec<T>, usize), DepMetadataError>)
    requires
        pos <= bytes@.len(),
    ensures
        match r {
            Ok((vs, p)) => p <= bytes@.len() && parse_seq::<T>(bytes@, pos as int, count as nat)
                == Ok::<(Seq<<T as View>::V>, int), DepMetadataError>(
                (vs@.map_values(|x: T| x@), p as int),
            ),
            Err(e) => parse_seq::<T>(bytes@, pos as int, count as nat) == Err::<
                (Seq<<T as View>::V>, int),
                DepMetadataError,
            >(e),
        },
{
    let mut values: Vec<T> = Vec::new();
    let mut p = pos;
    let mut i: u32 = 0;
    assert(values@.map_values(|x: T| x@) =~= Seq::<<T as View>::V>::empty());
    while i < count
        invariant
            i <= count,
            pos <= p <= bytes@.len(),
            parse_seq::<T>(bytes@, pos as int, i as nat) == Ok::<(Seq<<T as View>::V>, int), DepMetadataError>(
                (values@.map_values(|x: T| x@), p as int),
            ),
        decreases count - i,
    {
        let (val, consumed) = match T::decode(&bytes[p..bytes.len()]) {
            Ok(x) => x,
            Err(e) => {
                proof {
                    lemma_parse_seq_stays_err::<T>(bytes@, pos as int, (i + 1) as nat, count as nat);
                }
                return Err(e);
            },
        };
        let ghost before = values@;
        p = p + consumed;
        values.push(val);
        assert(values@.map_values(|x: T| x@) =~= before.map_values(|x: T| x@).push(val@));
        i = i + 1;
    }
    Ok((values, p))
}

/// Where every value is its own view, viewing a sequence element by element
/// changes nothing.
pub proof fn lemma_plain_views<T: View<V = T>>(v: Seq<T>)
    requires
        forall|x: T| #[trigger] x@ == x,
    ensures
        v.map_values(|x: T| x@) == v,
{
    assert(v.map_values(|x: T| x@) =~= v);
}

/// A length-prefixed sequence: `[len: u32][T; len]`, for fixed- and
/// variable-length `T` alike.
#[derive(Debug)]
pub struct DiskVec<T>(pub Vec<T>);

impl<T: View> View for DiskVec<T> {
    type V = Seq<<T as View>::V>;

    open spec fn view(&self) -> Seq<<T as View>::V> {
        self.0@.map_values(|x: T| x@)
    }
}

impl<T: DiskDecode> DiskDecode for DiskVec<T> {
    open spec fn parse(bytes: Seq<u8>) -> Result<(Seq<<T as View>::V>, int), DepMetadataError> {
        match <u32 as DiskDecode>::parse(bytes) {
            Err(e) => Err(e),
            Ok((len, n)) => parse_seq::<T>(bytes, n, len as nat),
        }
    }

    fn decode(bytes: &[u8]) -> (r: Result<(DiskVec<T>, usize), DepMetadataError>) {
        let (len, pos) = match u32::decode(bytes) {
            Ok(x) => x,
            Err(e) => return Err(e),
        };
        match decode_seq::<T>(bytes, pos, len) {
            Ok((values, p)) => Ok((DiskVec(values), p)),
            Err(e) => Err(e),
        }
    }
}

impl<T: DiskEncode> DiskEncode for DiskVec<T> {
    open spec fn encoding(vs: Seq<<T as View>::V>) -> Seq<u8> {
        u32_le(vs.len() as u32) + seq_encoding::<T>(vs)
    }

    fn encode(&self, buf: &mut Vec<u8>) {
        encode_counted(self.0.as_slice(), buf);
    }
}

/// Appends the number of `items` as a `u32`, then each item: the layout of
/// a `DiskVec`.
pub fn encode_counted<T: DiskEncode>(items: &[T], buf: &mut Vec<u8>)
    ensures
        final(buf)@ == old(buf)@ + <DiskVec<T> as DiskEncode>::encoding(items@.map_values(|x: T| x@)),
{
    let ghost vs = items@.map_values(|x: T| x@);
    (items.len() as u32).encode(buf);
    let ghost head = buf@;
    let mut i: usize = 0;
    assert(vs.take(0) =~= Seq::<<T as View>::V>::empty());
    assert(head + seq_encoding::<T>(vs.take(0)) =~= head);
    while i < items.len()
        invariant
            i <= items@.len(),
            vs == items@.map_values(|x: T| x@),
            buf@ == head + seq_encoding::<T>(vs.take(i as int)),
        decreases items@.len() - i,
    {
        items[i].encode(buf);
        proof {
            let t = vs.take(i + 1);
            assert(t.drop_last() =~= vs.take(i as int));
            assert(t.last() == items@[i as int]@);
            assert(buf@ =~= head + seq_encoding::<T>(t));
        }
        i = i + 1;
    }
    assert(vs.take(vs.len() as int) =~= vs);
}

impl<T: DiskCodec> DiskCodec for DiskVec<T> {
    open spec fn encodable(vs: Seq<<T as View>::V>) -> bool {
        vs.len() <= u32::MAX && all_encodable::<T>(vs)
    }

    proof fn lemma_roundtrip(vs: Seq<<T as View>::V>, rest: Seq<u8>) {
        let data = Self::encoding(vs) + rest;
        lemma_u32_le_roundtrip(vs.len() as u32);
        assert(data.subrange(0, 4) =~= u32_le(vs.len() as u32));
        assert(data =~= u32_le(vs.len() as u32) + seq_encoding::<T>(vs) + rest);
        lemma_parse_seq_encoding::<T>(u32_le(vs.len() as u32), vs, rest);
    }
}

} // verus!
