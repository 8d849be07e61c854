//! Keys and tuples as stored in pages.
//!
//! A tuple is laid out as `[size: u16 | key_size: u16 | key bytes | value bytes]`,
//! all integers big-endian, where `size` counts every byte of the tuple.
use vstd::prelude::*;

use crate::codec::{u16_at, u16_be, u16_to_be, lemma_u16_roundtrip};

verus! {

/// A byte string is a well-formed tuple: its size field is its length and
/// the key fits inside it.
pub open spec fn tuple_wf(b: Seq<u8>) -> bool {
    &&& 4 <= b.len() <= 0xffff
    &&& u16_at(b, 0) as int == b.len()
    &&& 4 + u16_at(b, 2) <= b.len()
}

/// The key bytes of a tuple.
pub open spec fn tuple_key(b: Seq<u8>) -> Seq<u8> {
    b.subrange(4, 4 + u16_at(b, 2) as int)
}

/// The value bytes of a tuple.
pub open spec fn tuple_value(b: Seq<u8>) -> Seq<u8> {
    b.subrange(4 + u16_at(b, 2) as int, b.len() as int)
}

/// The bytes of the tuple holding `key` and `value`.
pub open spec fn tuple_encoding(key: Seq<u8>, value: Seq<u8>) -> Seq<u8> {
    u16_be((key.len() + value.len() + 4) as u16) + u16_be(key.len() as u16) + key + value
}

/// A key: a big-endian `u16` size field followed by the key bytes.
#[derive(Debug, PartialEq)]
pub struct Key(pub Vec<u8>);

impl Key {
    /// The key's size field.
    pub fn size(&self) -> (r: u16)
        requires
            self.0@.len() >= 2,
        ensures
            r == u16_at(self.0@, 0),
    {
        crate::codec::read_u16(self.0.as_slice(), 0)
    }

    /// The key bytes that follow the size field.
    pub fn bytes(&self) -> (r: &[u8])
        requires
            self.0@.len() >= 2,
        ensures
            r@ == self.0@.subrange(2, self.0@.len() as int),
    {
        let s = self.0.as_slice();
        &s[2..s.len()]
    }

    /// An owned key built, as `KeyBuf::new` builds one, from all of this key's
    /// bytes: they get a size field of their own in front.
    pub fn to_owned(&self) -> (r: KeyBuf)
        requires
            self.0@.len() + 2 <= usize::MAX,
        ensures
            r.spec_bytes() == u16_be((self.0@.len() + 2) as u16) + self.0@,
    {
        KeyBuf::new(self.0.as_slice())
    }
}

/// An owned key built from raw key bytes.
#[derive(Debug, PartialEq)]
pub struct KeyBuf {
    key: Key,
}

impl KeyBuf {
    /// The key this buffer holds.
    pub closed spec fn spec_key(&self) -> Key {
        self.key
    }

    /// The bytes of this key, size field included.
    pub open spec fn spec_bytes(&self) -> Seq<u8> {
        self.spec_key().0@
    }

    /// Builds a key whose size field is `key.len() + 2` (truncated to 16 bits)
    /// followed by the key bytes.
    pub fn new(key: &[u8]) -> (r: Self)
        requires
            key@.len() + 2 <= usize::MAX,
        ensures
            r.spec_bytes() == u16_be((key@.len() + 2) as u16) + key@,
    {
        let size = key.len() + 2;
        let mut data: Vec<u8> = Vec::with_capacity(size);
        let header = u16_to_be(size as u16);
        data.push(header[0]);
        data.push(header[1]);
        let mut i: usize = 0;
        while i < key.len()
            invariant
                0 <= i <= key@.len(),
                data@ == u16_be(size as u16) + key@.subrange(0, i as int),
            decreases key@.len() - i,
        {
            data.push(key[i]);
            assert(key@.subrange(0, i + 1) =~= key@.subrange(0, i as int).push(key@[i as int]));
            i = i + 1;
        }
        assert(key@.subrange(0, key@.len() as int) =~= key@);
        KeyBuf { key: Key(data) }
    }

    /// The key this buffer holds.
    pub fn key(&self) -> (r: &Key)
        ensures
            r.0@ == self.spec_bytes(),
    {
        &self.key
    }
}

/// A tuple: `[size: u16 | key_size: u16 | key | value]`.
#[derive(Debug, PartialEq)]
pub struct Tuple(pub Vec<u8>);

impl Tuple {
    /// The tuple's size field.
    pub fn size(&self) -> (r: u16)
        requires
            self.0@.len() >= 2,
        ensures
            r == u16_at(self.0@, 0),
    {
        crate::codec::read_u16(self.0.as_slice(), 0)
    }

    /// The tuple's key-size field.
    pub fn key_size(&self) -> (r: u16)
        requires
            self.0@.len() >= 4,
        ensures
            r == u16_at(self.0@, 2),
    {
        crate::codec::read_u16(self.0.as_slice(), 2)
    }

    /// The key, with its size field (the tuple's key-size field) in front.
    pub fn key(&self) -> (r: Key)
        requires
            self.0@.len() >= 4,
            4 + u16_at(self.0@, 2) <= self.0@.len(),
        ensures
            r.0@ == self.0@.subrange(2, 4 + u16_at(self.0@, 2) as int),
            r.0@.subrange(2, r.0@.len() as int) == tuple_key(self.0@),
    {
        let key_size = self.key_size() as usize;
        let s = self.0.as_slice();
        let r = Key(slice_to_vec(&s[2..4 + key_size]));
        assert(r.0@.subrange(2, r.0@.len() as int) =~= tuple_key(self.0@));
        r
    }

    /// The key bytes, without the size field in front.
    pub fn key_bytes(&self) -> (r: &[u8])
        requires
            self.0@.len() >= 4,
            4 + u16_at(self.0@, 2) <= self.0@.len(),
        ensures
            r@ == tuple_key(self.0@),
    {
        let key_size = self.key_size() as usize;
        let s = self.0.as_slice();
        &s[4..4 + key_size]
    }

    /// The value bytes.
    pub fn value(&self) -> (r: &[u8])
        requires
            self.0@.len() >= 4,
            4 + u16_at(self.0@, 2) <= self.0@.len(),
        ensures
            r@ == tuple_value(self.0@),
    {
        let key_size = self.key_size() as usize;
        let s = self.0.as_slice();
        &s[4 + key_size..s.len()]
    }

    /// The number of bytes in the tuple.
    pub fn len(&self) -> (r: usize)
        ensures
            r == self.0@.len(),
    {
        self.0.len()
    }

    /// An owned copy of the tuple.
    pub fn to_owned(&self) -> (r: TupleBuf)
        ensures
            r.tuple.0@ == self.0@,
    {
        TupleBuf { tuple: Tuple(self.0.clone()) }
    }
}

/// An owned tuple.
#[derive(Debug, PartialEq)]
pub struct TupleBuf {
    pub tuple: Tuple,
}

impl TupleBuf {
    /// Builds the tuple holding `key` and `value`; the size fields are
    /// truncated to 16 bits.
    pub fn new(key: &[u8], value: &[u8]) -> (r: Self)
        requires
            key@.len() + value@.len() + 4 <= usize::MAX,
        ensures
            r.tuple.0@ == tuple_encoding(key@, value@),
    {
        let size = key.len() + value.len() + 4;
        let mut data: Vec<u8> = Vec::with_capacity(size);
        let h1 = u16_to_be(size as u16);
        let h2 = u16_to_be(key.len() as u16);
        data.push(h1[0]);
        data.push(h1[1]);
        data.push(h2[0]);
        data.push(h2[1]);
        assert(data@ =~= u16_be(size as u16) + u16_be(key@.len() as u16));
        extend(&mut data, key);
        extend(&mut data, value);
        r_tuple(data)
    }

    /// The tuple this buffer holds.
    pub fn tuple(&self) -> (r: &Tuple)
        ensures
            r.0@ == self.tuple.0@,
    {
        &self.tuple
    }
}

fn r_tuple(data: Vec<u8>) -> (r: TupleBuf)
    ensures
        r.tuple.0@ == data@,
{
    TupleBuf { tuple: Tuple(data) }
}

impl core::ops::Deref for TupleBuf {
    type Target = Tuple;

    fn deref(&self) -> (r: &Tuple)
        ensures
            *r == self.tuple,
    {
        &self.tuple
    }
}

impl core::ops::Deref for KeyBuf {
    type Target = Key;

    fn deref(&self) -> (r: &Key)
        ensures
            *r == self.spec_key(),
    {
        &self.key
    }
}

impl core::borrow::Borrow<Tuple> for TupleBuf {
    fn borrow(&self) -> &Tuple
        returns
            &self.tuple,
    {
        &self.tuple
    }
}

impl core::borrow::Borrow<Key> for KeyBuf {
    fn borrow(&self) -> &Key
        returns
            &self.spec_key(),
    {
        &self.key
    }
}

/// Appends `src` to `dst`.
pub fn extend(dst: &mut Vec<u8>, src: &[u8])
    ensures
        final(dst)@ == old(dst)@ + src@,
{
    let mut i: usize = 0;
    while i < src.len()
        invariant
            0 <= i <= src@.len(),
            dst@ == old(dst)@ + src@.subrange(0, i as int),
        decreases src@.len() - i,
    {
        dst.push(src[i]);
        assert(src@.subrange(0, i + 1) =~= src@.subrange(0, i as int).push(src@[i as int]));
        i = i + 1;
    }
    assert(src@.subrange(0, src@.len() as int) =~= src@);
}

/// Copies a slice into a new vector.
pub fn slice_to_vec(src: &[u8]) -> (r: Vec<u8>)
    ensures
        r@ == src@,
{
    let mut v: Vec<u8> = Vec::with_capacity(src.len());
    extend(&mut v, src);
    assert(v@ =~= src@);
    v
}

/// A tuple built by `tuple_encoding` is well formed when its size fits in 16 bits,
/// and its key and value read back.
pub proof fn lemma_tuple_encoding(key: Seq<u8>, value: Seq<u8>)
    requires
        key.len() + value.len() + 4 <= 0xffff,
    ensures
        tuple_wf(tuple_encoding(key, value)),
        tuple_key(tuple_encoding(key, value)) == key,
        tuple_value(tuple_encoding(key, value)) == value,
{
    let t = tuple_encoding(key, value);
    lemma_u16_roundtrip((key.len() + value.len() + 4) as u16);
    lemma_u16_roundtrip(key.len() as u16);
    let a = u16_be((key.len() + value.len() + 4) as u16);
    let b = u16_be(key.len() as u16);
    assert(t.subrange(0, 2) =~= a);
    assert(t.subrange(2, 4) =~= b);
    assert(u16_at(t, 0) == u16_at(a, 0));
    assert(u16_at(t, 2) == u16_at(b, 0));
    assert(tuple_key(t) =~= key);
    assert(tuple_value(t) =~= value);
}

} // verus!
