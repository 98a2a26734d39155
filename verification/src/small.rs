//! Vectors that keep a few items inline.
use vstd::prelude::*;

use smallvec::SmallVec;

use crate::text::{be_bytes, be_bytes_u32};

verus! {

/// A buffer of bytes, the first few of them inline.
#[verifier::external_body]
pub struct ByteBuf {
    inner: SmallVec<[u8; 32]>,
}

/// The bytes of a buffer, in order.
pub uninterp spec fn buf_bytes(b: ByteBuf) -> Seq<u8>;

impl View for ByteBuf {
    type V = Seq<u8>;

    open spec fn view(&self) -> Seq<u8> {
        buf_bytes(*self)
    }
}

impl ByteBuf {
    /// `smallvec::SmallVec::new` makes a vector without items.
    #[verifier::external_body]
    pub(crate) fn new() -> (b: ByteBuf)
        ensures
            buf_bytes(b) == Seq::<u8>::empty(),
    {
        ByteBuf { inner: SmallVec::new() }
    }

    /// `smallvec::SmallVec::push` puts one item at the end.
    #[verifier::external_body]
    pub(crate) fn push(&mut self, x: u8)
        ensures
            buf_bytes(*final(self)) == buf_bytes(*old(self)).push(x),
    {
        self.inner.push(x);
    }

    /// `smallvec::SmallVec::as_slice` lends the items, in order.
    #[verifier::external_body]
    pub(crate) fn as_slice(&self) -> (s: &[u8])
        ensures
            s@ == buf_bytes(*self),
    {
        self.inner.as_slice()
    }

    /// Puts the big-endian bytes of `x` at the end.
    pub fn put_u32(&mut self, x: u32)
        ensures
            final(self)@ == old(self)@ + be_bytes_u32(x),
    {
        self.push((x >> 24) as u8);
        self.push((x >> 16) as u8);
        self.push((x >> 8) as u8);
        self.push(x as u8);
        assert(self@ =~= old(self)@ + be_bytes_u32(x));
    }

    /// Puts the big-endian bytes of `x` at the end.
    pub fn put_u64(&mut self, x: u64)
        ensures
            final(self)@ == old(self)@ + be_bytes(x),
    {
        self.push((x >> 56) as u8);
        self.push((x >> 48) as u8);
        self.push((x >> 40) as u8);
        self.push((x >> 32) as u8);
        self.push((x >> 24) as u8);
        self.push((x >> 16) as u8);
        self.push((x >> 8) as u8);
        self.push(x as u8);
        assert(self@ =~= old(self)@ + be_bytes(x));
    }

    /// Puts the given bytes at the end.
    pub fn put_all(&mut self, bytes: &[u8])
        ensures
            final(self)@ == old(self)@ + bytes@,
    {
        let mut i: usize = 0;
        assert(self@ =~= old(self)@ + bytes@.take(0));
        while i < bytes.len()
            invariant
                i <= bytes@.len(),
                self@ == old(self)@ + bytes@.take(i as int),
            decreases bytes@.len() - i,
        {
            self.push(bytes[i]);
            assert(bytes@.take(i + 1) =~= bytes@.take(i as int).push(bytes@[i as int]));
            assert(self@ =~= old(self)@ + bytes@.take(i + 1));
            i += 1;
        }
        assert(bytes@.take(i as int) =~= bytes@);
    }
}

/// A list of node numbers, the first few of them inline.
#[verifier::external_body]
pub struct IdList {
    inner: SmallVec<[u32; 4]>,
}

/// The numbers of a list, in order.
pub uninterp spec fn list_ids(l: IdList) -> Seq<u32>;

impl View for IdList {
    type V = Seq<u32>;

    open spec fn view(&self) -> Seq<u32> {
        list_ids(*self)
    }
}

impl IdList {
    /// `smallvec::SmallVec::new` makes a vector without items.
    #[verifier::external_body]
    pub(crate) fn new() -> (l: IdList)
        ensures
            list_ids(l) == Seq::<u32>::empty(),
    {
        IdList { inner: SmallVec::new() }
    }

    /// `smallvec::SmallVec::push` puts one item at the end.
    #[verifier::external_body]
    pub(crate) fn push(&mut self, x: u32)
        ensures
            list_ids(*final(self)) == list_ids(*old(self)).push(x),
    {
        self.inner.push(x);
    }

    /// `smallvec::SmallVec::as_slice` lends the items, in order.
    #[verifier::external_body]
    pub(crate) fn as_slice(&self) -> (s: &[u32])
        ensures
            s@ == list_ids(*self),
    {
        self.inner.as_slice()
    }

    /// The number of items.
    pub fn len(&self) -> (n: usize)
        ensures
            n == self@.len(),
    {
        self.as_slice().len()
    }

    /// The item at position `i`.
    pub fn get(&self, i: usize) -> (x: Option<u32>)
        ensures
            x == if i < self@.len() {
                Some(self@[i as int])
            } else {
                None
            },
    {
        let s: &[u32] = self.as_slice();
        if i < s.len() {
            Some(s[i])
        } else {
            None
        }
    }
}

} // verus!
