//! `VarUInt` and length-prefixed string encoding on the buffers of the `bytes`
//! crate.

use vstd::prelude::*;

use crate::error::{Error, ErrorView};
use crate::native::io::{
    above, checked_string_len, groups_at, lemma_groups_end, lemma_groups_step, pow128,
    push_var_uint, string, string_at, var_uint, var_uint_at, VAR_UINT_MAX_BYTES, VarUintDecoder,
};

verus! {

/// The growable buffer of the `bytes` crate.
#[verifier::external_type_specification]
#[verifier::external_body]
pub struct ExBytesMut(bytes::BytesMut);

/// The shared buffer of the `bytes` crate.
#[verifier::external_type_specification]
#[verifier::external_body]
pub struct ExBytes(bytes::Bytes);

/// The bytes that a growable buffer holds.
pub uninterp spec fn written(b: bytes::BytesMut) -> Seq<u8>;

/// The bytes that a shared buffer holds, those already read left out.
pub uninterp spec fn unread(b: bytes::Bytes) -> Seq<u8>;

/// `BufMut::put_slice` of `bytes::BytesMut`: appends all of `src`.
///
/// It panics where the buffer would outgrow the largest allocation, as `Vec`
/// does; what has already been split off the front of the same allocation is
/// not visible here.
#[verifier::external_body]
fn put_slice(b: &mut bytes::BytesMut, src: &[u8])
    requires
        written(*old(b)).len() + src@.len() <= isize::MAX,
    ensures
        written(*final(b)) == written(*old(b)) + src@,
{
    bytes::BufMut::put_slice(b, src)
}

/// `Buf::remaining` of `bytes::Bytes`: how many bytes are left.
#[verifier::external_body]
fn remaining(b: &bytes::Bytes) -> (n: usize)
    ensures
        n == unread(*b).len(),
{
    bytes::Buf::remaining(b)
}

/// `Buf::get_u8` of `bytes::Bytes`: takes the first byte, and panics where
/// there is none.
#[verifier::external_body]
fn get_u8(b: &mut bytes::Bytes) -> (octet: u8)
    requires
        unread(*old(b)).len() > 0,
    ensures
        octet == unread(*old(b))[0],
        unread(*final(b)) == unread(*old(b)).skip(1),
{
    bytes::Buf::get_u8(b)
}

/// `Buf::copy_to_bytes` of `bytes::Bytes`: takes the first `len` bytes, and
/// panics where there are fewer.
#[verifier::external_body]
fn copy_to_bytes(b: &mut bytes::Bytes, len: usize) -> (out: bytes::Bytes)
    requires
        len <= unread(*old(b)).len(),
    ensures
        unread(out) == unread(*old(b)).take(len as int),
        unread(*final(b)) == unread(*old(b)).skip(len as int),
{
    bytes::Buf::copy_to_bytes(b, len)
}

/// `Bytes::new`: a buffer without bytes.
#[verifier::external_body]
fn no_bytes() -> (out: bytes::Bytes)
    ensures
        unread(out) == Seq::<u8>::empty(),
{
    bytes::Bytes::new()
}

/// Growable buffers for the `ClickHouse` wire protocol.
pub trait ClickHouseBytesWrite: Sized {
    /// The bytes that the buffer holds.
    spec fn held(&self) -> Seq<u8>;

    /// Append `value` as a `VarUInt`.
    fn put_var_uint(&mut self, value: u64)
        requires
            old(self).held().len() + var_uint(value as nat).len() <= isize::MAX,
        ensures
            final(self).held() == old(self).held() + var_uint(value as nat),
    ;

    /// Append `value` as a `VarUInt` length followed by its bytes.
    fn put_string(&mut self, value: &[u8])
        requires
            old(self).held().len() + string(value@).len() <= isize::MAX,
        ensures
            final(self).held() == old(self).held() + string(value@),
    ;
}

impl ClickHouseBytesWrite for bytes::BytesMut {
    open spec fn held(&self) -> Seq<u8> {
        written(*self)
    }

    fn put_var_uint(&mut self, value: u64) {
        let mut buf: Vec<u8> = Vec::new();
        push_var_uint(&mut buf, value);
        assert(buf@ =~= var_uint(value as nat));
        put_slice(self, buf.as_slice());
    }

    fn put_string(&mut self, value: &[u8]) {
        self.put_var_uint(value.len() as u64);
        put_slice(self, value);
        assert(written(*self) =~= written(*old(self)) + string(value@));
    }
}

impl ClickHouseBytesWrite for Vec<u8> {
    open spec fn held(&self) -> Seq<u8> {
        self@
    }

    fn put_var_uint(&mut self, value: u64) {
        push_var_uint(self, value);
    }

    fn put_string(&mut self, value: &[u8]) {
        self.put_var_uint(value.len() as u64);
        self.extend_from_slice(value);
        assert(self@ =~= old(self)@ + string(value@));
    }
}

/// What is left of `d` once a `VarUInt` has been asked of it: a value that is
/// cut short takes everything, and one that is too long as many bytes as are
/// looked at.
pub open spec fn past_var_uint(d: Seq<u8>) -> Seq<u8> {
    match var_uint_at(d, 0) {
        Ok((_, p)) => d.skip(p),
        Err(ErrorView::NotEnoughData) => seq![],
        Err(_) => d.skip(VAR_UINT_MAX_BYTES as int),
    }
}

/// What is left of `d` once a string has been asked of it: one that is refused
/// or cut short takes its length alone.
pub open spec fn past_string(d: Seq<u8>) -> Seq<u8> {
    match string_at(d, 0) {
        Ok((_, p)) => d.skip(p),
        Err(_) => past_var_uint(d),
    }
}

/// Shared buffers for the `ClickHouse` wire protocol.
pub trait ClickHouseBytesRead: Sized {
    /// The bytes that are still to be read.
    spec fn rest(&self) -> Seq<u8>;

    /// Take a `VarUInt` from the front.
    ///
    /// # Errors
    ///
    /// [`Error::NotEnoughData`] if the buffer ends mid-value,
    /// [`Error::BadResponse`] if the value runs past the ceiling.
    fn try_get_var_uint(&mut self) -> (r: Result<u64, Error>)
        ensures
            match r {
                Ok(v) => var_uint_at(old(self).rest(), 0) matches Ok((x, _)) && v == x,
                Err(e) => var_uint_at(old(self).rest(), 0) == Err::<(u64, int), ErrorView>(e@),
            },
            final(self).rest() == past_var_uint(old(self).rest()),
    ;

    /// Take a length-prefixed string from the front.
    ///
    /// # Errors
    ///
    /// As [`ClickHouseBytesRead::try_get_var_uint`], and
    /// [`Error::BadResponse`] on a length above the cap.
    fn try_get_string(&mut self) -> (r: Result<bytes::Bytes, Error>)
        ensures
            match r {
                Ok(s) => string_at(old(self).rest(), 0) matches Ok((x, _)) && unread(s) == x,
                Err(e) => string_at(old(self).rest(), 0) == Err::<(Seq<u8>, int), ErrorView>(e@),
            },
            final(self).rest() == past_string(old(self).rest()),
    ;
}

impl ClickHouseBytesRead for bytes::Bytes {
    open spec fn rest(&self) -> Seq<u8> {
        unread(*self)
    }

    fn try_get_var_uint(&mut self) -> (r: Result<u64, Error>) {
        let mut decoder = VarUintDecoder::new();
        let ghost d = unread(*self);
        let ghost mut at: int = 0;
        proof {
            assert(above(0, pow128(0), groups_at(d, 0, 10)) == groups_at(d, 0, 10));
            assert(d.skip(0) =~= d);
        }
        while remaining(self) > 0
            invariant
                0 <= at <= d.len(),
                at == decoder.index(),
                d == unread(*old(self)),
                unread(*self) == d.skip(at),
                decoder.wf(),
                decoder.index() < 10,
                groups_at(d, 0, 10) == above(
                    decoder.total(),
                    pow128(decoder.index()),
                    groups_at(d, at, (10 - decoder.index()) as nat),
                ),
            decreases d.len() - at,
        {
            let ghost before = decoder;
            proof {
                if d[at] >= 128 && before.index() < 9 {
                    lemma_groups_step(d, at, before.index(), before.total());
                }
                let v = d[at] as int;
                let w = pow128(before.index()) as int;
                assert(w * v == v * w) by (nonlinear_arith);
                assert(d.skip(at).skip(1) =~= d.skip(at + 1));
            }
            let octet: u8 = get_u8(self);
            if let Some(value) = decoder.push(octet)? {
                return Ok(value);
            }
            proof {
                at = at + 1;
            }
        }
        assert(unread(*self) =~= seq![]);
        Err(Error::NotEnoughData)
    }

    fn try_get_string(&mut self) -> (r: Result<bytes::Bytes, Error>) {
        let ghost d = unread(*self);
        let declared: u64 = self.try_get_var_uint()?;
        let len: usize = checked_string_len(declared)? as usize;
        proof {
            lemma_groups_end(d, 0, VAR_UINT_MAX_BYTES as nat);
            let p = var_uint_at(d, 0)->Ok_0.1;
            assert(unread(*self) == d.skip(p));
            if p + len <= d.len() {
                assert(d.skip(p).take(len as int) =~= d.subrange(p, p + len));
                assert(d.skip(p).skip(len as int) =~= d.skip(p + len));
            }
        }
        if len == 0 {
            return Ok(no_bytes());
        }
        if remaining(self) < len {
            return Err(Error::NotEnoughData);
        }
        Ok(copy_to_bytes(self, len))
    }
}

} // verus!
