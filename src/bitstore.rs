//! The outside bit vector and varint codec that the run-length code is built
//! on, with the contracts this library relies on.
use vstd::prelude::*;
use bitvec::order::Lsb0;
use bitvec::vec::BitVec;

verus! {

#[verifier::external_type_specification]
#[verifier::external_body]
pub struct ExVarintError(unsigned_varint::decode::Error);

/// A packed sequence of bits, least significant bit first within each byte.
#[verifier::external_body]
pub struct Bits {
    inner: BitVec<u8, Lsb0>,
}

/// The bits held, in index order.
pub uninterp spec fn bits_of(v: Bits) -> Seq<bool>;

/// The largest number of bits a `Bits` can hold.
pub open spec fn max_bits() -> nat {
    (usize::MAX as nat) / 8
}

/// Relies on `BitVec::new`: the new vector is empty.
#[verifier::external_body]
pub(crate) fn bv_new() -> (r: Bits)
    ensures
        bits_of(r) == Seq::<bool>::empty(),
{
    Bits { inner: BitVec::new() }
}

/// Relies on `BitVec::push`: appends one bit; it panics only past the
/// maximum length.
#[verifier::external_body]
pub(crate) fn bv_push(v: &mut Bits, b: bool)
    requires
        bits_of(*old(v)).len() < max_bits(),
    ensures
        bits_of(*final(v)) == bits_of(*old(v)).push(b),
{
    v.inner.push(b)
}

/// Relies on `BitVec::len`: the number of bits held, never above the
/// maximum length that `BitVec::push` enforces.
#[verifier::external_body]
pub(crate) fn bv_len(v: &Bits) -> (r: usize)
    ensures
        r == bits_of(*v).len(),
        r <= max_bits(),
{
    v.inner.len()
}

/// Relies on indexing a `BitSlice` by position: the bit at `i`.
#[verifier::external_body]
pub(crate) fn bv_get(v: &Bits, i: usize) -> (r: bool)
    requires
        i < bits_of(*v).len(),
    ensures
        r == bits_of(*v)[i as int],
{
    v.inner[i]
}

impl Bits {
    /// The bits of `v`, in order.
    pub fn from_bools(v: &[bool]) -> (r: Bits)
        requires
            v@.len() <= max_bits(),
        ensures
            bits_of(r) == v@,
    {
        let mut r = bv_new();
        let mut i: usize = 0;
        while i < v.len()
            invariant
                i <= v@.len() <= max_bits(),
                bits_of(r) == v@.take(i as int),
            decreases v@.len() - i,
        {
            bv_push(&mut r, v[i]);
            i = i + 1;
            assert(bits_of(r) =~= v@.take(i as int));
        }
        assert(v@.take(v@.len() as int) =~= v@);
        r
    }

    /// The bits held, in order.
    pub fn to_bools(&self) -> (r: Vec<bool>)
        ensures
            r@ == bits_of(*self),
    {
        let n = bv_len(self);
        let mut r: Vec<bool> = Vec::new();
        let mut i: usize = 0;
        while i < n
            invariant
                i <= n == bits_of(*self).len(),
                r@ == bits_of(*self).take(i as int),
            decreases n - i,
        {
            r.push(bv_get(self, i));
            i = i + 1;
            assert(r@ =~= bits_of(*self).take(i as int));
        }
        assert(bits_of(*self).take(n as int) =~= bits_of(*self));
        r
    }

    /// Number of bits held.
    pub fn len(&self) -> (r: usize)
        ensures
            r == bits_of(*self).len(),
    {
        bv_len(self)
    }
}

/// Unsigned LEB128: seven payload bits per byte, least significant group
/// first, the high bit set on every byte but the last.
pub open spec fn leb128(n: nat) -> Seq<u8>
    decreases n,
{
    if n < 128 {
        seq![n as u8]
    } else {
        seq![(n % 128 + 128) as u8] + leb128(n / 128)
    }
}

/// Relies on `unsigned_varint::encode::u64`: the LEB128 bytes of `n`.
#[verifier::external_body]
pub(crate) fn varint_bytes(n: u64) -> (r: Vec<u8>)
    ensures
        r@ == leb128(n as nat),
{
    let mut buf = unsigned_varint::encode::u64_buffer();
    unsigned_varint::encode::u64(n, &mut buf).to_vec()
}

/// Index of the first byte of `buf` whose high bit is clear.
pub open spec fn terminator(buf: Seq<u8>) -> Option<nat>
    decreases buf.len(),
{
    if buf.len() == 0 {
        None
    } else if buf[0] < 128 {
        Some(0)
    } else {
        match terminator(buf.skip(1)) {
            Some(k) => Some(k + 1),
            None => None,
        }
    }
}

/// The payload of the first `k` bytes of `buf`, seven bits per byte, least
/// significant group first.
pub open spec fn varint_sum(buf: Seq<u8>, k: nat) -> nat
    decreases k,
{
    if k == 0 || buf.len() == 0 {
        0
    } else {
        (buf[0] % 128) as nat + 128 * varint_sum(buf.skip(1), (k - 1) as nat)
    }
}

/// What a varint read of `buf` gives: the value and the number of bytes it
/// took, or `None` when the bytes end first, more than ten bytes would be
/// needed, or the last byte of a longer encoding is zero.
pub open spec fn varint_read(buf: Seq<u8>) -> Option<(u64, nat)> {
    match terminator(buf) {
        Some(k) => if k <= 9 && !(k > 0 && buf[k as int] == 0) {
            Some(((varint_sum(buf, k + 1) % 0x1_0000_0000_0000_0000) as u64, k + 1))
        } else {
            None
        },
        None => None,
    }
}

/// Reads a varint off the front of `buf`, handing back the bytes after it.
pub assume_specification[ unsigned_varint::decode::u64 ](buf: &[u8]) -> (r: Result<
    (u64, &[u8]),
    unsigned_varint::decode::Error,
>)
    ensures
        match varint_read(buf@) {
            Some((v, k)) => r matches Ok((x, rest)) && x == v && rest@ == buf@.skip(k as int),
            None => r is Err,
        },
;

} // verus!
