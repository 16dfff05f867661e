//! RLE+: a run-length code over bit streams. The first bit of a stream gives
//! the value of the first run; each run after it is a prefix-coded length,
//! and runs alternate in value.
//!
//! | prefix | length                                  |
//! |--------|-----------------------------------------|
//! | `1`    | 1                                       |
//! | `01`   | 4 bits, least significant first (2..15) |
//! | `00`   | LEB128 varint bytes, each LSB first     |
use vstd::prelude::*;
use crate::bitstore::{
    bits_of, bv_get, bv_len, bv_new, bv_push, leb128, max_bits, terminator, varint_bytes,
    varint_read, varint_sum, Bits,
};

verus! {

/// The `k` low bits of `x`, least significant first.
pub open spec fn low_bits(x: nat, k: nat) -> Seq<bool>
    decreases k,
{
    if k == 0 {
        Seq::empty()
    } else {
        seq![x % 2 == 1] + low_bits(x / 2, (k - 1) as nat)
    }
}

/// The number whose bits, least significant first, are `s`.
pub open spec fn bits_value(s: Seq<bool>) -> nat
    decreases s.len(),
{
    if s.len() == 0 {
        0
    } else {
        (if s[0] { 1nat } else { 0nat }) + 2 * bits_value(s.skip(1))
    }
}

/// The bits of each byte in turn, each least significant first.
pub open spec fn bytes_bits(bs: Seq<u8>) -> Seq<bool>
    decreases bs.len(),
{
    if bs.len() == 0 {
        Seq::empty()
    } else {
        low_bits(bs[0] as nat, 8) + bytes_bits(bs.skip(1))
    }
}

/// The code of one run of `n` bits.
pub open spec fn run_code(n: nat) -> Seq<bool> {
    if n == 1 {
        seq![true]
    } else if n < 16 {
        seq![false, true] + low_bits(n, 4)
    } else {
        seq![false, false] + bytes_bits(leb128(n))
    }
}

/// Length of the run of equal bits that starts at `p`.
pub open spec fn run_len(s: Seq<bool>, p: int) -> nat
    decreases s.len() - p,
{
    if 0 <= p && p + 1 < s.len() && s[p + 1] == s[p] {
        1 + run_len(s, p + 1)
    } else {
        1
    }
}

/// The codes of the runs of `s` from position `p` on.
pub open spec fn runs_code(s: Seq<bool>, p: int) -> Seq<bool>
    decreases s.len() - p,
    via runs_code_decreases
{
    if p < 0 || p >= s.len() {
        Seq::empty()
    } else {
        run_code(run_len(s, p)) + runs_code(s, p + run_len(s, p))
    }
}

#[via_fn]
proof fn runs_code_decreases(s: Seq<bool>, p: int) {
    if 0 <= p < s.len() {
        lemma_run_len(s, p);
    }
}

/// A run is never empty, stays inside `s`, holds equal bits, and is
/// followed by a different bit or by the end.
pub(crate) proof fn lemma_run_len(s: Seq<bool>, p: int)
    requires
        0 <= p < s.len(),
    ensures
        1 <= run_len(s, p) <= s.len() - p,
        forall|j: int| p <= j < p + run_len(s, p) ==> s[j] == s[p],
        p + run_len(s, p) < s.len() ==> s[p + run_len(s, p)] != s[p],
    decreases s.len() - p,
{
    if p + 1 < s.len() && s[p + 1] == s[p] {
        lemma_run_len(s, p + 1);
    }
}

/// The RLE+ encoding of `s`.
pub open spec fn rle_encode(s: Seq<bool>) -> Seq<bool> {
    if s.len() == 0 {
        Seq::empty()
    } else {
        seq![s[0]] + runs_code(s, 0)
    }
}

/// Appends the `k` low bits of `x`, least significant first.
fn push_low_bits(out: &mut Bits, x: u64, k: u64)
    requires
        k <= 8,
        bits_of(*old(out)).len() + k <= max_bits(),
    ensures
        bits_of(*final(out)) == bits_of(*old(out)) + low_bits(x as nat, k as nat),
{
    let mut v = x;
    let mut j: u64 = 0;
    while j < k
        invariant
            j <= k <= 8,
            bits_of(*old(out)).len() + k <= max_bits(),
            bits_of(*old(out)) + low_bits(x as nat, k as nat) == bits_of(*out) + low_bits(
                v as nat,
                (k - j) as nat,
            ),
            bits_of(*out).len() == bits_of(*old(out)).len() + j,
        decreases k - j,
    {
        let ghost before = bits_of(*out);
        bv_push(out, v % 2 == 1);
        assert(low_bits(v as nat, (k - j) as nat) == seq![v % 2 == 1] + low_bits(
            (v / 2) as nat,
            (k - j - 1) as nat,
        ));
        assert(before + low_bits(v as nat, (k - j) as nat) =~= bits_of(*out) + low_bits(
            (v / 2) as nat,
            (k - j - 1) as nat,
        ));
        v = v / 2;
        j = j + 1;
    }
    assert(low_bits(v as nat, 0) =~= Seq::<bool>::empty());
    assert(bits_of(*out) + low_bits(v as nat, 0) =~= bits_of(*out));
}

/// `128` to the power `k`.
pub open spec fn pow128(k: nat) -> nat
    decreases k,
{
    if k == 0 {
        1
    } else {
        128 * pow128((k - 1) as nat)
    }
}

proof fn lemma_leb128_len_bound(n: nat, k: nat)
    requires
        n < pow128(k),
    ensures
        1 <= leb128(n).len() <= if k == 0 { 1 } else { k },
        n < 128 ==> leb128(n).len() == 1,
    decreases n,
{
    if n >= 128 {
        assert(k > 0);
        assert(n / 128 < pow128((k - 1) as nat));
        lemma_leb128_len_bound(n / 128, (k - 1) as nat);
    }
}

/// A `u64` takes one to ten LEB128 bytes, and one when below 128.
pub(crate) proof fn lemma_leb128_len(n: nat)
    requires
        n < 0x1_0000_0000_0000_0000,
    ensures
        1 <= leb128(n).len() <= 10,
        n < 128 ==> leb128(n).len() == 1,
{
    reveal_with_fuel(pow128, 11);
    assert(pow128(10) == 0x40_0000_0000_0000_0000);
    lemma_leb128_len_bound(n, 10);
}

proof fn lemma_low_bits_len(x: nat, k: nat)
    ensures
        low_bits(x, k).len() == k,
    decreases k,
{
    if k > 0 {
        lemma_low_bits_len(x / 2, (k - 1) as nat);
    }
}

pub(crate) proof fn lemma_bytes_bits_len(bs: Seq<u8>)
    ensures
        bytes_bits(bs).len() == 8 * bs.len(),
    decreases bs.len(),
{
    if bs.len() > 0 {
        lemma_low_bits_len(bs[0] as nat, 8);
        lemma_bytes_bits_len(bs.skip(1));
    }
}

proof fn lemma_bytes_bits_append(a: Seq<u8>, b: Seq<u8>)
    ensures
        bytes_bits(a + b) == bytes_bits(a) + bytes_bits(b),
    decreases a.len(),
{
    if a.len() == 0 {
        assert(a + b =~= b);
    } else {
        assert((a + b).skip(1) =~= a.skip(1) + b);
        lemma_bytes_bits_append(a.skip(1), b);
        assert((a + b)[0] == a[0]);
    }
}

proof fn lemma_run_code_len(n: nat)
    requires
        1 <= n < 0x1_0000_0000_0000_0000,
    ensures
        run_code(n).len() <= 3 * n,
{
    if n == 1 {
    } else if n < 16 {
        lemma_low_bits_len(n, 4);
    } else {
        lemma_leb128_len(n);
        lemma_bytes_bits_len(leb128(n));
    }
}

/// Appends the LEB128 bytes of `n`, each least significant bit first.
pub(crate) fn push_varint(out: &mut Bits, n: u64)
    requires
        bits_of(*old(out)).len() + 8 * leb128(n as nat).len() <= max_bits(),
    ensures
        bits_of(*final(out)) == bits_of(*old(out)) + bytes_bits(leb128(n as nat)),
        bytes_bits(leb128(n as nat)).len() <= 80,
{
    let bytes = varint_bytes(n);
    proof {
        lemma_leb128_len(n as nat);
        lemma_bytes_bits_len(leb128(n as nat));
    }
    let ghost base = bits_of(*out);
    let mut j: usize = 0;
    while j < bytes.len()
        invariant
            j <= bytes@.len() <= 10,
            bytes@ == leb128(n as nat),
            base.len() + 8 * bytes@.len() <= max_bits(),
            bits_of(*out) == base + bytes_bits(bytes@.take(j as int)),
        decreases bytes@.len() - j,
    {
        proof {
            lemma_bytes_bits_len(bytes@.take(j as int));
            lemma_bytes_bits_append(bytes@.take(j as int), seq![bytes@[j as int]]);
            assert(bytes@.take(j as int + 1) =~= bytes@.take(j as int) + seq![bytes@[j as int]]);
            assert(bytes_bits(seq![bytes@[j as int]]) =~= low_bits(bytes@[j as int] as nat, 8)
                + bytes_bits(seq![bytes@[j as int]].skip(1)));
            assert(seq![bytes@[j as int]].skip(1) =~= Seq::<u8>::empty());
            assert(low_bits(bytes@[j as int] as nat, 8) + Seq::<bool>::empty() =~= low_bits(
                bytes@[j as int] as nat,
                8,
            ));
        }
        push_low_bits(out, bytes[j] as u64, 8);
        j = j + 1;
        assert(bits_of(*out) =~= base + bytes_bits(bytes@.take(j as int)));
    }
    assert(bytes@.take(j as int) =~= bytes@);
}

/// Appends the code of one run of `n` bits.
fn push_run(out: &mut Bits, n: u64)
    requires
        n >= 1,
        bits_of(*old(out)).len() + 3 * n <= max_bits(),
    ensures
        bits_of(*final(out)) == bits_of(*old(out)) + run_code(n as nat),
{
    if n == 1 {
        bv_push(out, true);
        assert(bits_of(*out) =~= bits_of(*old(out)) + run_code(n as nat));
    } else if n < 16 {
        bv_push(out, false);
        bv_push(out, true);
        push_low_bits(out, n, 4);
        assert(bits_of(*out) =~= bits_of(*old(out)) + run_code(n as nat));
    } else {
        proof {
            lemma_leb128_len(n as nat);
            lemma_bytes_bits_len(leb128(n as nat));
        }
        bv_push(out, false);
        bv_push(out, false);
        push_varint(out, n);
        assert(bits_of(*out) =~= bits_of(*old(out)) + run_code(n as nat));
    }
}

/// Encodes `raw` as RLE+. An empty input gives an empty output.
pub fn encode(raw: &Bits) -> (r: Bits)
    requires
        3 * bits_of(*raw).len() + 1 <= max_bits(),
    ensures
        bits_of(r) == rle_encode(bits_of(*raw)),
{
    let ghost s = bits_of(*raw);
    let len = bv_len(raw);
    let mut out = bv_new();
    if len == 0 {
        assert(bits_of(out) =~= rle_encode(s));
        return out;
    }
    bv_push(&mut out, bv_get(raw, 0));
    let mut p: usize = 0;
    assert(bits_of(out) + runs_code(s, 0) =~= rle_encode(s));
    while p < len
        invariant
            len == s.len(),
            s == bits_of(*raw),
            3 * s.len() + 1 <= max_bits(),
            p <= len,
            bits_of(out) + runs_code(s, p as int) == rle_encode(s),
            bits_of(out).len() <= 1 + 3 * p,
        decreases len - p,
    {
        let cur = bv_get(raw, p);
        let mut n: usize = 1;
        while p + n < len && bv_get(raw, p + n) == cur
            invariant
                len == s.len(),
                s == bits_of(*raw),
                p < len,
                1 <= n,
                p + n <= len,
                cur == s[p as int],
                s[p + n - 1] == cur,
                run_len(s, p as int) == (n - 1) + run_len(s, p + n - 1),
            decreases len - p - n,
        {
            n = n + 1;
        }
        proof {
            lemma_run_len(s, p as int);
            lemma_run_code_len(n as nat);
        }
        let ghost before = bits_of(out);
        push_run(&mut out, n as u64);
        assert(runs_code(s, p as int) == run_code(n as nat) + runs_code(s, p + n));
        assert(bits_of(out) + runs_code(s, p + n) =~= before + runs_code(s, p as int));
        p = p + n;
    }
    assert(runs_code(s, p as int) =~= Seq::<bool>::empty());
    assert(bits_of(out) + runs_code(s, p as int) =~= bits_of(out));
    out
}

/// Up to `m` whole bytes read off the front of `t`, each least significant
/// bit first.
pub open spec fn bits_bytes(t: Seq<bool>, m: nat) -> Seq<u8>
    decreases m,
{
    if m == 0 || t.len() < 8 {
        Seq::empty()
    } else {
        seq![bits_value(t.take(8)) as u8] + bits_bytes(t.skip(8), (m - 1) as nat)
    }
}

/// `n` copies of `b`.
pub open spec fn repeat(b: bool, n: nat) -> Seq<bool> {
    Seq::new(n, |_j: int| b)
}

/// `a` in front of a decoded tail, if there is one.
pub open spec fn prepend(a: Seq<bool>, o: Option<Seq<bool>>) -> Option<Seq<bool>> {
    match o {
        Some(r) => Some(a + r),
        None => None,
    }
}

/// Decodes the run codes in `t`, the first run having value `cur`; `None`
/// when `t` is malformed.
pub open spec fn decode_runs(t: Seq<bool>, cur: bool) -> Option<Seq<bool>>
    decreases t.len(),
{
    if t.len() == 0 {
        Some(Seq::empty())
    } else if t[0] {
        prepend(seq![cur], decode_runs(t.skip(1), !cur))
    } else if t.len() < 2 {
        None
    } else if t[1] {
        if t.len() < 6 {
            None
        } else {
            prepend(repeat(cur, bits_value(t.subrange(2, 6))), decode_runs(t.skip(6), !cur))
        }
    } else {
        match varint_read(bits_bytes(t.skip(2), 10)) {
            Some((v, k)) => if 1 <= k && 2 + 8 * k <= t.len() {
                prepend(repeat(cur, v as nat), decode_runs(t.skip(2 + 8 * k as int), !cur))
            } else {
                None
            },
            None => None,
        }
    }
}

/// The bit sequence that RLE+ stream `t` encodes; `None` when `t` is
/// malformed.
pub open spec fn rle_decode(t: Seq<bool>) -> Option<Seq<bool>> {
    if t.len() == 0 {
        Some(Seq::empty())
    } else {
        decode_runs(t.skip(1), t[0])
    }
}

/// `2` to the power `k`.
pub open spec fn pow2(k: nat) -> nat
    decreases k,
{
    if k == 0 {
        1
    } else {
        2 * pow2((k - 1) as nat)
    }
}

proof fn lemma_bits_value_bound(s: Seq<bool>)
    ensures
        bits_value(s) < pow2(s.len()),
    decreases s.len(),
{
    if s.len() > 0 {
        lemma_bits_value_bound(s.skip(1));
    }
}

/// Reads the `k` bits at `start`, least significant first.
fn read_bits(v: &Bits, start: usize, k: usize) -> (r: u64)
    requires
        k <= 8,
        start + k <= bits_of(*v).len() <= max_bits(),
    ensures
        r == bits_value(bits_of(*v).subrange(start as int, start + k)),
        r < 256,
{
    let ghost t = bits_of(*v);
    let mut acc: u64 = 0;
    let mut j: usize = k;
    assert(t.subrange(start + k, start + k) =~= Seq::<bool>::empty());
    while j > 0
        invariant
            j <= k <= 8,
            start + k <= t.len() <= max_bits(),
            t == bits_of(*v),
            acc == bits_value(t.subrange(start + j, start + k)),
        decreases j,
    {
        proof {
            lemma_bits_value_bound(t.subrange(start + j, start + k));
            reveal_with_fuel(pow2, 9);
            assert(pow2((k - j) as nat) <= 128);
        }
        j = j - 1;
        let b = bv_get(v, start + j);
        assert(t.subrange(start + j, start + k).skip(1) =~= t.subrange(start + j + 1, start + k));
        acc = 2 * acc + if b { 1u64 } else { 0u64 };
    }
    proof {
        lemma_bits_value_bound(t.subrange(start as int, start + k));
        reveal_with_fuel(pow2, 9);
        assert(pow2(k as nat) <= 256);
    }
    acc
}

/// Reads up to ten whole bytes starting at bit `start`.
fn read_bytes(v: &Bits, start: usize) -> (r: Vec<u8>)
    requires
        start <= bits_of(*v).len(),
    ensures
        r@ == bits_bytes(bits_of(*v).skip(start as int), 10),
        r@.len() <= 10,
        start + 8 * r@.len() <= bits_of(*v).len(),
{
    let ghost t = bits_of(*v);
    let len = bv_len(v);
    let mut r: Vec<u8> = Vec::new();
    let mut c: usize = 0;
    while c < 10 && 8 <= len - start - 8 * c
        invariant
            len == t.len(),
            len <= max_bits(),
            t == bits_of(*v),
            c <= 10,
            r@.len() == c,
            start + 8 * c <= len,
            bits_bytes(t.skip(start as int), 10) == r@ + bits_bytes(
                t.skip(start + 8 * c),
                (10 - c) as nat,
            ),
        decreases 10 - c,
    {
        let b = read_bits(v, start + 8 * c, 8);
        let ghost x = t.skip(start + 8 * c);
        assert(x.take(8) =~= t.subrange(start + 8 * c, start + 8 * c + 8));
        assert(x.skip(8) =~= t.skip(start + 8 * c + 8));
        r.push(b as u8);
        c = c + 1;
        assert(bits_bytes(t.skip(start as int), 10) =~= r@ + bits_bytes(
            t.skip(start + 8 * c),
            (10 - c) as nat,
        ));
    }
    assert(bits_bytes(t.skip(start + 8 * c), (10 - c) as nat) =~= Seq::<u8>::empty());
    assert(r@ + Seq::<u8>::empty() =~= r@);
    r
}

proof fn lemma_terminator_bound(buf: Seq<u8>)
    ensures
        terminator(buf) matches Some(k) ==> k < buf.len(),
    decreases buf.len(),
{
    if buf.len() > 0 && buf[0] >= 128 {
        lemma_terminator_bound(buf.skip(1));
    }
}

/// Why a stream could not be decoded.
#[derive(Debug, Clone, Copy, PartialEq, Eq, Structural)]
pub enum DecodeError {
    /// The stream ends inside a run code, or holds a varint that cannot be
    /// read.
    MalformedStream,
    /// The decoded bits would not fit in a `Bits`.
    TooLong,
}

/// Decodes an RLE+ stream. An empty stream gives an empty output. Succeeds
/// exactly when the stream is well formed and what it encodes fits in a
/// `Bits`; `MalformedStream` comes only from a malformed stream.
pub fn decode(enc: &Bits) -> (r: Result<Bits, DecodeError>)
    ensures
        r matches Ok(v) ==> rle_decode(bits_of(*enc)) == Some(bits_of(v)),
        r == Err::<Bits, DecodeError>(DecodeError::MalformedStream) ==> rle_decode(
            bits_of(*enc),
        ) is None,
        rle_decode(bits_of(*enc)) matches Some(s) && s.len() <= max_bits() ==> r is Ok,
{
    let ghost t = bits_of(*enc);
    let len = bv_len(enc);
    let mut out = bv_new();
    if len == 0 {
        return Ok(out);
    }
    let mut cur = bv_get(enc, 0);
    let mut i: usize = 1;
    assert(rle_decode(t) == prepend(bits_of(out), decode_runs(t.skip(1), cur))) by {
        assert(bits_of(out) =~= Seq::<bool>::empty());
        match decode_runs(t.skip(1), cur) {
            Some(x) => assert(Seq::<bool>::empty() + x =~= x),
            None => {},
        }
    }
    while i < len
        invariant
            len == t.len(),
            len <= max_bits(),
            t == bits_of(*enc),
            1 <= i <= len,
            rle_decode(t) == prepend(bits_of(out), decode_runs(t.skip(i as int), cur)),
        decreases len - i,
    {
        let ghost rest = t.skip(i as int);
        let n: u64;
        let next: usize;
        if bv_get(enc, i) {
            n = 1;
            next = i + 1;
            assert(rest.skip(1) =~= t.skip(next as int));
            assert(repeat(cur, 1) =~= seq![cur]);
            assert(decode_runs(rest, cur) == prepend(
                repeat(cur, n as nat),
                decode_runs(t.skip(next as int), !cur),
            ));
        } else {
            if i + 1 >= len {
                return Err(DecodeError::MalformedStream);
            }
            if bv_get(enc, i + 1) {
                if len - i < 6 {
                    return Err(DecodeError::MalformedStream);
                }
                n = read_bits(enc, i + 2, 4);
                next = i + 6;
                assert(rest.subrange(2, 6) =~= t.subrange(i + 2, i + 6));
                assert(rest.skip(6) =~= t.skip(next as int));
                assert(decode_runs(rest, cur) == prepend(
                    repeat(cur, n as nat),
                    decode_runs(t.skip(next as int), !cur),
                ));
            } else {
                let bytes = read_bytes(enc, i + 2);
                assert(rest.skip(2) =~= t.skip(i + 2));
                match unsigned_varint::decode::u64(bytes.as_slice()) {
                    Err(_) => {
                        return Err(DecodeError::MalformedStream);
                    },
                    Ok((v, tail)) => {
                        proof {
                            lemma_terminator_bound(bytes@);
                        }
                        let k = bytes.len() - tail.len();
                        n = v;
                        next = i + 2 + 8 * k;
                        assert(rest.skip(2 + 8 * k) =~= t.skip(next as int));
                        assert(decode_runs(rest, cur) == prepend(
                            repeat(cur, n as nat),
                            decode_runs(t.skip(next as int), !cur),
                        ));
                    },
                }
            }
        }
        let ghost after = decode_runs(t.skip(next as int), !cur);
        assert(rle_decode(t) == prepend(bits_of(out), prepend(repeat(cur, n as nat), after)));
        let mut j: u64 = 0;
        while j < n
            invariant
                t == bits_of(*enc),
                j <= n <= u64::MAX,
                rle_decode(t) == prepend(bits_of(out), prepend(repeat(cur, (n - j) as nat), after)),
            decreases n - j,
        {
            if bv_len(&out) >= max_bits_usize() {
                proof {
                    match after {
                        Some(a) => {
                            assert((bits_of(out) + (repeat(cur, (n - j) as nat) + a)).len()
                                > max_bits());
                        },
                        None => {},
                    }
                }
                return Err(DecodeError::TooLong);
            }
            let ghost before = bits_of(out);
            bv_push(&mut out, cur);
            proof {
                match after {
                    Some(a) => {
                        assert(before + (repeat(cur, (n - j) as nat) + a) =~= bits_of(out) + (
                        repeat(cur, (n - j - 1) as nat) + a));
                    },
                    None => {},
                }
            }
            j = j + 1;
        }
        proof {
            match after {
                Some(a) => {
                    assert(repeat(cur, 0) + a =~= a);
                },
                None => {},
            }
        }
        cur = !cur;
        i = next;
    }
    assert(t.skip(i as int) =~= Seq::<bool>::empty());
    assert(bits_of(out) + Seq::<bool>::empty() =~= bits_of(out));
    Ok(out)
}

proof fn lemma_value_low_bits(x: nat, k: nat)
    requires
        x < pow2(k),
    ensures
        bits_value(low_bits(x, k)) == x,
        low_bits(x, k).len() == k,
    decreases k,
{
    lemma_low_bits_len(x, k);
    if k > 0 {
        lemma_value_low_bits(x / 2, (k - 1) as nat);
        assert(low_bits(x, k).skip(1) =~= low_bits(x / 2, (k - 1) as nat));
    }
}

proof fn lemma_bits_bytes_of_bytes_bits(l: Seq<u8>, rest: Seq<bool>, m: nat)
    requires
        l.len() <= m,
    ensures
        bits_bytes(bytes_bits(l) + rest, m) == l + bits_bytes(rest, (m - l.len()) as nat),
    decreases l.len(),
{
    if l.len() == 0 {
        assert(bytes_bits(l) + rest =~= rest);
        assert(l + bits_bytes(rest, m) =~= bits_bytes(rest, m));
    } else {
        let x = bytes_bits(l) + rest;
        let b = low_bits(l[0] as nat, 8);
        reveal_with_fuel(pow2, 9);
        lemma_value_low_bits(l[0] as nat, 8);
        assert(x =~= b + (bytes_bits(l.skip(1)) + rest));
        assert(x.take(8) =~= b);
        assert(x.skip(8) =~= bytes_bits(l.skip(1)) + rest);
        lemma_bits_bytes_of_bytes_bits(l.skip(1), rest, (m - 1) as nat);
        assert(l =~= seq![l[0]] + l.skip(1));
        assert(bits_bytes(x, m) =~= l + bits_bytes(rest, (m - l.len()) as nat));
    }
}

proof fn lemma_leb128_read(n: nat, rest: Seq<u8>)
    ensures
        terminator(leb128(n) + rest) == Some((leb128(n).len() - 1) as nat),
        varint_sum(leb128(n) + rest, leb128(n).len()) == n,
        n >= 1 ==> leb128(n).last() != 0,
        leb128(n).len() >= 1,
    decreases n,
{
    let x = leb128(n) + rest;
    if n < 128 {
        assert(x.skip(1) =~= rest);
        assert(x[0] == n as u8);
        assert(varint_sum(x.skip(1), 0) == 0);
        assert(varint_sum(x, 1) == (x[0] % 128) as nat + 128 * varint_sum(x.skip(1), 0));
    } else {
        lemma_leb128_read(n / 128, rest);
        assert(x[0] == (n % 128 + 128) as u8);
        assert(x[0] % 128 == n % 128);
        assert(varint_sum(x, leb128(n).len()) == (x[0] % 128) as nat + 128 * varint_sum(
            x.skip(1),
            leb128(n / 128).len(),
        ));
        assert(x.skip(1) =~= leb128(n / 128) + rest);
        assert(leb128(n).last() == leb128(n / 128).last());
    }
}

/// A varint read of the LEB128 bytes of a `u64` gives it back, whatever
/// follows them.
proof fn lemma_varint_round_trip(n: nat, rest: Seq<u8>)
    requires
        n < 0x1_0000_0000_0000_0000,
    ensures
        varint_read(leb128(n) + rest) == Some((n as u64, leb128(n).len())),
{
    lemma_leb128_read(n, rest);
    lemma_leb128_len(n);
    let x = leb128(n) + rest;
    let k = (leb128(n).len() - 1) as nat;
    if k > 0 {
        assert(n >= 128);
        assert(x[k as int] == leb128(n).last());
    }
}

/// Decoding a run code hands the rest of the stream on with the other
/// value.
proof fn lemma_decode_run(n: nat, rest: Seq<bool>, c: bool)
    requires
        1 <= n < 0x1_0000_0000_0000_0000,
    ensures
        decode_runs(run_code(n) + rest, c) == prepend(repeat(c, n), decode_runs(rest, !c)),
{
    let t = run_code(n) + rest;
    if n == 1 {
        assert(t.skip(1) =~= rest);
        assert(repeat(c, 1) =~= seq![c]);
    } else if n < 16 {
        reveal_with_fuel(pow2, 5);
        lemma_value_low_bits(n, 4);
        assert(t.subrange(2, 6) =~= low_bits(n, 4));
        assert(t.skip(6) =~= rest);
    } else {
        let l = leb128(n);
        lemma_leb128_len(n);
        lemma_bytes_bits_len(l);
        assert(t.skip(2) =~= bytes_bits(l) + rest);
        lemma_bits_bytes_of_bytes_bits(l, rest, 10);
        lemma_varint_round_trip(n, bits_bytes(rest, (10 - l.len()) as nat));
        assert(t.skip(2 + 8 * l.len() as int) =~= rest);
    }
}

proof fn lemma_runs_round_trip(s: Seq<bool>, p: int)
    requires
        0 <= p < s.len() < 0x1_0000_0000_0000_0000,
    ensures
        decode_runs(runs_code(s, p), s[p]) == Some(s.skip(p)),
    decreases s.len() - p,
{
    let n = run_len(s, p);
    lemma_run_len(s, p);
    lemma_decode_run(n, runs_code(s, p + n), s[p]);
    if p + n < s.len() {
        lemma_runs_round_trip(s, p + n);
        assert(repeat(s[p], n) + s.skip(p + n) =~= s.skip(p));
    } else {
        assert(runs_code(s, p + n) =~= Seq::<bool>::empty());
        assert(repeat(s[p], n) + Seq::<bool>::empty() =~= s.skip(p));
    }
}

/// Decoding the encoding of any bit sequence gives it back.
pub proof fn lemma_round_trip(s: Seq<bool>)
    requires
        s.len() < 0x1_0000_0000_0000_0000,
    ensures
        rle_decode(rle_encode(s)) == Some(s),
{
    if s.len() > 0 {
        let t = rle_encode(s);
        assert(t.skip(1) =~= runs_code(s, 0));
        lemma_runs_round_trip(s, 0);
        assert(s.skip(0) =~= s);
    }
}

/// `n` cleared bits encode as a leading 0 followed by the code of one run of
/// length `n`.
pub proof fn lemma_all_zeros(n: nat)
    requires
        n >= 1,
    ensures
        rle_encode(Seq::new(n, |_j: int| false)) == seq![false] + run_code(n),
{
    let s = Seq::new(n, |_j: int| false);
    lemma_run_len(s, 0);
    if run_len(s, 0) < n {
        assert(s[run_len(s, 0) as int] == s[0]);
    }
    assert(run_len(s, 0) == n);
    assert(runs_code(s, n as int) =~= Seq::<bool>::empty());
    assert(runs_code(s, 0) =~= run_code(n));
}

/// The empty sequence encodes to, and decodes from, the empty stream.
pub proof fn lemma_empty()
    ensures
        rle_encode(Seq::empty()) == Seq::<bool>::empty(),
        rle_decode(Seq::empty()) == Some(Seq::<bool>::empty()),
{
}

/// The largest number of bits a `Bits` can hold.
fn max_bits_usize() -> (r: usize)
    ensures
        r == max_bits(),
{
    usize::MAX / 8
}

} // verus!
