//! A plain run-length code, a baseline to compare RLE+ with: each run is its
//! LEB128 length (bytes least significant bit first) followed by its value.
//! The last bit is not a run of its own: it is counted into the run before
//! it, whatever its value.
use vstd::prelude::*;
use crate::bitstore::{bits_of, bv_get, bv_len, bv_new, bv_push, leb128, max_bits, Bits};
use crate::rleplus::{bytes_bits, lemma_leb128_len, lemma_run_len, push_varint, run_len};

verus! {

/// The codes of the runs of `s` from `p` on; the last run counts one bit
/// more than it holds.
pub open spec fn plain_runs_code(s: Seq<bool>, p: int) -> Seq<bool>
    decreases s.len() - p,
    via plain_runs_code_decreases
{
    if p < 0 || p >= s.len() {
        Seq::empty()
    } else {
        let n = run_len(s, p);
        let c = if p + n == s.len() {
            n + 1
        } else {
            n
        };
        bytes_bits(leb128(c)) + seq![s[p]] + plain_runs_code(s, p + n)
    }
}

#[via_fn]
proof fn plain_runs_code_decreases(s: Seq<bool>, p: int) {
    if 0 <= p < s.len() {
        lemma_run_len(s, p);
    }
}

/// The plain run-length code of `s`: the runs of all bits but the last,
/// the last bit added to the final run. Empty when `s` has at most one bit.
pub open spec fn plain_rle(s: Seq<bool>) -> Seq<bool> {
    if s.len() <= 1 {
        Seq::empty()
    } else {
        plain_runs_code(s.take(s.len() - 1), 0)
    }
}

/// Encodes `raw` with the plain run-length code.
pub fn rle(raw: &Bits) -> (r: Bits)
    requires
        81 * bits_of(*raw).len() <= max_bits(),
    ensures
        bits_of(r) == plain_rle(bits_of(*raw)),
{
    let ghost s = bits_of(*raw);
    let len = bv_len(raw);
    let mut out = bv_new();
    if len <= 1 {
        assert(bits_of(out) =~= plain_rle(s));
        return out;
    }
    let m = len - 1;
    let ghost h = s.take(m as int);
    let mut p: usize = 0;
    assert(bits_of(out) + plain_runs_code(h, 0) =~= plain_rle(s));
    while p < m
        invariant
            len == s.len(),
            m == len - 1,
            h == s.take(m as int),
            s == bits_of(*raw),
            81 * s.len() <= max_bits(),
            p <= m,
            bits_of(out) + plain_runs_code(h, p as int) == plain_rle(s),
            bits_of(out).len() <= 81 * p,
        decreases m - p,
    {
        let cur = bv_get(raw, p);
        let mut n: usize = 1;
        while p + n < m && bv_get(raw, p + n) == cur
            invariant
                len == s.len(),
                m == len - 1,
                h == s.take(m as int),
                s == bits_of(*raw),
                p < m,
                1 <= n,
                p + n <= m,
                cur == h[p as int],
                h[p + n - 1] == cur,
                run_len(h, p as int) == (n - 1) + run_len(h, p + n - 1),
            decreases m - p - n,
        {
            n = n + 1;
        }
        proof {
            lemma_run_len(h, p as int);
        }
        let c: usize = if p + n == m {
            n + 1
        } else {
            n
        };
        proof {
            lemma_leb128_len(c as nat);
        }
        let ghost before = bits_of(out);
        push_varint(&mut out, c as u64);
        bv_push(&mut out, cur);
        assert(plain_runs_code(h, p as int) == bytes_bits(leb128(c as nat)) + seq![cur]
            + plain_runs_code(h, p + n));
        assert(bits_of(out) + plain_runs_code(h, p + n) =~= before + plain_runs_code(
            h,
            p as int,
        ));
        p = p + n;
    }
    assert(plain_runs_code(h, p as int) =~= Seq::<bool>::empty());
    assert(bits_of(out) + plain_runs_code(h, p as int) =~= bits_of(out));
    out
}

} // verus!
