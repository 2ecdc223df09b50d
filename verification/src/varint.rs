//! LEB128 varints and fixed-width little-endian integers, shared by the
//! LevelDB and V8 layers.

use vstd::prelude::*;
use vstd::arithmetic::power2::*;
use vstd::bits::*;

verus! {

/// The bytes of `buf` from `pos` on (empty when `pos` is past the end).
pub open spec fn tail(buf: Seq<u8>, pos: int) -> Seq<u8> {
    if 0 <= pos <= buf.len() { buf.subrange(pos, buf.len() as int) } else { Seq::empty() }
}

/// Number of bytes of the varint at the front of `s`, scanning from byte `k`:
/// the first byte (at most the tenth) with its high bit clear ends it.
pub open spec fn varint_len_from(s: Seq<u8>, k: nat) -> Option<nat>
    decreases 10 - k,
{
    if k >= 10 || k >= s.len() {
        None
    } else if s[k as int] < 128 {
        Some(k + 1)
    } else {
        varint_len_from(s, k + 1)
    }
}

/// Length of the varint at the front of `s`; `None` when it is truncated or
/// runs past ten bytes.
pub open spec fn varint_len(s: Seq<u8>) -> Option<nat> {
    varint_len_from(s, 0)
}

/// Sum of the 7-bit groups of the first `n` bytes, least significant first.
pub open spec fn varint_sum(s: Seq<u8>, n: nat) -> nat
    decreases n,
{
    if n == 0 {
        0
    } else {
        varint_sum(s, (n - 1) as nat) + (s[n - 1] % 128) as nat * pow2((7 * (n - 1)) as nat)
    }
}

/// The decoded varint at the front of `s`: its value (kept to 64 bits) and its length.
pub open spec fn spec_varint(s: Seq<u8>) -> Option<(u64, nat)> {
    match varint_len(s) {
        Some(n) => Some(((varint_sum(s, n) % pow2(64)) as u64, n)),
        None => None,
    }
}

/// A varint found scanning from byte `k` is at least `k + 1` and at most ten
/// bytes long, and lies within `s`.
pub proof fn lemma_varint_len_bounds(s: Seq<u8>, k: nat)
    ensures
        varint_len_from(s, k) matches Some(n) ==> k + 1 <= n && n <= 10 && n <= s.len(),
    decreases 10 - k,
{
    if k < 10 && k < s.len() && s[k as int] >= 128 {
        lemma_varint_len_bounds(s, k + 1);
    }
}

proof fn lemma_or_shift(r: u64, x: u64, sh: u64)
    requires
        sh < 64,
        r >> sh == 0,
    ensures
        r | (x << sh) == r + (x << sh),
{
    assert(r >> sh == 0 ==> r | (x << sh) == r + (x << sh)) by (bit_vector)
        requires sh < 64;
}

proof fn lemma_sum_bound(s: Seq<u8>, n: nat)
    requires
        n <= s.len(),
    ensures
        varint_sum(s, n) < pow2(7 * n),
    decreases n,
{
    lemma_pow2_pos(7 * n);
    if n > 0 {
        lemma_sum_bound(s, (n - 1) as nat);
        let p = pow2((7 * (n - 1)) as nat);
        lemma_pow2_adds((7 * (n - 1)) as nat, 7);
        lemma2_to64();
        assert((s[n - 1] % 128) as nat * p <= 127 * p) by (nonlinear_arith)
            requires (s[n - 1] % 128) as nat <= 127;
        assert(pow2(7 * n) == p * 128);
    }
}

proof fn lemma_varint_len_shape(s: Seq<u8>, k: nat)
    requires
        k <= 10,
        forall|j: int| 0 <= j < k ==> s[j] >= 128,
        k <= s.len(),
    ensures
        varint_len(s) == varint_len_from(s, k),
    decreases k,
{
    if k > 0 {
        lemma_varint_len_shape(s, (k - 1) as nat);
    }
}

/// Reads the LEB128 varint at `buf[pos..]`: its value and the number of bytes it
/// took. `None` when it is cut off or longer than ten bytes. A tenth byte
/// contributes only the bits that still fit in 64.
pub fn read_varint(buf: &[u8], pos: usize) -> (r: Option<(u64, usize)>)
    ensures
        match spec_varint(tail(buf@, pos as int)) {
            Some((v, n)) => r == Some((v, n as usize)) && 1 <= n <= 10 && n <= tail(buf@, pos as int).len(),
            None => r is None,
        },
{
    let ghost s = tail(buf@, pos as int);
    let mut result: u64 = 0;
    let mut shift: u64 = 0;
    let mut k: usize = 0;
    if pos > buf.len() {
        return None;
    }
    proof {
        lemma_pow2_pos(64);
        assert(varint_sum(s, 0) == 0);
        vstd::arithmetic::div_mod::lemma_small_mod(0, pow2(64));
    }
    while k < 10
        invariant
            pos <= buf.len(),
            s == buf@.subrange(pos as int, buf.len() as int),
            k <= 10,
            shift == 7 * k,
            k <= s.len(),
            forall|j: int| 0 <= j < k ==> s[j] >= 128,
            result as nat == varint_sum(s, k as nat) % pow2(64),
            k < 10 ==> result as nat == varint_sum(s, k as nat),
        decreases 10 - k,
    {
        if pos + k >= buf.len() {
            proof { lemma_varint_len_shape(s, k as nat); }
            return None;
        }
        let byte = buf[pos + k];
        assert(byte == s[k as int]);
        let x: u64 = (byte & 0x7f) as u64;
        assert(x == byte % 128) by (bit_vector)
            requires x == (byte & 0x7f) as u64;
        proof {
            lemma_sum_bound(s, k as nat);
            lemma_pow2_pos(shift as nat);
            lemma_u64_shr_is_div(result, shift);
            if k < 9 {
                lemma_pow2_strictly_increases(shift as nat, 63);
                lemma_u64_pow2_no_overflow(63);
            } else {
                lemma_u64_pow2_no_overflow(63);
            }
            assert(result as nat / pow2(shift as nat) == 0) by {
                vstd::arithmetic::div_mod::lemma_basic_div(result as int, pow2(shift as nat) as int);
            }
            lemma_or_shift(result, x, shift);
        }
        let ghost old_result = result;
        result = result | (x << shift);
        proof {
            lemma_pow2_adds(shift as nat, 7);
            lemma2_to64();
            lemma2_to64_rest();
            assert(varint_sum(s, (k + 1) as nat) == varint_sum(s, k as nat) + x * pow2(shift as nat));
            if k < 9 {
                lemma_pow2_strictly_increases((shift + 7) as nat, 64);
                assert(x * pow2(shift as nat) < 128 * pow2(shift as nat)) by (nonlinear_arith)
                    requires x < 128, pow2(shift as nat) > 0;
                assert(128 * pow2(shift as nat) == pow2((shift + 7) as nat));
                lemma_u64_shl_is_mul(x, shift);
                assert(varint_sum(s, (k + 1) as nat) < pow2(64)) by {
                    lemma_sum_bound(s, (k + 1) as nat);
                    if k < 8 {
                        lemma_pow2_strictly_increases((7 * (k + 1)) as nat, 64);
                    }
                }
                vstd::arithmetic::div_mod::lemma_small_mod(
                    varint_sum(s, (k + 1) as nat), pow2(64));
            } else {
                assert(shift == 63);
                assert(x << 63u64 == (x % 2) * 0x8000000000000000) by (bit_vector)
                    requires x < 128;
                assert(old_result < 0x8000000000000000);
                assert(x * 0x8000000000000000 == (x % 2) * 0x8000000000000000
                    + (x / 2) * 0x10000000000000000) by (nonlinear_arith);
                vstd::arithmetic::div_mod::lemma_mod_multiples_vanish(
                    (x / 2) as int, old_result + (x % 2) * 0x8000000000000000, 0x10000000000000000);
                vstd::arithmetic::div_mod::lemma_small_mod(
                    (old_result + (x % 2) * 0x8000000000000000) as nat, 0x10000000000000000);
            }
        }
        k = k + 1;
        shift = shift + 7;
        if byte & 0x80 == 0 {
            assert(byte < 128) by (bit_vector)
                requires byte & 0x80 == 0;
            proof { lemma_varint_len_shape(s, (k - 1) as nat); }
            return Some((result, k));
        }
        assert(byte >= 128) by (bit_vector)
            requires byte & 0x80 != 0;
    }
    proof { lemma_varint_len_shape(s, 10); }
    None
}

/// The little-endian value of four bytes.
pub open spec fn le_u32(b0: u8, b1: u8, b2: u8, b3: u8) -> nat {
    b0 as nat + 0x100 * b1 as nat + 0x10000 * b2 as nat + 0x1000000 * b3 as nat
}

/// Reads a little-endian `u32` at `buf[pos..pos + 4]`; `None` when fewer than
/// four bytes are left.
pub fn read_u32_le(buf: &[u8], pos: usize) -> (r: Option<u32>)
    ensures
        pos + 4 <= buf.len() ==> r == Some(le_u32(buf[pos as int], buf[pos + 1], buf[pos + 2],
            buf[pos + 3]) as u32),
        pos + 4 > buf.len() ==> r is None,
{
    if pos > buf.len() || buf.len() - pos < 4 {
        return None;
    }
    let b0 = buf[pos];
    let b1 = buf[pos + 1];
    let b2 = buf[pos + 2];
    let b3 = buf[pos + 3];
    let v: u32 = (b0 as u32) | ((b1 as u32) << 8) | ((b2 as u32) << 16) | ((b3 as u32) << 24);
    assert(v == b0 as u32 + 0x100 * (b1 as u32) + 0x10000 * (b2 as u32) + 0x1000000 * (b3 as u32))
        by (bit_vector)
        requires v == (b0 as u32) | ((b1 as u32) << 8) | ((b2 as u32) << 16) | ((b3 as u32) << 24);
    Some(v)
}

/// LEB128 encoding of `n`: seven bits a byte, least significant first, the
/// high bit set on every byte but the last.
pub open spec fn leb128(n: nat) -> Seq<u8>
    decreases n,
{
    if n < 128 {
        seq![n as u8]
    } else {
        seq![(n % 128 + 128) as u8] + leb128(n / 128)
    }
}

proof fn lemma_sum_cons(b: u8, t: Seq<u8>, m: nat)
    requires
        m <= t.len(),
    ensures
        varint_sum(seq![b] + t, m + 1) == (b % 128) as nat + 128 * varint_sum(t, m),
    decreases m,
{
    let x = seq![b] + t;
    lemma2_to64();
    if m == 0 {
        assert(x[0] == b);
        assert(varint_sum(x, 1) == varint_sum(x, 0) + (x[0] % 128) as nat * pow2(0));
        assert(varint_sum(t, 0) == 0);
    } else {
        lemma_sum_cons(b, t, (m - 1) as nat);
        assert(x[m as int] == t[m - 1]);
        lemma_pow2_adds((7 * (m - 1)) as nat, 7);
        let p = pow2((7 * (m - 1)) as nat);
        assert(pow2(7 * m) == p * 128);
        let c = (t[m - 1] % 128) as nat;
        assert(varint_sum(x, m + 1) == varint_sum(x, m) + c * pow2(7 * m));
        assert(varint_sum(t, m) == varint_sum(t, (m - 1) as nat) + c * p);
        assert(c * (p * 128) == 128 * (c * p)) by (nonlinear_arith);
        assert(128 * varint_sum(t, m) == 128 * varint_sum(t, (m - 1) as nat) + 128 * (c * p)) by (nonlinear_arith)
            requires varint_sum(t, m) == varint_sum(t, (m - 1) as nat) + c * p;
    }
}

proof fn lemma_leb_shape(n: nat, rest: Seq<u8>)
    ensures
        1 <= leb128(n).len(),
        ({
            let s = leb128(n) + rest;
            let l = leb128(n).len();
            &&& varint_sum(s, l) == n
            &&& s[l - 1] < 128
            &&& forall|j: int| 0 <= j < l - 1 ==> s[j] >= 128
            &&& (l == 1 || pow2((7 * (l - 1)) as nat) <= n)
        }),
    decreases n,
{
    let s = leb128(n) + rest;
    let l = leb128(n).len();
    if n < 128 {
        assert(s[0] == n as u8);
        lemma2_to64();
        assert(varint_sum(s, 1) == varint_sum(s, 0) + (s[0] % 128) as nat * pow2(0));
        assert(l == 1);
    } else {
        let b = (n % 128 + 128) as u8;
        let t = leb128(n / 128) + rest;
        lemma_leb_shape(n / 128, rest);
        let l1 = leb128(n / 128).len();
        assert(s =~= seq![b] + t);
        lemma_sum_cons(b, t, l1);
        assert(varint_sum(s, l) == n);
        assert forall|j: int| 0 <= j < l - 1 implies s[j] >= 128 by {
            if j > 0 {
                assert(s[j] == t[j - 1]);
            }
        }
        assert(s[l - 1] == t[l1 - 1]);
        lemma2_to64();
        lemma_pow2_adds((7 * (l1 - 1)) as nat, 7);
        assert(pow2((7 * (l - 1)) as nat) <= n) by (nonlinear_arith)
            requires pow2((7 * (l - 1)) as nat) == 128 * pow2((7 * (l1 - 1)) as nat),
                l1 == 1 || pow2((7 * (l1 - 1)) as nat) <= n / 128, pow2(0) == 1, n >= 128,
                l1 == 1 ==> pow2((7 * (l1 - 1)) as nat) == 1;
    }
}

proof fn lemma_len_from_shape(s: Seq<u8>, l: nat, k: nat)
    requires
        1 <= l <= 10,
        l <= s.len(),
        k < l,
        s[l - 1] < 128,
        forall|j: int| 0 <= j < l - 1 ==> s[j] >= 128,
    ensures
        varint_len_from(s, k) == Some(l),
    decreases l - k,
{
    if k < l - 1 {
        lemma_len_from_shape(s, l, k + 1);
    }
}

/// A varint reads back the value that LEB128 encoded, whatever follows it.
pub proof fn lemma_leb128_round_trip(n: nat, rest: Seq<u8>)
    requires
        n < pow2(64),
    ensures
        leb128(n).len() <= 10,
        spec_varint(leb128(n) + rest) == Some((n as u64, leb128(n).len())),
{
    lemma_leb_shape(n, rest);
    let s = leb128(n) + rest;
    let l = leb128(n).len();
    if l > 10 {
        lemma_pow2_strictly_increases(64, (7 * (l - 1)) as nat);
    }
    lemma_len_from_shape(s, l, 0);
    vstd::arithmetic::div_mod::lemma_small_mod(n, pow2(64));
}

} // verus!
