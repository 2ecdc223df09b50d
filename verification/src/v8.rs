//! Decoder for the V8 value serialization format (structured clone), which is
//! how Chromium stores IndexedDB values. The stored bytes are a Blink envelope
//! (`FF 15 ...`) around a V8 payload (`FF <version>` then the value).

use vstd::prelude::*;
use crate::varint::{read_varint, spec_varint, tail, lemma_varint_len_bounds};
use crate::idb::{slice_range, le_at, read_le};
use crate::text::{
    chars_eq, chars_of, dec, dec_chars, int_dec, int_dec_chars, latin1, latin1_chars, le_units,
    units_of, utf16_decode_lossy, utf16_lossy, utf8_lossy, utf8_lossy_string,
};

verus! {

/// A decoded value, as plain data.
pub enum V8View {
    Null,
    Bool(bool),
    Int(i64),
    UInt(u64),
    /// A finite double, by its IEEE-754 bits.
    Double(u64),
    Str(Seq<char>),
    /// Properties in first-seen order, keys distinct.
    Object(Seq<(Seq<char>, V8View)>),
    Array(Seq<V8View>),
}

/// A decoded value. `null`, `undefined`, object references and non-finite
/// numbers decode to `Null`; dates decode to their millisecond double.
pub enum V8Value {
    Null,
    Bool(bool),
    Int(i64),
    UInt(u64),
    /// A finite double, by its IEEE-754 bits.
    Double(u64),
    Str(Vec<char>),
    /// Properties in first-seen order, keys distinct.
    Object(Vec<(Vec<char>, V8Value)>),
    Array(Vec<V8Value>),
}

impl V8Value {
    pub open spec fn view_of(self) -> V8View
        decreases self,
    {
        match self {
            V8Value::Null => V8View::Null,
            V8Value::Bool(b) => V8View::Bool(b),
            V8Value::Int(i) => V8View::Int(i),
            V8Value::UInt(u) => V8View::UInt(u),
            V8Value::Double(d) => V8View::Double(d),
            V8Value::Str(s) => V8View::Str(s@),
            V8Value::Object(props) => V8View::Object(props_view(props@)),
            V8Value::Array(items) => V8View::Array(items_view(items@)),
        }
    }
}

/// Plain view of a property list.
pub open spec fn props_view(s: Seq<(Vec<char>, V8Value)>) -> Seq<(Seq<char>, V8View)>
    decreases s,
{
    if s.len() == 0 {
        Seq::empty()
    } else {
        props_view(s.drop_last()).push((s.last().0@, s.last().1.view_of()))
    }
}

/// Plain view of an item list.
pub open spec fn items_view(s: Seq<V8Value>) -> Seq<V8View>
    decreases s,
{
    if s.len() == 0 {
        Seq::empty()
    } else {
        items_view(s.drop_last()).push(s.last().view_of())
    }
}


proof fn lemma_props_view_push(s: Seq<(Vec<char>, V8Value)>, e: (Vec<char>, V8Value))
    ensures
        props_view(s.push(e)) == props_view(s).push((e.0@, e.1.view_of())),
{
    assert(s.push(e).drop_last() =~= s);
}

pub proof fn lemma_props_view_len(s: Seq<(Vec<char>, V8Value)>)
    ensures
        props_view(s).len() == s.len(),
        forall|i: int| 0 <= i < s.len() ==> (#[trigger] props_view(s)[i]) == (s[i].0@, s[i].1.view_of()),
    decreases s.len(),
{
    if s.len() > 0 {
        lemma_props_view_len(s.drop_last());
        assert forall|i: int| 0 <= i < s.len() implies (#[trigger] props_view(s)[i]) == (s[i].0@, s[i].1.view_of()) by {
            if i < s.len() - 1 {
                assert(props_view(s)[i] == props_view(s.drop_last())[i]);
            }
        }
    }
}

proof fn lemma_items_view_push(s: Seq<V8Value>, e: V8Value)
    ensures
        items_view(s.push(e)) == items_view(s).push(e.view_of()),
{
    assert(s.push(e).drop_last() =~= s);
}

/// Value of a zigzag-encoded integer.
pub open spec fn zigzag(n: u64) -> i64 {
    if n % 2 == 0 {
        (n / 2) as i64
    } else {
        (-((n / 2) as int) - 1) as i64
    }
}

/// A double by its bits: `Double` when finite, `Null` otherwise.
pub open spec fn double_view(bits: u64) -> V8View {
    if (bits / 0x10000000000000) % 2048 == 2047 {
        V8View::Null
    } else {
        V8View::Double(bits)
    }
}

/// Text of a double property key: integral values below 2^53 in magnitude
/// are written as the integer followed by ".0" (with the sign, "-0.0" for
/// negative zero); other doubles give no key.
pub open spec fn double_key(bits: u64) -> Option<Seq<char>> {
    let neg = bits >= 0x8000000000000000;
    let e = (bits / 0x10000000000000) % 2048;
    let m = bits % 0x10000000000000;
    let sign = if neg { seq!['-'] } else { Seq::<char>::empty() };
    if e == 0 && m == 0 {
        Some(sign + seq!['0', '.', '0'])
    } else if 1023 <= e < 1075 {
        let f: int = 0x10000000000000 + m;
        let d: int = vstd::arithmetic::power2::pow2((1075 - e) as nat) as int;
        if f % d == 0 {
            Some(sign + dec((f / d) as nat) + seq!['.', '0'])
        } else {
            None
        }
    } else {
        None
    }
}

/// The key a decoded value gives when it stands in key position: strings as
/// they are, numbers as their decimal text; other values give none (and the
/// property is dropped).
pub open spec fn key_text(k: V8View) -> Option<Seq<char>> {
    match k {
        V8View::Str(s) => Some(s),
        V8View::Int(i) => Some(int_dec(i as int)),
        V8View::UInt(u) => Some(dec(u as nat)),
        V8View::Double(bits) => double_key(bits),
        _ => None,
    }
}

/// First position at or after `i` whose key is `k`.
pub open spec fn key_pos(props: Seq<(Seq<char>, V8View)>, k: Seq<char>, i: int) -> Option<int>
    decreases props.len() - i,
{
    if i < 0 || i >= props.len() {
        None
    } else if props[i].0 == k {
        Some(i)
    } else {
        key_pos(props, k, i + 1)
    }
}

/// Sets property `k` to `v`: replaces the value in place if `k` is present,
/// else appends.
pub open spec fn obj_insert(props: Seq<(Seq<char>, V8View)>, k: Seq<char>, v: V8View) -> Seq<(Seq<char>, V8View)> {
    match key_pos(props, k, 0) {
        Some(i) => props.update(i, (k, v)),
        None => props.push((k, v)),
    }
}

/// Position after the padding (`00`) and version tags (`FF <ver>`) at `i`;
/// never past the end.
pub open spec fn skip_pad(b: Seq<u8>, i: int) -> int
    decreases b.len() + 2 - i,
{
    if 0 <= i < b.len() && b[i] == 0 {
        skip_pad(b, i + 1)
    } else if 0 <= i < b.len() && b[i] == 0xFF {
        skip_pad(b, if i + 2 <= b.len() { i + 2 } else { b.len() as int })
    } else {
        i
    }
}

pub proof fn lemma_skip_pad(b: Seq<u8>, i: int)
    requires
        0 <= i <= b.len(),
    ensures
        i <= skip_pad(b, i) <= b.len(),
        skip_pad(b, i) < b.len() ==> b[skip_pad(b, i)] != 0 && b[skip_pad(b, i)] != 0xFF,
    decreases b.len() + 2 - i,
{
    if i < b.len() && b[i] == 0 {
        lemma_skip_pad(b, i + 1);
    } else if i < b.len() && b[i] == 0xFF {
        lemma_skip_pad(b, if i + 2 <= b.len() { i + 2 } else { b.len() as int });
    }
}

/// A varint-counted byte run at `k`: the bytes and the position after them.
pub open spec fn counted_bytes(b: Seq<u8>, k: int) -> Option<(Seq<u8>, int)> {
    match spec_varint(tail(b, k)) {
        None => None,
        Some((n, w)) => {
            let start = k + w;
            if start + n > b.len() {
                None
            } else {
                Some((b.subrange(start, start + n), start + n))
            }
        },
    }
}

/// Two varints at `k` (trailing counts); the position after them.
pub open spec fn two_varints(b: Seq<u8>, k: int) -> Option<int> {
    match spec_varint(tail(b, k)) {
        None => None,
        Some((_, w1)) => match spec_varint(tail(b, k + w1)) {
            None => None,
            Some((_, w2)) => Some(k + w1 + w2),
        },
    }
}

/// The value encoded at `i` and the position after it.
pub open spec fn parse_value(b: Seq<u8>, i: int) -> Option<(V8View, int)>
    decreases b.len() + 2 - i, 0int,
{
    if i < 0 || i > b.len() {
        None
    } else {
        let j = skip_pad(b, i);
        proof {
            lemma_skip_pad(b, i);
        }
        if j >= b.len() {
            None
        } else {
            proof {
                lemma_varint_len_bounds(tail(b, j + 1), 0);
            }
            let c = b[j];
            let k = j + 1;
            if c == 0x54 {
                Some((V8View::Bool(true), k))
            } else if c == 0x46 {
                Some((V8View::Bool(false), k))
            } else if c == 0x30 || c == 0x5f {
                Some((V8View::Null, k))
            } else if c == 0x49 {
                match spec_varint(tail(b, k)) {
                    Some((n, w)) => Some((V8View::Int(zigzag(n)), k + w)),
                    None => None,
                }
            } else if c == 0x55 {
                match spec_varint(tail(b, k)) {
                    Some((n, w)) => Some((V8View::UInt(n), k + w)),
                    None => None,
                }
            } else if c == 0x4e || c == 0x44 {
                if k + 8 <= b.len() {
                    Some((double_view(le_at(b, k, 8)), k + 8))
                } else {
                    None
                }
            } else if c == 0x22 {
                match counted_bytes(b, k) {
                    Some((s, e)) => Some((V8View::Str(latin1(s)), e)),
                    None => None,
                }
            } else if c == 0x63 {
                match counted_bytes(b, k) {
                    Some((s, e)) => Some((V8View::Str(utf16_lossy(le_units(s))), e)),
                    None => None,
                }
            } else if c == 0x53 {
                match counted_bytes(b, k) {
                    Some((s, e)) => Some((V8View::Str(utf8_lossy(s)), e)),
                    None => None,
                }
            } else if c == 0x6f {
                parse_object(b, k, Seq::empty())
            } else if c == 0x41 {
                match spec_varint(tail(b, k)) {
                    Some((_, w)) => parse_dense(b, k + w, Seq::empty()),
                    None => None,
                }
            } else if c == 0x61 {
                match spec_varint(tail(b, k)) {
                    Some((_, w)) => parse_sparse(b, k + w, Seq::empty()),
                    None => None,
                }
            } else if c == 0x5e {
                match spec_varint(tail(b, k)) {
                    Some((_, w)) => Some((V8View::Null, k + w)),
                    None => None,
                }
            } else {
                None
            }
        }
    }
}

/// Properties from `i` until `{` (then a varint count), added to `acc`.
pub open spec fn parse_object(b: Seq<u8>, i: int, acc: Seq<(Seq<char>, V8View)>) -> Option<(V8View, int)>
    decreases b.len() + 2 - i, 1int,
{
    if i < 0 || i > b.len() {
        None
    } else {
        let j = skip_pad(b, i);
        proof {
            lemma_skip_pad(b, i);
        }
        if j >= b.len() {
            None
        } else if b[j] == 0x7b {
            match spec_varint(tail(b, j + 1)) {
                Some((_, w)) => Some((V8View::Object(acc), j + 1 + w)),
                None => None,
            }
        } else {
            match parse_value(b, j) {
                None => None,
                Some((kv, i2)) => if i2 <= j || i2 > b.len() {
                    None
                } else {
                    match parse_value(b, i2) {
                        None => None,
                        Some((v, i3)) => if i3 <= i2 || i3 > b.len() {
                            None
                        } else {
                            parse_object(
                                b,
                                i3,
                                match key_text(kv) {
                                    Some(ks) => obj_insert(acc, ks, v),
                                    None => acc,
                                },
                            )
                        },
                    }
                },
            }
        }
    }
}

/// Items from `i` until `$` (then two varint counts), added to `acc`.
pub open spec fn parse_dense(b: Seq<u8>, i: int, acc: Seq<V8View>) -> Option<(V8View, int)>
    decreases b.len() + 2 - i, 1int,
{
    if i < 0 || i > b.len() {
        None
    } else {
        let j = skip_pad(b, i);
        proof {
            lemma_skip_pad(b, i);
        }
        if j >= b.len() {
            None
        } else if b[j] == 0x24 {
            match two_varints(b, j + 1) {
                Some(e) => Some((V8View::Array(acc), e)),
                None => None,
            }
        } else {
            match parse_value(b, j) {
                None => None,
                Some((v, i2)) => if i2 <= j || i2 > b.len() {
                    None
                } else {
                    parse_dense(b, i2, acc.push(v))
                },
            }
        }
    }
}

/// Key/value pairs from `i` until `@` (then two varint counts), added to `acc`.
pub open spec fn parse_sparse(b: Seq<u8>, i: int, acc: Seq<(Seq<char>, V8View)>) -> Option<(V8View, int)>
    decreases b.len() + 2 - i, 1int,
{
    if i < 0 || i > b.len() {
        None
    } else {
        let j = skip_pad(b, i);
        proof {
            lemma_skip_pad(b, i);
        }
        if j >= b.len() {
            None
        } else if b[j] == 0x40 {
            match two_varints(b, j + 1) {
                Some(e) => Some((V8View::Object(acc), e)),
                None => None,
            }
        } else {
            match parse_value(b, j) {
                None => None,
                Some((kv, i2)) => if i2 <= j || i2 > b.len() {
                    None
                } else {
                    match parse_value(b, i2) {
                        None => None,
                        Some((v, i3)) => if i3 <= i2 || i3 > b.len() {
                            None
                        } else {
                            parse_sparse(
                                b,
                                i3,
                                match key_text(kv) {
                                    Some(ks) => obj_insert(acc, ks, v),
                                    None => acc,
                                },
                            )
                        },
                    }
                },
            }
        }
    }
}


/// First `i' >= i` with `FF 15` (the Blink envelope header) at `i'`.
pub open spec fn first_ff15(buf: Seq<u8>, i: int) -> Option<int>
    decreases buf.len() - i,
{
    if i < 0 || i + 1 >= buf.len() {
        None
    } else if buf[i] == 0xFF && buf[i + 1] == 0x15 {
        Some(i)
    } else {
        first_ff15(buf, i + 1)
    }
}

/// First `j' >= j` holding `FF`, or the end.
pub open spec fn next_ff(buf: Seq<u8>, j: int) -> int
    decreases buf.len() - j,
{
    if j < 0 || j >= buf.len() {
        j
    } else if buf[j] == 0xFF {
        j
    } else {
        next_ff(buf, j + 1)
    }
}

/// Last index below `n` holding `FF`.
pub open spec fn last_ff(buf: Seq<u8>, n: int) -> Option<int>
    decreases n,
{
    if n <= 0 || n > buf.len() {
        None
    } else if buf[n - 1] == 0xFF {
        Some(n - 1)
    } else {
        last_ff(buf, n - 1)
    }
}

/// `x`, or `usize::MAX` when `x` is larger (a position past any slice's end).
pub open spec fn clamp_pos(x: int) -> int {
    if x > usize::MAX { usize::MAX as int } else { x }
}

/// Where the V8 payload starts: after the version tag `FF <ver>` that follows
/// the Blink header `FF 15` and its padding; without a Blink header, two past
/// the last `FF`.
pub open spec fn spec_find_v8_start(buf: Seq<u8>) -> Option<int> {
    match first_ff15(buf, 0) {
        Some(i) => {
            let j = next_ff(buf, i + 2);
            if j + 1 < buf.len() { Some(j + 2) } else { None }
        },
        None => match last_ff(buf, buf.len() as int) {
            Some(p) => Some(clamp_pos(p + 2)),
            None => None,
        },
    }
}

/// Finds where the V8 payload starts in a stored value.
pub fn find_v8_start(buf: &[u8]) -> (r: Option<usize>)
    ensures
        match spec_find_v8_start(buf@) {
            Some(x) => r == Some(x as usize) && 0 <= x <= usize::MAX,
            None => r is None,
        },
{
    let len = buf.len();
    let mut i: usize = 0;
    while len > 0 && i < len - 1
        invariant
            len == buf@.len(),
            first_ff15(buf@, 0) == first_ff15(buf@, i as int),
        decreases buf@.len() - i,
    {
        if buf[i] == 0xFF && buf[i + 1] == 0x15 {
            let mut j = i + 2;
            while j < buf.len() && buf[j] != 0xFF
                invariant
                    i + 2 <= j,
                    next_ff(buf@, i + 2) == next_ff(buf@, j as int),
                decreases buf@.len() - j,
            {
                j += 1;
            }
            if j < buf.len() && j < buf.len() - 1 {
                return Some(j + 2);
            }
            return None;
        }
        i += 1;
    }
    assert(first_ff15(buf@, i as int) is None);
    let mut n: usize = buf.len();
    while n > 0
        invariant
            n <= buf@.len(),
            first_ff15(buf@, 0) is None,
            last_ff(buf@, buf@.len() as int) == last_ff(buf@, n as int),
        decreases n,
    {
        if buf[n - 1] == 0xFF {
            let p = n - 1;
            assert(first_ff15(buf@, 0) is None);
            assert(last_ff(buf@, buf@.len() as int) == Some(p as int));
            assert(spec_find_v8_start(buf@) == Some(clamp_pos(p + 2)));
            return Some(if p < usize::MAX - 1 { p + 2 } else { usize::MAX });
        }
        n -= 1;
    }
    None
}

/// The value encoded in a stored value's V8 payload, if it decodes.
pub open spec fn spec_decode(buf: Seq<u8>) -> Option<V8View> {
    match spec_find_v8_start(buf) {
        None => None,
        Some(start) => match parse_value(buf, start) {
            Some((v, _)) => Some(v),
            None => None,
        },
    }
}

fn copy_chars(v: &Vec<char>) -> (r: Vec<char>)
    ensures
        r@ == v@,
{
    vstd::slice::slice_to_vec(v.as_slice())
}

#[verifier::spinoff_prover]
#[verifier::rlimit(30)]
fn double_key_chars(bits: u64) -> (r: Option<Vec<char>>)
    ensures
        match double_key(bits) {
            Some(t) => r matches Some(x) && x@ == t,
            None => r is None,
        },
{
    let neg = bits >= 0x8000000000000000;
    let e = (bits >> 52) & 0x7ff;
    let m = bits & 0xFFFFFFFFFFFFF;
    assert(e == (bits / 0x10000000000000) % 2048) by (bit_vector)
        requires e == (bits >> 52) & 0x7ff;
    assert(m == bits % 0x10000000000000) by (bit_vector)
        requires m == bits & 0xFFFFFFFFFFFFF;
    let mut out: Vec<char> = Vec::new();
    if neg {
        out.push('-');
    }
    let ghost sign = if neg { seq!['-'] } else { Seq::<char>::empty() };
    assert(out@ =~= sign);
    if e == 0 && m == 0 {
        out.push('0');
        out.push('.');
        out.push('0');
        assert(out@ =~= sign + seq!['0', '.', '0']);
        Some(out)
    } else if 1023 <= e && e < 1075 {
        let f: u64 = 0x10000000000000 + m;
        let sh: u64 = 1075 - e;
        let q = f >> sh;
        proof {
            vstd::bits::lemma_u64_shr_is_div(f, sh);
            vstd::arithmetic::power2::lemma_pow2_pos(sh as nat);
            let d = vstd::arithmetic::power2::pow2(sh as nat) as int;
            vstd::arithmetic::div_mod::lemma_fundamental_div_mod(f as int, d);
            vstd::arithmetic::div_mod::lemma_mod_bound(f as int, d);
            let fi = f as int;
            let qi = q as int;
            assert(qi * d <= fi) by (nonlinear_arith)
                requires fi == d * qi + fi % d, fi % d >= 0;
            vstd::bits::lemma_u64_shl_is_mul(q, sh);
        }
        if (q << sh) == f {
            let mut digits = dec_chars(q);
            out.append(&mut digits);
            out.push('.');
            out.push('0');
            assert(out@ =~= sign + dec(q as nat) + seq!['.', '0']);
            Some(out)
        } else {
            None
        }
    } else {
        None
    }
}

fn key_text_chars(k: &V8Value) -> (r: Option<Vec<char>>)
    ensures
        match key_text(k.view_of()) {
            Some(t) => r matches Some(x) && x@ == t,
            None => r is None,
        },
{
    match k {
        V8Value::Str(s) => Some(copy_chars(s)),
        V8Value::Int(i) => Some(int_dec_chars(*i)),
        V8Value::UInt(u) => Some(dec_chars(*u)),
        V8Value::Double(bits) => double_key_chars(*bits),
        _ => None,
    }
}

proof fn lemma_props_view_update(s: Seq<(Vec<char>, V8Value)>, j: int, e: (Vec<char>, V8Value))
    requires
        0 <= j < s.len(),
    ensures
        props_view(s.update(j, e)) == props_view(s).update(j, (e.0@, e.1.view_of())),
{
    lemma_props_view_len(s);
    lemma_props_view_len(s.update(j, e));
    assert(props_view(s.update(j, e)) =~= props_view(s).update(j, (e.0@, e.1.view_of())));
}

/// Sets property `k` to `v` (replacing in place, or appending).
fn obj_insert_exec(props: &mut Vec<(Vec<char>, V8Value)>, k: Vec<char>, v: V8Value)
    ensures
        props_view(final(props)@) == obj_insert(props_view(old(props)@), k@, v.view_of()),
{
    let ghost pv = props_view(props@);
    proof { lemma_props_view_len(props@); }
    let mut j: usize = 0;
    while j < props.len()
        invariant
            props@ == old(props)@,
            pv == props_view(props@),
            pv.len() == props@.len(),
            forall|i: int| 0 <= i < props@.len() ==> (#[trigger] pv[i]) == (props@[i].0@, props@[i].1.view_of()),
            j <= props@.len(),
            key_pos(pv, k@, 0) == key_pos(pv, k@, j as int),
        decreases props@.len() - j,
    {
        if chars_eq(props[j].0.as_slice(), k.as_slice()) {
            let ghost kv = k@;
            let ghost vv = v.view_of();
            proof { lemma_props_view_update(props@, j as int, (k, v)); }
            props.set(j, (k, v));
            assert(props_view(props@) == pv.update(j as int, (kv, vv)));
            return;
        }
        j += 1;
    }
    let ghost kv = k@;
    let ghost vv = v.view_of();
    proof { lemma_props_view_push(props@, (k, v)); }
    props.push((k, v));
}

/// Sequential reader over a byte buffer.
pub struct V8Reader<'a> {
    b: &'a [u8],
    i: usize,
}

impl<'a> V8Reader<'a> {
    /// The bytes being read.
    pub closed spec fn buf(&self) -> Seq<u8> {
        self.b@
    }

    /// The current read position.
    pub closed spec fn pos(&self) -> int {
        self.i as int
    }

    /// A reader over `buf` positioned at `start`.
    pub fn new(buf: &'a [u8], start: usize) -> (r: Self)
        ensures
            r.buf() == buf@,
            r.pos() == start,
    {
        V8Reader { b: buf, i: start }
    }

    /// Finds the V8 payload in a stored value and decodes its top-level value.
    pub fn decode(buf: &'a [u8]) -> (r: Option<V8Value>)
        ensures
            match spec_decode(buf@) {
                Some(v) => r matches Some(x) && x.view_of() == v,
                None => r is None,
            },
    {
        let start = match find_v8_start(buf) {
            Some(s) => s,
            None => return None,
        };
        let mut r = V8Reader::new(buf, start);
        match r.read_value() {
            Ok(v) => Some(v),
            Err(_) => None,
        }
    }

    fn varint(&mut self) -> (r: Result<u64, ()>)
        ensures
            final(self).buf() == old(self).buf(),
            match spec_varint(tail(old(self).buf(), old(self).pos())) {
                Some((v, w)) => r == Ok::<u64, ()>(v) && final(self).pos() == old(self).pos() + w
                    && final(self).pos() <= old(self).buf().len(),
                None => r is Err,
            },
    {
        let len = self.b.len();
        match read_varint(self.b, self.i) {
            Some((v, n)) => {
                proof {
                    if self.i > self.b@.len() {
                        assert(tail(self.b@, self.i as int).len() == 0);
                    } else {
                        assert(tail(self.b@, self.i as int).len() == self.b@.len() - self.i);
                    }
                    assert(n <= tail(self.b@, self.i as int).len());
                }
                self.i = self.i + n;
                Ok(v)
            },
            None => Err(()),
        }
    }

    fn zigzag(&mut self) -> (r: Result<i64, ()>)
        ensures
            final(self).buf() == old(self).buf(),
            match spec_varint(tail(old(self).buf(), old(self).pos())) {
                Some((v, w)) => r == Ok::<i64, ()>(zigzag(v)) && final(self).pos() == old(self).pos() + w
                    && final(self).pos() <= old(self).buf().len(),
                None => r is Err,
            },
    {
        let n = self.varint()?;
        assert(n >> 1 == n / 2 && n >> 1 < 0x8000000000000000) by (bit_vector);
        if n & 1 == 0 {
            assert(n & 1 == 0 ==> n % 2 == 0) by (bit_vector);
            Ok((n >> 1) as i64)
        } else {
            assert(n & 1 != 0 ==> n % 2 == 1) by (bit_vector);
            let h = (n >> 1) as i64;
            Ok(-h - 1)
        }
    }

    /// Moves past padding (`00`) and version tags (`FF <ver>`).
    fn skip_padding(&mut self)
        requires
            old(self).pos() <= old(self).buf().len(),
        ensures
            final(self).buf() == old(self).buf(),
            final(self).pos() == skip_pad(old(self).buf(), old(self).pos()),
    {
        let ghost b0 = self.b@;
        let ghost i0 = self.i as int;
        while self.i < self.b.len() && (self.b[self.i] == 0 || self.b[self.i] == 0xFF)
            invariant
                self.b@ == b0,
                self.i <= b0.len(),
                skip_pad(b0, i0) == skip_pad(b0, self.i as int),
            decreases b0.len() - self.i,
        {
            if self.b[self.i] == 0 {
                self.i += 1;
            } else if self.b.len() - self.i >= 2 {
                self.i += 2;
            } else {
                self.i = self.b.len();
            }
        }
    }

    /// The next byte after any padding (the reader stays on it).
    fn peek(&mut self) -> (r: Result<u8, ()>)
        requires
            old(self).pos() <= old(self).buf().len(),
        ensures
            final(self).buf() == old(self).buf(),
            final(self).pos() == skip_pad(old(self).buf(), old(self).pos()),
            final(self).pos() < old(self).buf().len() ==> r == Ok::<u8, ()>(old(self).buf()[final(self).pos()]),
            final(self).pos() >= old(self).buf().len() ==> r is Err,
    {
        self.skip_padding();
        if self.i < self.b.len() {
            Ok(self.b[self.i])
        } else {
            Err(())
        }
    }

    /// Reads a varint-counted byte run.
    fn counted(&mut self) -> (r: Result<&'a [u8], ()>)
        ensures
            final(self).buf() == old(self).buf(),
            match counted_bytes(old(self).buf(), old(self).pos()) {
                Some((s, e)) => r matches Ok(x) && x@ == s && final(self).pos() == e,
                None => r is Err,
            },
    {
        let n = self.varint()?;
        if n > (self.b.len() - self.i) as u64 {
            return Err(());
        }
        let start = self.i;
        self.i = self.i + n as usize;
        Ok(slice_range(self.b, start, self.i))
    }

    /// Reads the value at the current position (after any padding).
    pub fn read_value(&mut self) -> (r: Result<V8Value, ()>)
        ensures
            final(self).buf() == old(self).buf(),
            match parse_value(old(self).buf(), old(self).pos()) {
                Some((v, e)) => r matches Ok(x) && x.view_of() == v && final(self).pos() == e
                    && old(self).pos() < e <= old(self).buf().len(),
                None => r is Err,
            },
        decreases old(self).buf().len() + 2 - old(self).pos(), 0int,
    {
        if self.i > self.b.len() {
            return Err(());
        }
        let ghost b = self.b@;
        let ghost i0 = self.i as int;
        proof {
            lemma_skip_pad(b, i0);
        }
        self.skip_padding();
        if self.i >= self.b.len() {
            return Err(());
        }
        let c = self.b[self.i];
        self.i += 1;
        proof {
            lemma_varint_len_bounds(tail(b, self.i as int), 0);
        }
        if c == 0x54 {
            Ok(V8Value::Bool(true))
        } else if c == 0x46 {
            Ok(V8Value::Bool(false))
        } else if c == 0x30 || c == 0x5f {
            Ok(V8Value::Null)
        } else if c == 0x49 {
            let v = self.zigzag()?;
            Ok(V8Value::Int(v))
        } else if c == 0x55 {
            let v = self.varint()?;
            Ok(V8Value::UInt(v))
        } else if c == 0x4e || c == 0x44 {
            let bits = match read_le(self.b, self.i, 8) {
                Some(v) => v,
                None => return Err(()),
            };
            self.i = self.i + 8;
            let ex = (bits >> 52) & 0x7ff;
            assert(ex == (bits / 0x10000000000000) % 2048) by (bit_vector)
                requires ex == (bits >> 52) & 0x7ff;
            if ex == 0x7ff {
                Ok(V8Value::Null)
            } else {
                Ok(V8Value::Double(bits))
            }
        } else if c == 0x22 {
            let bytes = self.counted()?;
            Ok(V8Value::Str(latin1_chars(bytes)))
        } else if c == 0x63 {
            let bytes = self.counted()?;
            let units = units_of(bytes, false);
            Ok(V8Value::Str(utf16_decode_lossy(&units)))
        } else if c == 0x53 {
            let bytes = self.counted()?;
            let s = utf8_lossy_string(bytes);
            Ok(V8Value::Str(chars_of(s.as_str())))
        } else if c == 0x6f {
            self.read_object()
        } else if c == 0x41 {
            let _len = self.varint()?;
            self.read_dense_array()
        } else if c == 0x61 {
            let _len = self.varint()?;
            self.read_sparse_array()
        } else if c == 0x5e {
            let _id = self.varint()?;
            Ok(V8Value::Null)
        } else {
            Err(())
        }
    }

    /// Reads properties until `{` and its count.
    fn read_object(&mut self) -> (r: Result<V8Value, ()>)
        requires
            old(self).pos() <= old(self).buf().len(),
        ensures
            final(self).buf() == old(self).buf(),
            match parse_object(old(self).buf(), old(self).pos(), Seq::empty()) {
                Some((v, e)) => r matches Ok(x) && x.view_of() == v && final(self).pos() == e
                    && old(self).pos() < e <= old(self).buf().len(),
                None => r is Err,
            },
        decreases old(self).buf().len() + 2 - old(self).pos(), 1int,
    {
        let ghost b = self.b@;
        let ghost i0 = self.i as int;
        let mut props: Vec<(Vec<char>, V8Value)> = Vec::new();
        assert(props_view(props@) =~= Seq::<(Seq<char>, V8View)>::empty());
        loop
            invariant
                self.b@ == b,
                old(self).buf() == b,
                old(self).pos() == i0,
                i0 <= self.i <= b.len(),
                parse_object(b, i0, Seq::empty()) == parse_object(b, self.i as int, props_view(props@)),
            decreases b.len() - self.i,
        {
            let ghost i1 = self.i as int;
            proof {
                lemma_skip_pad(b, i1);
            }
            let c = self.peek()?;
            let len = self.b.len();
            assert(self.i < len);
            if c == 0x7b {
                self.i += 1;
                let _props = self.varint()?;
                return Ok(V8Value::Object(props));
            }
            let k = self.read_value()?;
            let v = self.read_value()?;
            match key_text_chars(&k) {
                Some(ks) => {
                    obj_insert_exec(&mut props, ks, v);
                },
                None => {},
            }
        }
    }

    /// Reads items until `$` and its two counts.
    fn read_dense_array(&mut self) -> (r: Result<V8Value, ()>)
        requires
            old(self).pos() <= old(self).buf().len(),
        ensures
            final(self).buf() == old(self).buf(),
            match parse_dense(old(self).buf(), old(self).pos(), Seq::empty()) {
                Some((v, e)) => r matches Ok(x) && x.view_of() == v && final(self).pos() == e
                    && old(self).pos() < e <= old(self).buf().len(),
                None => r is Err,
            },
        decreases old(self).buf().len() + 2 - old(self).pos(), 1int,
    {
        let ghost b = self.b@;
        let ghost i0 = self.i as int;
        let mut items: Vec<V8Value> = Vec::new();
        assert(items_view(items@) =~= Seq::<V8View>::empty());
        loop
            invariant
                self.b@ == b,
                old(self).buf() == b,
                old(self).pos() == i0,
                i0 <= self.i <= b.len(),
                parse_dense(b, i0, Seq::empty()) == parse_dense(b, self.i as int, items_view(items@)),
            decreases b.len() - self.i,
        {
            let ghost i1 = self.i as int;
            proof {
                lemma_skip_pad(b, i1);
            }
            let c = self.peek()?;
            let len = self.b.len();
            assert(self.i < len);
            if c == 0x24 {
                self.i += 1;
                let _props = self.varint()?;
                let _length = self.varint()?;
                return Ok(V8Value::Array(items));
            }
            let v = self.read_value()?;
            proof { lemma_items_view_push(items@, v); }
            items.push(v);
        }
    }

    /// Reads key/value pairs until `@` and its two counts.
    fn read_sparse_array(&mut self) -> (r: Result<V8Value, ()>)
        requires
            old(self).pos() <= old(self).buf().len(),
        ensures
            final(self).buf() == old(self).buf(),
            match parse_sparse(old(self).buf(), old(self).pos(), Seq::empty()) {
                Some((v, e)) => r matches Ok(x) && x.view_of() == v && final(self).pos() == e
                    && old(self).pos() < e <= old(self).buf().len(),
                None => r is Err,
            },
        decreases old(self).buf().len() + 2 - old(self).pos(), 1int,
    {
        let ghost b = self.b@;
        let ghost i0 = self.i as int;
        let mut props: Vec<(Vec<char>, V8Value)> = Vec::new();
        assert(props_view(props@) =~= Seq::<(Seq<char>, V8View)>::empty());
        loop
            invariant
                self.b@ == b,
                old(self).buf() == b,
                old(self).pos() == i0,
                i0 <= self.i <= b.len(),
                parse_sparse(b, i0, Seq::empty()) == parse_sparse(b, self.i as int, props_view(props@)),
            decreases b.len() - self.i,
        {
            let ghost i1 = self.i as int;
            proof {
                lemma_skip_pad(b, i1);
            }
            let c = self.peek()?;
            let len = self.b.len();
            assert(self.i < len);
            if c == 0x40 {
                self.i += 1;
                let _props = self.varint()?;
                let _length = self.varint()?;
                return Ok(V8Value::Object(props));
            }
            let k = self.read_value()?;
            let v = self.read_value()?;
            match key_text_chars(&k) {
                Some(ks) => {
                    obj_insert_exec(&mut props, ks, v);
                },
                None => {},
            }
        }
    }
}


/// No key occurs twice among the properties.
pub open spec fn distinct_keys(ps: Seq<(Seq<char>, V8View)>) -> bool {
    forall|a: int, b: int| 0 <= a < b < ps.len() ==> ps[a].0 != ps[b].0
}

/// Every object in `v`, at any depth, has distinct keys (as a JSON object
/// has).
pub open spec fn well_keyed(v: V8View) -> bool
    decreases v,
{
    match v {
        V8View::Object(ps) => distinct_keys(ps) && forall|k: int| 0 <= k < ps.len() ==> well_keyed(#[trigger] ps[k].1),
        V8View::Array(items) => forall|k: int| 0 <= k < items.len() ==> well_keyed(#[trigger] items[k]),
        _ => true,
    }
}

/// Properties with distinct keys and well-keyed values.
spec fn good_props(ps: Seq<(Seq<char>, V8View)>) -> bool {
    distinct_keys(ps) && forall|k: int| 0 <= k < ps.len() ==> well_keyed(#[trigger] ps[k].1)
}

proof fn lemma_key_pos(ps: Seq<(Seq<char>, V8View)>, key: Seq<char>, i: int)
    requires
        0 <= i,
    ensures
        key_pos(ps, key, i) matches Some(p) ==> i <= p < ps.len() && ps[p].0 == key,
        key_pos(ps, key, i) is None ==> forall|q: int| i <= q < ps.len() ==> ps[q].0 != key,
    decreases ps.len() - i,
{
    if i < ps.len() && ps[i].0 != key {
        lemma_key_pos(ps, key, i + 1);
    }
}

proof fn lemma_obj_insert_good(ps: Seq<(Seq<char>, V8View)>, key: Seq<char>, v: V8View)
    requires
        good_props(ps),
        well_keyed(v),
    ensures
        good_props(obj_insert(ps, key, v)),
{
    lemma_key_pos(ps, key, 0);
    let r = obj_insert(ps, key, v);
    match key_pos(ps, key, 0) {
        Some(p) => {
            assert forall|a: int, b: int| 0 <= a < b < r.len() implies r[a].0 != r[b].0 by {
                assert(r[a].0 == ps[a].0 && r[b].0 == ps[b].0);
            }
            assert forall|k: int| 0 <= k < r.len() implies well_keyed(#[trigger] r[k].1) by {
                if k != p {
                    assert(r[k] == ps[k]);
                }
            }
        },
        None => {
            assert forall|a: int, b: int| 0 <= a < b < r.len() implies r[a].0 != r[b].0 by {
                if b == ps.len() {
                    assert(r[a] == ps[a]);
                } else {
                    assert(r[a] == ps[a] && r[b] == ps[b]);
                }
            }
            assert forall|k: int| 0 <= k < r.len() implies well_keyed(#[trigger] r[k].1) by {
                if k < ps.len() {
                    assert(r[k] == ps[k]);
                }
            }
        },
    }
}

proof fn lemma_value_well_keyed(b: Seq<u8>, i: int)
    ensures
        parse_value(b, i) matches Some((v, _)) ==> well_keyed(v),
    decreases b.len() + 2 - i, 0int,
{
    if 0 <= i <= b.len() {
        let j = skip_pad(b, i);
        lemma_skip_pad(b, i);
        if j < b.len() {
            lemma_varint_len_bounds(tail(b, j + 1), 0);
            let c = b[j];
            let k = j + 1;
            if c == 0x6f {
                lemma_object_well_keyed(b, k, Seq::empty());
            } else if c == 0x41 {
                if let Some((_, w)) = spec_varint(tail(b, k)) {
                    lemma_dense_well_keyed(b, k + w, Seq::empty());
                }
            } else if c == 0x61 {
                if let Some((_, w)) = spec_varint(tail(b, k)) {
                    lemma_sparse_well_keyed(b, k + w, Seq::empty());
                }
            }
        }
    }
}

proof fn lemma_object_well_keyed(b: Seq<u8>, i: int, acc: Seq<(Seq<char>, V8View)>)
    requires
        good_props(acc),
    ensures
        parse_object(b, i, acc) matches Some((v, _)) ==> well_keyed(v),
    decreases b.len() + 2 - i, 1int,
{
    if 0 <= i <= b.len() {
        let j = skip_pad(b, i);
        lemma_skip_pad(b, i);
        if j < b.len() && b[j] != 0x7b {
            lemma_value_well_keyed(b, j);
            if let Some((kv, i2)) = parse_value(b, j) {
                if j < i2 <= b.len() {
                    lemma_value_well_keyed(b, i2);
                    if let Some((v, i3)) = parse_value(b, i2) {
                        if i2 < i3 <= b.len() {
                            let next = match key_text(kv) {
                                Some(ks) => obj_insert(acc, ks, v),
                                None => acc,
                            };
                            if let Some(ks) = key_text(kv) {
                                lemma_obj_insert_good(acc, ks, v);
                            }
                            lemma_object_well_keyed(b, i3, next);
                        }
                    }
                }
            }
        }
    }
}

proof fn lemma_sparse_well_keyed(b: Seq<u8>, i: int, acc: Seq<(Seq<char>, V8View)>)
    requires
        good_props(acc),
    ensures
        parse_sparse(b, i, acc) matches Some((v, _)) ==> well_keyed(v),
    decreases b.len() + 2 - i, 1int,
{
    if 0 <= i <= b.len() {
        let j = skip_pad(b, i);
        lemma_skip_pad(b, i);
        if j < b.len() && b[j] != 0x40 {
            lemma_value_well_keyed(b, j);
            if let Some((kv, i2)) = parse_value(b, j) {
                if j < i2 <= b.len() {
                    lemma_value_well_keyed(b, i2);
                    if let Some((v, i3)) = parse_value(b, i2) {
                        if i2 < i3 <= b.len() {
                            let next = match key_text(kv) {
                                Some(ks) => obj_insert(acc, ks, v),
                                None => acc,
                            };
                            if let Some(ks) = key_text(kv) {
                                lemma_obj_insert_good(acc, ks, v);
                            }
                            lemma_sparse_well_keyed(b, i3, next);
                        }
                    }
                }
            }
        }
    }
}

proof fn lemma_dense_well_keyed(b: Seq<u8>, i: int, acc: Seq<V8View>)
    requires
        forall|k: int| 0 <= k < acc.len() ==> well_keyed(#[trigger] acc[k]),
    ensures
        parse_dense(b, i, acc) matches Some((v, _)) ==> well_keyed(v),
    decreases b.len() + 2 - i, 1int,
{
    if 0 <= i <= b.len() {
        let j = skip_pad(b, i);
        lemma_skip_pad(b, i);
        if j < b.len() && b[j] != 0x24 {
            lemma_value_well_keyed(b, j);
            if let Some((v, i2)) = parse_value(b, j) {
                if j < i2 <= b.len() {
                    assert forall|k: int| 0 <= k < acc.push(v).len() implies well_keyed(#[trigger] acc.push(v)[k]) by {
                        if k < acc.len() {
                            assert(acc.push(v)[k] == acc[k]);
                        }
                    }
                    lemma_dense_well_keyed(b, i2, acc.push(v));
                }
            }
        }
    }
}

/// Law: a decoded value never holds an object with a key twice (a later
/// property with the same key replaces the earlier one's value, as in a JSON
/// object).
pub proof fn lemma_decode_well_keyed(buf: Seq<u8>)
    ensures
        spec_decode(buf) matches Some(v) ==> well_keyed(v),
{
    if let Some(start) = spec_find_v8_start(buf) {
        lemma_value_well_keyed(buf, start);
    }
}

/// The tag byte of a boolean: `T` for true, `F` for false.
pub open spec fn bool_tag(b: bool) -> u8 {
    if b { 0x54 } else { 0x46 }
}

/// Law: a stored boolean decodes to itself, inside a Blink envelope
/// (`FF 15`, then `FF <version>`, whatever follows the value) and as a bare
/// V8 payload (`FF <version>`).
pub proof fn lemma_decode_bool(b: bool, ver: u8, rest: Seq<u8>)
    ensures
        spec_decode(seq![0xFFu8, 0x15u8, 0xFFu8, ver, bool_tag(b)] + rest) == Some(V8View::Bool(b)),
        ver != 0x15 && ver != 0xFF ==> spec_decode(seq![0xFFu8, ver, bool_tag(b)]) == Some(V8View::Bool(b)),
{
    let e = seq![0xFFu8, 0x15u8, 0xFFu8, ver, bool_tag(b)] + rest;
    assert(e[0] == 0xFF && e[1] == 0x15 && e[2] == 0xFF && e[4] == bool_tag(b));
    assert(first_ff15(e, 0) == Some(0int));
    assert(next_ff(e, 2) == 2);
    assert(spec_find_v8_start(e) == Some(4int));
    assert(skip_pad(e, 4) == 4);
    if ver != 0x15 && ver != 0xFF {
        let w = seq![0xFFu8, ver, bool_tag(b)];
        assert(first_ff15(w, 2) is None);
        assert(first_ff15(w, 1) is None);
        assert(first_ff15(w, 0) is None);
        assert(last_ff(w, 1) == Some(0int));
        assert(last_ff(w, 2) == Some(0int));
        assert(last_ff(w, 3) == Some(0int));
        assert(spec_find_v8_start(w) == Some(2int));
        assert(skip_pad(w, 2) == 2);
    }
}

} // verus!
