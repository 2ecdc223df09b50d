//! The front of Chromium IndexedDB LevelDB keys (`KeyPrefix`) and the two
//! metadata records that map database and object store names to their ids.
//!
//! KeyPrefix encoding: a first byte
//! `(db_bytes - 1) << 5 | (store_bytes - 1) << 2 | (index_bytes - 1)`, then the
//! database id, object store id and index id, each little-endian in that many bytes.

use vstd::prelude::*;
use vstd::arithmetic::power2::*;
use vstd::bits::*;
use crate::varint::{leb128, lemma_leb128_round_trip, read_varint, spec_varint, tail, varint_len_from};
use crate::text::{
    be_bytes, be_units, lemma_be_round_trip, lemma_utf16_round_trip, string_from_chars, units_of, utf16_decode_strict,
    utf16_strict, utf16_units,
};

verus! {

/// Location of a record: database, object store and index, and how many key
/// bytes the prefix took (the key payload follows).
#[derive(Debug, Clone, Copy, PartialEq, Eq, Structural)]
pub struct KeyPrefix {
    pub database_id: u64,
    pub object_store_id: u64,
    pub index_id: u64,
    pub len: usize,
}

/// The index id under which an object store keeps its value records.
pub const OBJECT_STORE_DATA_INDEX_ID: u64 = 1;

/// Type byte of a `DatabaseNameKey` in the global metadata area.
pub const DATABASE_NAME_TYPE_BYTE: u8 = 201;

/// Type byte of an `ObjectStoreMetaDataKey` in a database's metadata area.
pub const OBJECT_STORE_META_DATA_TYPE_BYTE: u8 = 50;

/// The object store metadata entry that holds the store's name.
pub const OBJECT_STORE_META_DATA_NAME: u8 = 0;

/// Little-endian value of the first `n` bytes of `s`.
pub open spec fn le_value(s: Seq<u8>, n: nat) -> nat
    decreases n,
{
    if n == 0 {
        0
    } else {
        le_value(s, (n - 1) as nat) + s[n - 1] as nat * pow2((8 * (n - 1)) as nat)
    }
}

/// Little-endian value of `buf[pos..pos + n]`.
pub open spec fn le_at(buf: Seq<u8>, pos: int, n: nat) -> u64 {
    le_value(buf.subrange(pos, pos + n), n) as u64
}

/// The KeyPrefix at the front of `key`, if the key is long enough to hold it.
pub open spec fn spec_key_prefix(key: Seq<u8>) -> Option<KeyPrefix> {
    if key.len() == 0 {
        None
    } else {
        let first = key[0];
        let db = (first / 32 + 1) as nat;
        let st = ((first / 4) % 8 + 1) as nat;
        let ix = (first % 4 + 1) as nat;
        if 1 + db + st + ix > key.len() {
            None
        } else {
            Some(
                KeyPrefix {
                    database_id: le_at(key, 1, db),
                    object_store_id: le_at(key, (1 + db) as int, st),
                    index_id: le_at(key, (1 + db + st) as int, ix),
                    len: (1 + db + st + ix) as usize,
                },
            )
        }
    }
}

proof fn lemma_le_value_bound(s: Seq<u8>, n: nat)
    requires
        n <= s.len(),
    ensures
        le_value(s, n) < pow2(8 * n),
    decreases n,
{
    lemma_pow2_pos(8 * n);
    if n > 0 {
        lemma_le_value_bound(s, (n - 1) as nat);
        let p = pow2((8 * (n - 1)) as nat);
        lemma_pow2_adds((8 * (n - 1)) as nat, 8);
        lemma2_to64();
        assert(s[n - 1] as nat * p <= 255 * p) by (nonlinear_arith)
            requires s[n - 1] as nat <= 255;
        assert(pow2(8 * n) == p * 256);
    }
}

proof fn lemma_le_value_prefix(s: Seq<u8>, t: Seq<u8>, n: nat)
    requires
        n <= s.len(),
        n <= t.len(),
        forall|i: int| 0 <= i < n ==> s[i] == t[i],
    ensures
        le_value(s, n) == le_value(t, n),
    decreases n,
{
    if n > 0 {
        lemma_le_value_prefix(s, t, (n - 1) as nat);
    }
}

/// Little-endian value of `buf[pos..pos + n]` (`n` at most 8); `None` when the
/// bytes run out.
pub fn read_le(buf: &[u8], pos: usize, n: usize) -> (r: Option<u64>)
    requires
        n <= 8,
    ensures
        pos + n <= buf.len() ==> r == Some(le_at(buf@, pos as int, n as nat)),
        pos + n > buf.len() ==> r is None,
{
    if pos > buf.len() || buf.len() - pos < n {
        return None;
    }
    let ghost s = buf@.subrange(pos as int, pos + n);
    let mut v: u64 = 0;
    let mut i: usize = 0;
    proof {
        lemma2_to64();
        lemma2_to64_rest();
    }
    while i < n
        invariant
            n <= 8,
            pos + n <= buf.len(),
            s == buf@.subrange(pos as int, pos + n),
            i <= n,
            v as nat == le_value(s, i as nat),
        decreases n - i,
    {
        let b = buf[pos + i] as u64;
        assert(b == s[i as int]);
        let sh: u64 = 8 * (i as u64);
        proof {
            lemma2_to64();
            lemma2_to64_rest();
            lemma_le_value_bound(s, i as nat);
            lemma_u64_shr_is_div(v, sh);
            lemma_pow2_pos(sh as nat);
            vstd::arithmetic::div_mod::lemma_basic_div(v as int, pow2(sh as nat) as int);
            lemma_pow2_adds(sh as nat, 8);
            assert(b * pow2(sh as nat) < 256 * pow2(sh as nat)) by (nonlinear_arith)
                requires b < 256, pow2(sh as nat) > 0;
            if i < 7 {
                lemma_pow2_strictly_increases((sh + 8) as nat, 64);
            }
            lemma_u64_shl_is_mul(b, sh);
            lemma_or_shift_le(v, b, sh);
        }
        v = v | (b << sh);
        i = i + 1;
    }
    proof {
        lemma_le_value_bound(s, n as nat);
    }
    Some(v)
}

proof fn lemma_or_shift_le(r: u64, x: u64, sh: u64)
    requires
        sh < 64,
        r >> sh == 0,
    ensures
        r | (x << sh) == r + (x << sh),
{
    assert(r >> sh == 0 ==> r | (x << sh) == r + (x << sh)) by (bit_vector)
        requires sh < 64;
}

impl KeyPrefix {
    /// Reads the KeyPrefix at the front of `key`; `None` when the key is too short.
    pub fn parse(key: &[u8]) -> (r: Option<KeyPrefix>)
        ensures
            r == spec_key_prefix(key@),
    {
        if key.len() == 0 {
            return None;
        }
        let first = key[0];
        let db_bytes = ((first >> 5) & 0x07) as usize + 1;
        let store_bytes = ((first >> 2) & 0x07) as usize + 1;
        let index_bytes = (first & 0x03) as usize + 1;
        assert((first >> 5) & 0x07 == first / 32) by (bit_vector);
        assert((first >> 2) & 0x07 == (first / 4) % 8) by (bit_vector);
        assert(first & 0x03 == first % 4) by (bit_vector);
        let mut pos: usize = 1;
        let database_id = match read_le(key, pos, db_bytes) {
            Some(v) => v,
            None => return None,
        };
        pos += db_bytes;
        let object_store_id = match read_le(key, pos, store_bytes) {
            Some(v) => v,
            None => return None,
        };
        pos += store_bytes;
        let index_id = match read_le(key, pos, index_bytes) {
            Some(v) => v,
            None => return None,
        };
        pos += index_bytes;
        Some(KeyPrefix { database_id, object_store_id, index_id, len: pos })
    }

    /// Whether the record is an object store value (ObjectStoreDataKey).
    pub fn is_object_store_data(&self) -> (r: bool)
        ensures
            r == (self.index_id == OBJECT_STORE_DATA_INDEX_ID),
    {
        self.index_id == OBJECT_STORE_DATA_INDEX_ID
    }

    /// Whether the record lies in the global metadata area `<0,0,0>`.
    pub open spec fn spec_is_global_meta(&self) -> bool {
        self.database_id == 0 && self.object_store_id == 0 && self.index_id == 0
    }

    /// Whether the record lies in a database's metadata area `<db,0,0>`, `db != 0`.
    pub open spec fn spec_is_database_meta(&self) -> bool {
        self.database_id != 0 && self.object_store_id == 0 && self.index_id == 0
    }

    fn is_global_meta(&self) -> (r: bool)
        ensures
            r == self.spec_is_global_meta(),
    {
        self.database_id == 0 && self.object_store_id == 0 && self.index_id == 0
    }

    fn is_database_meta(&self) -> (r: bool)
        ensures
            r == self.spec_is_database_meta(),
    {
        self.database_id != 0 && self.object_store_id == 0 && self.index_id == 0
    }
}

/// Value of an IndexedDB `EncodeInt`: the first (at most eight) bytes, little-endian.
pub open spec fn int_le(buf: Seq<u8>) -> u64 {
    le_value(buf, if buf.len() < 8 { buf.len() } else { 8 }) as u64
}

fn decode_int_le(buf: &[u8]) -> (r: u64)
    ensures
        r == int_le(buf@),
{
    let n = if buf.len() < 8 { buf.len() } else { 8 };
    let r = read_le(buf, 0, n);
    proof {
        let s = buf@.subrange(0, n as int);
        lemma_le_value_prefix(s, buf@, n as nat);
    }
    match r {
        Some(v) => v,
        None => 0,
    }
}

/// `EncodeString`: UTF-16 big-endian with no length prefix.
pub open spec fn spec_utf16_be(buf: Seq<u8>) -> Option<Seq<char>> {
    if buf.len() % 2 != 0 {
        None
    } else {
        utf16_strict(be_units(buf))
    }
}

fn decode_utf16_be(buf: &[u8]) -> (r: Option<Vec<char>>)
    ensures
        match r {
            Some(v) => spec_utf16_be(buf@) == Some(v@),
            None => spec_utf16_be(buf@) is None,
        },
{
    if buf.len() % 2 != 0 {
        return None;
    }
    let units = units_of(buf, true);
    utf16_decode_strict(&units)
}

/// `EncodeStringWithLength` at `buf[pos..]`: a varint count of UTF-16 units,
/// then that many big-endian units. Gives the text and the bytes it took.
pub open spec fn spec_string_with_length(buf: Seq<u8>, pos: int) -> Option<(Seq<char>, nat)> {
    match spec_varint(tail(buf, pos)) {
        None => None,
        Some((n_units, used)) => {
            let start = pos + used;
            let byte_len = 2 * n_units;
            if start + byte_len > buf.len() {
                None
            } else {
                match spec_utf16_be(buf.subrange(start, start + byte_len)) {
                    Some(s) => Some((s, used + byte_len as nat)),
                    None => None,
                }
            }
        },
    }
}

fn read_string_with_length(buf: &[u8], pos: usize) -> (r: Option<(Vec<char>, usize)>)
    ensures
        match r {
            Some((s, n)) => spec_string_with_length(buf@, pos as int) == Some((s@, n as nat)),
            None => spec_string_with_length(buf@, pos as int) is None,
        },
{
    let (n_units, used) = match read_varint(buf, pos) {
        Some(p) => p,
        None => return None,
    };
    proof {
        let t = tail(buf@, pos as int);
        if pos > buf.len() {
            assert(t.len() == 0);
        }
        assert(used <= t.len()) by {
            lemma_varint_len_le(t, 0);
        }
    }
    let start = pos + used;
    if n_units > ((buf.len() - start) / 2) as u64 {
        return None;
    }
    let byte_len = (n_units as usize) * 2;
    let bytes = slice_range(buf, start, start + byte_len);
    let s = match decode_utf16_be(bytes) {
        Some(s) => s,
        None => return None,
    };
    assert(spec_varint(tail(buf@, pos as int)) == Some((n_units, used as nat)));
    assert(byte_len == 2 * n_units);
    assert(bytes@ == buf@.subrange(start as int, start + 2 * n_units));
    assert(spec_utf16_be(buf@.subrange(start as int, start + 2 * n_units)) == Some(s@));
    Some((s, used + byte_len))
}

proof fn lemma_varint_len_le(s: Seq<u8>, k: nat)
    ensures
        varint_len_from(s, k) matches Some(n) ==> n <= s.len(),
    decreases 10 - k,
{
    if k < 10 && k < s.len() && s[k as int] >= 128 {
        lemma_varint_len_le(s, k + 1);
    }
}

/// The sub-slice `buf[start..end]`.
pub fn slice_range(buf: &[u8], start: usize, end: usize) -> (r: &[u8])
    requires
        start <= end <= buf.len(),
    ensures
        r@ == buf@.subrange(start as int, end as int),
{
    &buf[start..end]
}

/// `DatabaseNameKey` record: key `<0,0,0>` + `[201]` + origin + name (each an
/// `EncodeStringWithLength`), value the database id (`EncodeInt`).
pub open spec fn spec_database_name(key: Seq<u8>, value: Seq<u8>) -> Option<(Seq<char>, u64)> {
    match spec_key_prefix(key) {
        None => None,
        Some(kp) => {
            let pos = kp.len as int;
            if !kp.spec_is_global_meta() || pos >= key.len() || key[pos] != DATABASE_NAME_TYPE_BYTE {
                None
            } else {
                match spec_string_with_length(key, pos + 1) {
                    None => None,
                    Some((_origin, used)) => match spec_string_with_length(key, pos + 1 + used) {
                        None => None,
                        Some((name, _)) => Some((name, int_le(value))),
                    },
                }
            }
        },
    }
}

/// Reads a `DatabaseNameKey` record: the database's name and id. `None` for any
/// other kind of key, or when it does not parse.
pub fn parse_database_name(key: &[u8], value: &[u8]) -> (r: Option<(String, u64)>)
    ensures
        match r {
            Some((name, id)) => spec_database_name(key@, value@) == Some((name@, id)),
            None => spec_database_name(key@, value@) is None,
        },
{
    let kp = match KeyPrefix::parse(key) {
        Some(kp) => kp,
        None => return None,
    };
    if !kp.is_global_meta() {
        return None;
    }
    let mut pos = kp.len;
    if pos >= key.len() || key[pos] != DATABASE_NAME_TYPE_BYTE {
        return None;
    }
    pos += 1;
    let (_origin, used) = match read_string_with_length(key, pos) {
        Some(p) => p,
        None => return None,
    };
    if used > key.len() {
        return None;
    }
    pos += used;
    let (name, _used) = match read_string_with_length(key, pos) {
        Some(p) => p,
        None => return None,
    };
    Some((string_from_chars(&name), decode_int_le(value)))
}

/// `ObjectStoreMetaDataKey` name record: key `<db,0,0>` + `[50]` +
/// varint(store id) + `[0]`, value the store's name (UTF-16 big-endian).
pub open spec fn spec_object_store_name(key: Seq<u8>, value: Seq<u8>) -> Option<(u64, u64, Seq<char>)> {
    match spec_key_prefix(key) {
        None => None,
        Some(kp) => {
            let pos = kp.len as int;
            if !kp.spec_is_database_meta() || pos >= key.len() || key[pos]
                != OBJECT_STORE_META_DATA_TYPE_BYTE {
                None
            } else {
                match spec_varint(tail(key, pos + 1)) {
                    None => None,
                    Some((store_id, used)) => {
                        let p = pos + 1 + used;
                        if p >= key.len() || key[p] != OBJECT_STORE_META_DATA_NAME {
                            None
                        } else {
                            match spec_utf16_be(value) {
                                Some(name) => Some((kp.database_id, store_id, name)),
                                None => None,
                            }
                        }
                    },
                }
            }
        },
    }
}

/// Reads an object store's name record: database id, object store id and
/// name. `None` for any other kind of key, or when it does not parse.
pub fn parse_object_store_name(key: &[u8], value: &[u8]) -> (r: Option<(u64, u64, String)>)
    ensures
        match r {
            Some((db, store, name)) => spec_object_store_name(key@, value@) == Some((db, store, name@)),
            None => spec_object_store_name(key@, value@) is None,
        },
{
    let kp = match KeyPrefix::parse(key) {
        Some(kp) => kp,
        None => return None,
    };
    if !kp.is_database_meta() {
        return None;
    }
    let mut pos = kp.len;
    if pos >= key.len() || key[pos] != OBJECT_STORE_META_DATA_TYPE_BYTE {
        return None;
    }
    pos += 1;
    let (store_id, used) = match read_varint(key, pos) {
        Some(p) => p,
        None => return None,
    };
    proof {
        lemma_varint_len_le(tail(key@, pos as int), 0);
    }
    pos += used;
    if pos >= key.len() || key[pos] != OBJECT_STORE_META_DATA_NAME {
        return None;
    }
    let name = match decode_utf16_be(value) {
        Some(n) => n,
        None => return None,
    };
    Some((kp.database_id, store_id, string_from_chars(&name)))
}

/// `EncodeStringWithLength` of `s`: the LEB128 count of its UTF-16 units,
/// then the units big-endian.
pub open spec fn string_with_length(s: Seq<char>) -> Seq<u8> {
    leb128(utf16_units(s).len()) + be_bytes(utf16_units(s))
}

/// An encoded text reads back as itself and its length, wherever it stands
/// and whatever follows it.
pub proof fn lemma_string_with_length(pre: Seq<u8>, s: Seq<char>, rest: Seq<u8>)
    requires
        utf16_units(s).len() < pow2(64),
    ensures
        spec_string_with_length(pre + string_with_length(s) + rest, pre.len() as int)
            == Some((s, string_with_length(s).len())),
{
    let u = utf16_units(s);
    let n = u.len();
    let e = string_with_length(s);
    let buf = pre + e + rest;
    let pos = pre.len() as int;
    lemma_be_round_trip(u);
    lemma_utf16_round_trip(s);
    lemma_leb128_round_trip(n, be_bytes(u) + rest);
    let l = leb128(n).len();
    assert(tail(buf, pos) =~= leb128(n) + (be_bytes(u) + rest));
    lemma2_to64();
    assert((n as u64) as int == n);
    assert(spec_varint(tail(buf, pos)) == Some((n as u64, l)));
    let start = pos + l;
    assert(start + 2 * n <= buf.len());
    assert(buf.subrange(start, start + 2 * n) =~= be_bytes(u));
    assert(spec_utf16_be(be_bytes(u)) == Some(s));
    assert(e.len() == l + 2 * n);
}

/// A `DatabaseNameKey` for `origin` and `name` in the global metadata area
/// (`<0,0,0>`, one byte each), followed by any bytes.
pub open spec fn database_name_key(origin: Seq<char>, name: Seq<char>, rest: Seq<u8>) -> Seq<u8> {
    seq![0u8, 0u8, 0u8, 0u8, DATABASE_NAME_TYPE_BYTE] + string_with_length(origin) + string_with_length(name) + rest
}

/// Law: a database name stored in a `DatabaseNameKey` reads back unchanged,
/// whatever bytes follow it, and the id is the value's `EncodeInt`.
pub proof fn lemma_database_name_round_trip(origin: Seq<char>, name: Seq<char>, rest: Seq<u8>, value: Seq<u8>)
    requires
        utf16_units(origin).len() < pow2(64),
        utf16_units(name).len() < pow2(64),
    ensures
        spec_database_name(database_name_key(origin, name, rest), value) == Some((name, int_le(value))),
{
    let head = seq![0u8, 0u8, 0u8, 0u8, DATABASE_NAME_TYPE_BYTE];
    let key = database_name_key(origin, name, rest);
    let eo = string_with_length(origin);
    let en = string_with_length(name);
    assert(key[0] == 0 && key[1] == 0 && key[2] == 0 && key[3] == 0 && key[4] == DATABASE_NAME_TYPE_BYTE);
    lemma2_to64();
    assert forall|j: int| 1 <= j < 4 implies le_value(#[trigger] key.subrange(j, j + 1), 1) == 0 by {
        let b = key.subrange(j, j + 1);
        assert(b[0] == key[j]);
        assert(le_value(b, 1) == le_value(b, 0) + b[0] as nat * pow2(0));
    }
    let kp = spec_key_prefix(key).unwrap();
    assert(kp.spec_is_global_meta() && kp.len == 4);
    assert(key =~= head + eo + (en + rest));
    lemma_string_with_length(head, origin, en + rest);
    assert(key =~= (head + eo) + en + rest);
    lemma_string_with_length(head + eo, name, rest);
}

} // verus!
