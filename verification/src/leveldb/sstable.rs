//! LevelDB table (`.ldb`) read directly: footer, index block, data blocks,
//! each block optionally Snappy-compressed. Keys are not checked for order
//! (Chromium sorts them with its own comparator), since every record is read.

use vstd::prelude::*;
use vstd::arithmetic::power2::{pow2, lemma2_to64};
use crate::varint::{leb128, lemma_leb128_round_trip, read_varint, read_u32_le, spec_varint, tail, le_u32};
use crate::idb::slice_range;
use crate::leveldb::log::{Entry, entries_view, lemma_entries_view_push};

verus! {

/// Size of the table footer.
pub const FOOTER_SIZE: usize = 48;

/// Position and size of a block within the table file.
pub struct BlockHandle {
    pub offset: usize,
    pub size: usize,
}

/// Plain view of a block handle.
pub struct HandleView {
    pub offset: int,
    pub size: int,
}

impl View for BlockHandle {
    type V = HandleView;

    open spec fn view(&self) -> HandleView {
        HandleView { offset: self.offset as int, size: self.size as int }
    }
}

/// Block handle at `buf[pos..]`: varint offset, varint size. Gives the handle
/// and the bytes it took.
pub open spec fn spec_block_handle(buf: Seq<u8>, pos: int) -> Option<(HandleView, nat)> {
    match spec_varint(tail(buf, pos)) {
        None => None,
        Some((offset, n1)) => match spec_varint(tail(buf, pos + n1)) {
            None => None,
            Some((size, n2)) => Some((HandleView { offset: offset as usize as int, size: size as usize as int }, n1 + n2)),
        },
    }
}

proof fn lemma_varint_in_tail(s: Seq<u8>, k: nat)
    ensures
        crate::varint::varint_len_from(s, k) matches Some(n) ==> n <= s.len(),
    decreases 10 - k,
{
    if k < 10 && k < s.len() && s[k as int] >= 128 {
        lemma_varint_in_tail(s, k + 1);
    }
}

fn read_block_handle(buf: &[u8], pos: usize) -> (r: Option<(BlockHandle, usize)>)
    ensures
        match r {
            Some((h, n)) => spec_block_handle(buf@, pos as int) == Some((h@, n as nat)),
            None => spec_block_handle(buf@, pos as int) is None,
        },
{
    if pos > buf.len() {
        return None;
    }
    let (offset, n1) = match read_varint(buf, pos) {
        Some(p) => p,
        None => return None,
    };
    let (size, n2) = match read_varint(buf, pos + n1) {
        Some(p) => p,
        None => return None,
    };
    Some((BlockHandle { offset: offset as usize, size: size as usize }, n1 + n2))
}

/// Name for what `snap::raw::Decoder::decompress_vec` returns on the given
/// bytes: the decompressed bytes, or `None` when it reports an error.
pub uninterp spec fn snappy_decompress(input: Seq<u8>) -> Option<Seq<u8>>;

/// Decompresses raw (unframed) Snappy data.
///
/// Trusted: calls `snap::raw::Decoder::decompress_vec`. The contract only ties
/// the result to the input through `snappy_decompress`; the decoder is
/// deterministic. What it allocates (up to the length the header announces,
/// at most `u32::MAX`) is left unsaid.
#[verifier::external_body]
fn snappy_raw_decompress(input: &[u8]) -> (r: Option<Vec<u8>>)
    ensures
        match r {
            Some(v) => snappy_decompress(input@) == Some(v@),
            None => snappy_decompress(input@) is None,
        },
{
    snap::raw::Decoder::new().decompress_vec(input).ok()
}

/// The contents of the block a handle points at: the raw bytes when the
/// trailer byte after them is 0, their Snappy decompression when it is 1,
/// `None` for other compressions or a handle out of the file.
pub open spec fn spec_read_block(file: Seq<u8>, h: HandleView) -> Option<Seq<u8>> {
    let end = h.offset + h.size;
    if end > usize::MAX || end >= file.len() {
        None
    } else {
        let raw = file.subrange(h.offset, end);
        if file[end] == 0 {
            Some(raw)
        } else if file[end] == 1 {
            snappy_decompress(raw)
        } else {
            None
        }
    }
}

fn read_block(file: &[u8], handle: &BlockHandle) -> (r: Option<Vec<u8>>)
    ensures
        match r {
            Some(v) => spec_read_block(file@, handle@) == Some(v@),
            None => spec_read_block(file@, handle@) is None,
        },
{
    let start = handle.offset;
    let end = match start.checked_add(handle.size) {
        Some(e) => e,
        None => return None,
    };
    if end >= file.len() {
        return None;
    }
    let raw = slice_range(file, start, end);
    let compression = file[end];
    if compression == 0 {
        Some(vstd::slice::slice_to_vec(raw))
    } else if compression == 1 {
        snappy_raw_decompress(raw)
    } else {
        None
    }
}

/// Entries of a block from offset `p` (before `end`, where the restart array
/// begins), with the previous key `key`: each entry is varint shared,
/// varint non_shared, varint value_len, the non-shared key bytes and the value;
/// its key is the first `shared` bytes of the previous key followed by the
/// non-shared bytes. Stops at the first malformed entry; the flag tells
/// whether the block was read to its end.
pub open spec fn block_from(block: Seq<u8>, end: int, p: int, key: Seq<u8>) -> (Seq<Entry>, bool)
    decreases block.len() - p,
{
    if p < 0 || p >= end || p >= block.len() {
        (Seq::empty(), true)
    } else {
        proof {
            crate::varint::lemma_varint_len_bounds(tail(block, p), 0);
        }
        match spec_varint(tail(block, p)) {
            None => (Seq::empty(), false),
            Some((shared, n1)) => match spec_varint(tail(block, p + n1)) {
                None => (Seq::empty(), false),
                Some((non_shared, n2)) => match spec_varint(tail(block, p + n1 + n2)) {
                    None => (Seq::empty(), false),
                    Some((value_len, n3)) => {
                        let q = p + n1 + n2 + n3;
                        if shared > key.len() || q + non_shared > block.len() {
                            (Seq::empty(), false)
                        } else {
                            let k2 = key.take(shared as int) + block.subrange(q, q + non_shared);
                            let q2 = q + non_shared;
                            if q2 + value_len > block.len() {
                                (Seq::empty(), false)
                            } else {
                                let v = block.subrange(q2, q2 + value_len);
                                let rest = block_from(block, end, q2 + value_len, k2);
                                (seq![(k2, v)] + rest.0, rest.1)
                            }
                        }
                    },
                },
            },
        }
    }
}

/// The entries of a (decompressed) block, up to the first malformed one, and
/// whether the block was well formed. The last four bytes count the restart
/// points; the restart array (4 bytes each) precedes them.
pub open spec fn spec_block(block: Seq<u8>) -> (Seq<Entry>, bool) {
    if block.len() < 4 {
        (Seq::empty(), false)
    } else {
        let n = block.len();
        let num_restarts = le_u32(block[n - 4], block[n - 3], block[n - 2], block[n - 1]);
        let restart_array_size = num_restarts * 4 + 4;
        if restart_array_size > n {
            (Seq::empty(), false)
        } else {
            block_from(block, n - restart_array_size, 0, Seq::empty())
        }
    }
}

proof fn lemma_tail_len(buf: Seq<u8>, pos: int)
    requires
        0 <= pos <= buf.len(),
    ensures
        tail(buf, pos).len() == buf.len() - pos,
{
}

/// Reads a varint that must exist for the entry to be well formed.
fn entry_varint(block: &[u8], p: usize) -> (r: Option<(u64, usize)>)
    requires
        p <= block.len(),
    ensures
        match r {
            Some((v, n)) => spec_varint(tail(block@, p as int)) == Some((v, n as nat)) && p + n <= block.len(),
            None => spec_varint(tail(block@, p as int)) is None,
        },
{
    let r = read_varint(block, p);
    proof {
        lemma_tail_len(block@, p as int);
    }
    r
}

/// Appends the entries of a (decompressed) block to `out`, undoing the key
/// prefix compression, up to the first malformed entry. Returns whether the
/// block was well formed.
pub fn iter_block(block: &[u8], out: &mut Vec<(Vec<u8>, Vec<u8>)>) -> (ok: bool)
    ensures
        entries_view(final(out)@) == entries_view(old(out)@) + spec_block(block@).0,
        ok == spec_block(block@).1,
{
    if block.len() < 4 {
        assert(entries_view(out@) =~= entries_view(out@) + Seq::<Entry>::empty());
        return false;
    }
    let num_restarts = read_u32_le(block, block.len() - 4).unwrap() as u64;
    let restart_array_size: u64 = num_restarts * 4 + 4;
    if restart_array_size > block.len() as u64 {
        assert(entries_view(out@) =~= entries_view(out@) + Seq::<Entry>::empty());
        return false;
    }
    let entries_end = block.len() - restart_array_size as usize;
    let mut key: Vec<u8> = Vec::new();
    let mut p: usize = 0;
    let ghost start_out = entries_view(out@);
    let ghost goal = entries_view(old(out)@) + spec_block(block@).0;
    while p < entries_end
        invariant
            entries_end <= block.len(),
            spec_block(block@) == block_from(block@, entries_end as int, 0, Seq::empty()),
            p <= block.len(),
            start_out == entries_view(out@),
            start_out + block_from(block@, entries_end as int, p as int, key@).0 == goal,
            block_from(block@, entries_end as int, p as int, key@).1 == spec_block(block@).1,
            goal == entries_view(old(out)@) + spec_block(block@).0,
        decreases block.len() - p,
    {
        let (shared, n1) = match entry_varint(block, p) {
            Some(x) => x,
            None => {
                assert(start_out =~= start_out + Seq::<Entry>::empty());
                return false;
            },
        };
        let (non_shared, n2) = match entry_varint(block, p + n1) {
            Some(x) => x,
            None => {
                assert(start_out =~= start_out + Seq::<Entry>::empty());
                return false;
            },
        };
        let (value_len, n3) = match entry_varint(block, p + n1 + n2) {
            Some(x) => x,
            None => {
                assert(start_out =~= start_out + Seq::<Entry>::empty());
                return false;
            },
        };
        let q = p + n1 + n2 + n3;
        if shared > key.len() as u64 || non_shared > (block.len() - q) as u64 {
            assert(start_out =~= start_out + Seq::<Entry>::empty());
            return false;
        }
        let ghost old_key = key@;
        key.truncate(shared as usize);
        let q2 = q + non_shared as usize;
        let mut kd = vstd::slice::slice_to_vec(slice_range(block, q, q2));
        key.append(&mut kd);
        if value_len > (block.len() - q2) as u64 {
            assert(start_out =~= start_out + Seq::<Entry>::empty());
            return false;
        }
        let q3 = q2 + value_len as usize;
        let value = vstd::slice::slice_to_vec(slice_range(block, q2, q3));
        let e = (key.clone(), value);
        proof {
            assert(key@ =~= old_key.take(shared as int) + block@.subrange(q as int, q2 as int));
            lemma_entries_view_push(out@, e);
            let rest = block_from(block@, entries_end as int, q3 as int, key@);
            assert(start_out + (seq![(e.0@, e.1@)] + rest.0) =~= start_out.push((e.0@, e.1@)) + rest.0);
        }
        out.push(e);
        proof { start_out = entries_view(out@); }
        p = q3;
    }
    assert(start_out + Seq::<Entry>::empty() =~= start_out);
    true
}

/// The data block handles named by the values of an index block's entries
/// (values that do not hold a handle are passed over).
pub open spec fn handles_of(index_entries: Seq<Entry>) -> Seq<HandleView>
    decreases index_entries.len(),
{
    if index_entries.len() == 0 {
        Seq::empty()
    } else {
        let rest = handles_of(index_entries.drop_last());
        match spec_block_handle(index_entries.last().1, 0) {
            Some((h, _)) => rest.push(h),
            None => rest,
        }
    }
}

/// The entries of the data blocks, in order; a block that cannot be read
/// gives nothing.
pub open spec fn data_entries(file: Seq<u8>, handles: Seq<HandleView>) -> Seq<Entry>
    decreases handles.len(),
{
    if handles.len() == 0 {
        Seq::empty()
    } else {
        data_entries(file, handles.drop_last()) + match spec_read_block(file, handles.last()) {
            Some(b) => spec_block(b).0,
            None => Seq::empty(),
        }
    }
}

/// All entries of a `.ldb` table, in file order: through the footer's index
/// handle to the index block, through its entries to the data blocks.
pub open spec fn spec_table(file: Seq<u8>) -> Seq<Entry> {
    if file.len() < FOOTER_SIZE {
        Seq::empty()
    } else {
        let fs = file.len() - FOOTER_SIZE;
        match spec_block_handle(file, fs) {
            None => Seq::empty(),
            Some((_metaindex, n1)) => match spec_block_handle(file, fs + n1) {
                None => Seq::empty(),
                Some((index_handle, _)) => match spec_read_block(file, index_handle) {
                    None => Seq::empty(),
                    Some(index_block) => data_entries(file, handles_of(spec_block(index_block).0)),
                },
            },
        }
    }
}

/// Whether a table's footer holds two block handles and its index block
/// can be read.
pub open spec fn table_readable(file: Seq<u8>) -> bool {
    if file.len() < FOOTER_SIZE {
        false
    } else {
        let fs = file.len() - FOOTER_SIZE;
        match spec_block_handle(file, fs) {
            None => false,
            Some((_metaindex, n1)) => match spec_block_handle(file, fs + n1) {
                None => false,
                Some((index_handle, _)) => spec_read_block(file, index_handle) is Some,
            },
        }
    }
}

/// Reads every entry of a `.ldb` table, in file order; `None` when the
/// footer or the index block cannot be read. Damaged or unsupported data
/// blocks are passed over (a full scan tolerates partial loss).
pub fn scan_table(file: &[u8]) -> (r: Option<Vec<(Vec<u8>, Vec<u8>)>>)
    ensures
        match r {
            Some(v) => table_readable(file@) && entries_view(v@) == spec_table(file@),
            None => !table_readable(file@) && spec_table(file@) == Seq::<Entry>::empty(),
        },
{
    let mut out: Vec<(Vec<u8>, Vec<u8>)> = Vec::new();
    assert(entries_view(out@) =~= Seq::<Entry>::empty());
    if file.len() < FOOTER_SIZE {
        return None;
    }
    let footer_start = file.len() - FOOTER_SIZE;
    let (_metaindex, n1) = match read_block_handle(file, footer_start) {
        Some(x) => x,
        None => return None,
    };
    proof {
        lemma_tail_len(file@, footer_start as int);
        lemma_varint_in_tail(tail(file@, footer_start as int), 0);
    }
    if n1 > file.len() - footer_start {
        return None;
    }
    let (index_handle, _n2) = match read_block_handle(file, footer_start + n1) {
        Some(x) => x,
        None => return None,
    };
    let index_block = match read_block(file, &index_handle) {
        Some(b) => b,
        None => return None,
    };
    let mut index_entries: Vec<(Vec<u8>, Vec<u8>)> = Vec::new();
    iter_block(index_block.as_slice(), &mut index_entries);
    assert(entries_view(index_entries@) =~= spec_block(index_block@).0);
    let mut handles: Vec<BlockHandle> = Vec::new();
    let mut i: usize = 0;
    while i < index_entries.len()
        invariant
            i <= index_entries@.len(),
            handles@.map_values(|h: BlockHandle| h@) == handles_of(entries_view(index_entries@).take(i as int)),
        decreases index_entries@.len() - i,
    {
        let ghost ev = entries_view(index_entries@);
        assert(ev.take(i + 1).drop_last() =~= ev.take(i as int));
        let v = index_entries[i].1.as_slice();
        match read_block_handle(v, 0) {
            Some((h, _)) => {
                handles.push(h);
                assert(handles@.map_values(|h: BlockHandle| h@) =~= handles_of(ev.take(i as int)).push(h@));
            },
            None => {},
        }
        i += 1;
    }
    assert(entries_view(index_entries@).take(index_entries@.len() as int) =~= entries_view(index_entries@));
    let ghost hv = handles@.map_values(|h: BlockHandle| h@);
    let mut j: usize = 0;
    while j < handles.len()
        invariant
            j <= handles@.len(),
            hv == handles@.map_values(|h: BlockHandle| h@),
            entries_view(out@) == data_entries(file@, hv.take(j as int)),
        decreases handles@.len() - j,
    {
        assert(hv.take(j + 1).drop_last() =~= hv.take(j as int));
        assert(hv.take(j + 1).last() == handles@[j as int]@);
        match read_block(file, &handles[j]) {
            Some(block) => {
                iter_block(block.as_slice(), &mut out);
            },
            None => {
                assert(entries_view(out@) =~= entries_view(out@) + Seq::<Entry>::empty());
            },
        }
        j += 1;
    }
    assert(hv.take(handles@.len() as int) =~= hv);
    Some(out)
}

/// One block entry as a table writer stores it: varint `shared`, varint
/// length of the key suffix, varint length of the value, the suffix, the value.
pub open spec fn block_entry(shared: nat, suffix: Seq<u8>, value: Seq<u8>) -> Seq<u8> {
    leb128(shared) + leb128(suffix.len()) + leb128(value.len()) + suffix + value
}

/// The stored entries `(shared, suffix, value)`, one after another.
pub open spec fn encode_entries(es: Seq<(nat, Seq<u8>, Seq<u8>)>) -> Seq<u8>
    decreases es.len(),
{
    if es.len() == 0 {
        Seq::empty()
    } else {
        block_entry(es[0].0, es[0].1, es[0].2) + encode_entries(es.skip(1))
    }
}

/// The full keys and values of stored entries: each key is the first
/// `shared` bytes of the key before it (`prev` for the first) followed by
/// its suffix.
pub open spec fn expand_keys(prev: Seq<u8>, es: Seq<(nat, Seq<u8>, Seq<u8>)>) -> Seq<Entry>
    decreases es.len(),
{
    if es.len() == 0 {
        Seq::empty()
    } else {
        let k = prev.take(es[0].0 as int) + es[0].1;
        seq![(k, es[0].2)] + expand_keys(k, es.skip(1))
    }
}

/// Each entry shares no more than the key before it has, and its numbers
/// fit in 64 bits.
pub open spec fn compressible(prev: Seq<u8>, es: Seq<(nat, Seq<u8>, Seq<u8>)>) -> bool
    decreases es.len(),
{
    es.len() == 0 || {
        &&& es[0].0 <= prev.len()
        &&& es[0].0 < pow2(64)
        &&& es[0].1.len() < pow2(64)
        &&& es[0].2.len() < pow2(64)
        &&& compressible(prev.take(es[0].0 as int) + es[0].1, es.skip(1))
    }
}

proof fn lemma_varint_at(pre: Seq<u8>, n: nat, rest: Seq<u8>)
    requires
        n < pow2(64),
    ensures
        spec_varint(tail(pre + leb128(n) + rest, pre.len() as int)) == Some(((n as u64), leb128(n).len())),
        (n as u64) as int == n,
        leb128(n).len() >= 1,
{
    lemma2_to64();
    lemma_leb128_round_trip(n, rest);
    assert(tail(pre + leb128(n) + rest, pre.len() as int) =~= leb128(n) + rest);
    assert(leb128(n).len() >= 1) by {
        reveal_with_fuel(leb128, 2);
    }
}

#[verifier::rlimit(60)]
proof fn lemma_entry_fields(pre: Seq<u8>, sh: nat, suf: Seq<u8>, val: Seq<u8>, after: Seq<u8>)
    requires
        sh < pow2(64),
        suf.len() < pow2(64),
        val.len() < pow2(64),
    ensures
        ({
            let block = pre + block_entry(sh, suf, val) + after;
            let p = pre.len() as int;
            let n1 = leb128(sh).len();
            let n2 = leb128(suf.len()).len();
            let n3 = leb128(val.len()).len();
            let q = p + n1 + n2 + n3;
            &&& spec_varint(tail(block, p)) == Some(((sh as u64), n1))
            &&& spec_varint(tail(block, p + n1)) == Some(((suf.len() as u64), n2))
            &&& spec_varint(tail(block, p + n1 + n2)) == Some(((val.len() as u64), n3))
            &&& (sh as u64) as int == sh
            &&& (suf.len() as u64) as int == suf.len()
            &&& (val.len() as u64) as int == val.len()
            &&& block.subrange(q, q + suf.len()) == suf
            &&& block.subrange(q + suf.len(), q + suf.len() + val.len()) == val
            &&& block_entry(sh, suf, val).len() == n1 + n2 + n3 + suf.len() + val.len()
            &&& n1 >= 1
        }),
{
    let block = pre + block_entry(sh, suf, val) + after;
    let l1 = leb128(sh);
    let l2 = leb128(suf.len());
    let l3 = leb128(val.len());
    let tail3 = suf + val + after;
    assert(block =~= pre + l1 + (l2 + l3 + tail3));
    lemma_varint_at(pre, sh, l2 + l3 + tail3);
    assert(block =~= (pre + l1) + l2 + (l3 + tail3));
    lemma_varint_at(pre + l1, suf.len(), l3 + tail3);
    assert(block =~= (pre + l1 + l2) + l3 + tail3);
    lemma_varint_at(pre + l1 + l2, val.len(), tail3);
    let q = (pre.len() + l1.len() + l2.len() + l3.len()) as int;
    assert(block.subrange(q, q + suf.len()) =~= suf);
    assert(block.subrange(q + suf.len(), q + suf.len() + val.len()) =~= val);
}

proof fn lemma_block_from_encoded(
    pre: Seq<u8>,
    es: Seq<(nat, Seq<u8>, Seq<u8>)>,
    trailer: Seq<u8>,
    key: Seq<u8>,
)
    requires
        compressible(key, es),
    ensures
        block_from(pre + encode_entries(es) + trailer, (pre.len() + encode_entries(es).len()) as int, pre.len() as int, key)
            == (expand_keys(key, es), true),
    decreases es.len(),
{
    let block = pre + encode_entries(es) + trailer;
    let end = (pre.len() + encode_entries(es).len()) as int;
    let p = pre.len() as int;
    if es.len() > 0 {
        let sh = es[0].0;
        let suf = es[0].1;
        let val = es[0].2;
        let rest = es.skip(1);
        let e0 = block_entry(sh, suf, val);
        let after = encode_entries(rest) + trailer;
        assert(block =~= pre + e0 + after);
        lemma_entry_fields(pre, sh, suf, val, after);
        let k2 = key.take(sh as int) + suf;
        assert(block =~= (pre + e0) + encode_entries(rest) + trailer);
        lemma_block_from_encoded(pre + e0, rest, trailer, k2);
        assert(expand_keys(key, es) == seq![(k2, val)] + expand_keys(k2, rest));
    }
}

/// Law: a block written by a table writer (entries with their keys
/// prefix-compressed, then one restart point) reads back as the full keys
/// and values: each key is the first `shared` bytes of the key before it
/// followed by the entry's own suffix, and the block is well formed.
pub proof fn lemma_block_round_trip(es: Seq<(nat, Seq<u8>, Seq<u8>)>)
    requires
        compressible(Seq::empty(), es),
    ensures
        spec_block(encode_entries(es) + seq![0u8, 0u8, 0u8, 0u8, 1u8, 0u8, 0u8, 0u8]) == (expand_keys(Seq::empty(), es), true),
{
    let t = seq![0u8, 0u8, 0u8, 0u8, 1u8, 0u8, 0u8, 0u8];
    let block = encode_entries(es) + t;
    let n = block.len();
    assert(block[n - 4] == 1 && block[n - 3] == 0 && block[n - 2] == 0 && block[n - 1] == 0);
    lemma2_to64();
    lemma_block_from_encoded(Seq::empty(), es, t, Seq::empty());
    assert(Seq::<u8>::empty() + encode_entries(es) + t =~= block);
}

} // verus!
