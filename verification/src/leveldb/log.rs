//! LevelDB write-ahead log (`.log`): the newest records, not yet compacted into tables.
//!
//! The file is a sequence of 32 KiB blocks; each block a sequence of records
//! `crc(4) + length(2, LE) + type(1) + data(length)` with type 1 = FULL,
//! 2 = FIRST, 3 = MIDDLE, 4 = LAST (fragments joined in order). A joined
//! record is a WriteBatch: `seq(8) + count(4)` then `count` entries, each a tag
//! byte and a varstring key, plus a varstring value when the tag is 1 (put);
//! tag 0 is a deletion and has no value.

use vstd::prelude::*;
use crate::varint::{read_varint, spec_varint, tail, le_u32};
use crate::idb::slice_range;

verus! {

/// Size of a log block.
pub const BLOCK_SIZE: usize = 32768;

/// Size of a record header: crc(4) + length(2) + type(1).
pub const HEADER_SIZE: usize = 7;

/// A key/value pair as plain byte sequences.
pub type Entry = (Seq<u8>, Seq<u8>);

/// The byte sequences of a list of key/value records.
pub open spec fn entries_view(v: Seq<(Vec<u8>, Vec<u8>)>) -> Seq<Entry> {
    v.map_values(|e: (Vec<u8>, Vec<u8>)| (e.0@, e.1@))
}

pub proof fn lemma_entries_view_push(v: Seq<(Vec<u8>, Vec<u8>)>, e: (Vec<u8>, Vec<u8>))
    ensures
        entries_view(v.push(e)) == entries_view(v).push((e.0@, e.1@)),
{
    assert(entries_view(v.push(e)) =~= entries_view(v).push((e.0@, e.1@)));
}

/// Varstring at `buf[pos..]`: a varint length, then that many bytes. Gives the
/// bytes and the number of bytes consumed.
pub open spec fn spec_varstring(buf: Seq<u8>, pos: int) -> Option<(Seq<u8>, nat)> {
    match spec_varint(tail(buf, pos)) {
        None => None,
        Some((len, n)) => {
            let start = pos + n;
            if start + len > buf.len() {
                None
            } else {
                Some((buf.subrange(start, start + len), n + len as nat))
            }
        },
    }
}

fn read_varstring(buf: &[u8], pos: usize) -> (r: Option<(&[u8], usize)>)
    ensures
        match r {
            Some((s, n)) => spec_varstring(buf@, pos as int) == Some((s@, n as nat)),
            None => spec_varstring(buf@, pos as int) is None,
        },
{
    if pos > buf.len() {
        proof { lemma_varstring_len(buf@, pos as int); }
        return None;
    }
    let (len, n) = match read_varint(buf, pos) {
        Some(p) => p,
        None => return None,
    };
    let start = pos + n;
    if len > (buf.len() - start) as u64 {
        return None;
    }
    let end = start + len as usize;
    Some((slice_range(buf, start, end), n + len as usize))
}

/// Entries of a WriteBatch body from offset `p`, with `remaining` entries still
/// announced: the puts in order up to the first malformed entry, and whether
/// all announced entries were read.
pub open spec fn batch_from(b: Seq<u8>, p: int, remaining: nat) -> (Seq<Entry>, bool)
    decreases remaining,
{
    if remaining == 0 {
        (Seq::empty(), true)
    } else if p < 0 || p >= b.len() {
        (Seq::empty(), false)
    } else if b[p] == 1 {
        match spec_varstring(b, p + 1) {
            None => (Seq::empty(), false),
            Some((k, kn)) => match spec_varstring(b, p + 1 + kn) {
                None => (Seq::empty(), false),
                Some((v, vn)) => {
                    let rest = batch_from(b, p + 1 + kn + vn, (remaining - 1) as nat);
                    (seq![(k, v)] + rest.0, rest.1)
                },
            },
        }
    } else if b[p] == 0 {
        match spec_varstring(b, p + 1) {
            None => (Seq::empty(), false),
            Some((_k, kn)) => batch_from(b, p + 1 + kn, (remaining - 1) as nat),
        }
    } else {
        (Seq::empty(), false)
    }
}

/// The puts of a WriteBatch, up to the first malformed entry, and whether the
/// whole batch was well formed.
pub open spec fn spec_batch(b: Seq<u8>) -> (Seq<Entry>, bool) {
    if b.len() < 12 {
        (Seq::empty(), false)
    } else {
        batch_from(b, 12, le_u32(b[8], b[9], b[10], b[11]))
    }
}

proof fn lemma_varstring_len(buf: Seq<u8>, pos: int)
    ensures
        spec_varstring(buf, pos) matches Some((_, n)) ==> 0 <= pos && pos + n <= buf.len(),
{
    if let Some((len, n)) = spec_varint(tail(buf, pos)) {
        lemma_varint_len_le(tail(buf, pos), 0);
        if pos < 0 || pos > buf.len() {
            assert(tail(buf, pos).len() == 0);
        }
    }
}

proof fn lemma_varint_len_le(s: Seq<u8>, k: nat)
    ensures
        crate::varint::varint_len_from(s, k) matches Some(n) ==> n <= s.len(),
    decreases 10 - k,
{
    if k < 10 && k < s.len() && s[k as int] >= 128 {
        lemma_varint_len_le(s, k + 1);
    }
}

/// Appends the puts of a WriteBatch to `out`, stopping at the first malformed
/// entry. Returns whether the whole batch was well formed.
pub fn scan_batch(batch: &[u8], out: &mut Vec<(Vec<u8>, Vec<u8>)>) -> (ok: bool)
    ensures
        entries_view(final(out)@) == entries_view(old(out)@) + spec_batch(batch@).0,
        ok == spec_batch(batch@).1,
{
    if batch.len() < 12 {
        assert(entries_view(out@) =~= entries_view(out@) + Seq::<Entry>::empty());
        return false;
    }
    let count = crate::varint::read_u32_le(batch, 8).unwrap();
    let ghost start_out = entries_view(out@);
    let mut p: usize = 12;
    let mut i: u32 = 0;
    while i < count
        invariant
            batch@.len() >= 12,
            count == le_u32(batch@[8], batch@[9], batch@[10], batch@[11]),
            i <= count,
            p <= batch@.len(),
            start_out + batch_from(batch@, p as int, (count - i) as nat).0 == entries_view(
                old(out)@,
            ) + spec_batch(batch@).0,
            batch_from(batch@, p as int, (count - i) as nat).1 == spec_batch(batch@).1,
            start_out == entries_view(out@),
        decreases count - i,
    {
        let ghost rem = (count - i) as nat;
        if p >= batch.len() {
            assert(entries_view(out@) =~= entries_view(out@) + Seq::<Entry>::empty());
            return false;
        }
        let tag = batch[p];
        p += 1;
        if tag == 1 {
            let (key, kn) = match read_varstring(batch, p) {
                Some(x) => x,
                None => {
                    assert(entries_view(out@) =~= entries_view(out@) + Seq::<Entry>::empty());
                    return false;
                },
            };
            proof { lemma_varstring_len(batch@, p as int); }
            p += kn;
            let (val, vn) = match read_varstring(batch, p) {
                Some(x) => x,
                None => {
                    assert(entries_view(out@) =~= entries_view(out@) + Seq::<Entry>::empty());
                    return false;
                },
            };
            proof { lemma_varstring_len(batch@, p as int); }
            p += vn;
            let e = (vstd::slice::slice_to_vec(key), vstd::slice::slice_to_vec(val));
            proof {
                lemma_entries_view_push(out@, e);
                let rest = batch_from(batch@, p as int, (rem - 1) as nat);
                assert(start_out + (seq![(e.0@, e.1@)] + rest.0) =~= start_out.push((e.0@, e.1@))
                    + rest.0);
            }
            out.push(e);
            proof { start_out = entries_view(out@); }
        } else if tag == 0 {
            let (_key, kn) = match read_varstring(batch, p) {
                Some(x) => x,
                None => {
                    assert(entries_view(out@) =~= entries_view(out@) + Seq::<Entry>::empty());
                    return false;
                },
            };
            proof { lemma_varstring_len(batch@, p as int); }
            p += kn;
        } else {
            assert(entries_view(out@) =~= entries_view(out@) + Seq::<Entry>::empty());
            return false;
        }
        i += 1;
    }
    assert(start_out + Seq::<Entry>::empty() =~= start_out);
    true
}


/// What the scan of a log yields from the next block on, carrying the pending
/// fragment `frag` (nothing when `bs` was the last block).
pub open spec fn log_next_block(file: Seq<u8>, bs: int, frag: Seq<u8>) -> Seq<Entry>
    decreases file.len() - bs, 0int,
{
    if 0 <= bs && bs + BLOCK_SIZE < file.len() {
        log_from(file, bs + BLOCK_SIZE, 0, frag)
    } else {
        Seq::empty()
    }
}

/// The puts a log yields from offset `p` of the block at `bs` on, with the
/// joined-so-far fragment `frag`. A zero header (padding), a record that runs
/// past its block, or the end of the block ends the block; records of unknown
/// type are skipped; batches are read as far as they are well formed.
pub open spec fn log_from(file: Seq<u8>, bs: int, p: int, frag: Seq<u8>) -> Seq<Entry>
    decreases file.len() - bs, BLOCK_SIZE + 1 - p,
{
    if bs < 0 || p < 0 || bs >= file.len() || p > BLOCK_SIZE {
        Seq::empty()
    } else {
        let blen = if file.len() - bs < BLOCK_SIZE { file.len() - bs } else { BLOCK_SIZE as int };
        if p + HEADER_SIZE > blen {
            log_next_block(file, bs, frag)
        } else {
            let h = bs + p;
            let length = file[h + 4] + 256 * file[h + 5];
            let rtype = file[h + 6];
            if rtype == 0 && length == 0 {
                log_next_block(file, bs, frag)
            } else if p + HEADER_SIZE + length > blen {
                log_next_block(file, bs, frag)
            } else {
                let data = file.subrange(h + HEADER_SIZE, h + HEADER_SIZE + length);
                let np = p + HEADER_SIZE + length;
                if rtype == 1 {
                    spec_batch(data).0 + log_from(file, bs, np, frag)
                } else if rtype == 2 {
                    log_from(file, bs, np, data)
                } else if rtype == 3 {
                    log_from(file, bs, np, frag + data)
                } else if rtype == 4 {
                    spec_batch(frag + data).0 + log_from(file, bs, np, Seq::empty())
                } else {
                    log_from(file, bs, np, frag)
                }
            }
        }
    }
}

/// All puts of a `.log` file, in file order.
pub open spec fn spec_log(file: Seq<u8>) -> Seq<Entry> {
    log_from(file, 0, 0, Seq::empty())
}

/// Reads every put of a `.log` file, in file order. A torn tail (a write in
/// progress) ends the scan quietly.
pub fn scan_log(file: &[u8]) -> (r: Vec<(Vec<u8>, Vec<u8>)>)
    ensures
        entries_view(r@) == spec_log(file@),
{
    let mut out: Vec<(Vec<u8>, Vec<u8>)> = Vec::new();
    let mut fragment: Vec<u8> = Vec::new();
    let mut block_start: usize = 0;
    let mut finished = false;
    assert(entries_view(out@) =~= Seq::<Entry>::empty());
    while !finished && block_start < file.len()
        invariant
            finished ==> entries_view(out@) == spec_log(file@),
            !finished ==> spec_log(file@) == entries_view(out@) + log_from(file@, block_start as int, 0, fragment@),
            !finished && block_start >= file.len() ==> log_from(file@, block_start as int, 0, fragment@) == Seq::<Entry>::empty(),
        decreases file.len() - block_start, if finished { 0int } else { 1int },
    {
        let rest = file.len() - block_start;
        let blen = if rest < BLOCK_SIZE { rest } else { BLOCK_SIZE };
        let mut p: usize = 0;
        let mut done = false;
        while !done && p + HEADER_SIZE <= blen
            invariant
                block_start < file.len(),
                blen == (if file.len() - block_start < BLOCK_SIZE { file.len() - block_start } else { BLOCK_SIZE as int }),
                p <= blen,
                done ==> spec_log(file@) == entries_view(out@) + log_next_block(file@, block_start as int, fragment@),
                !done ==> spec_log(file@) == entries_view(out@) + log_from(file@, block_start as int, p as int, fragment@),
            decreases blen - p, if done { 0int } else { 1int },
        {
            let h = block_start + p;
            let length = (file[h + 4] as usize) + 256 * (file[h + 5] as usize);
            let rtype = file[h + 6];
            let data_start = p + HEADER_SIZE;
            if rtype == 0 && length == 0 {
                done = true;
            } else if length > blen - data_start {
                done = true;
            } else {
                let data_end = data_start + length;
                let data = slice_range(file, h + HEADER_SIZE, h + HEADER_SIZE + length);
                let ghost before = entries_view(out@);
                let ghost frag0 = fragment@;
                if rtype == 1 {
                    scan_batch(data, &mut out);
                    assert(before + (spec_batch(data@).0 + log_from(file@, block_start as int, data_end as int, frag0))
                        =~= (before + spec_batch(data@).0) + log_from(file@, block_start as int, data_end as int, frag0));
                } else if rtype == 2 {
                    fragment = vstd::slice::slice_to_vec(data);
                } else if rtype == 3 {
                    let mut extra = vstd::slice::slice_to_vec(data);
                    fragment.append(&mut extra);
                } else if rtype == 4 {
                    let mut extra = vstd::slice::slice_to_vec(data);
                    fragment.append(&mut extra);
                    scan_batch(fragment.as_slice(), &mut out);
                    assert(before + (spec_batch(frag0 + data@).0 + log_from(file@, block_start as int, data_end as int, Seq::empty()))
                        =~= (before + spec_batch(frag0 + data@).0) + log_from(file@, block_start as int, data_end as int, Seq::empty()));
                    fragment.clear();
                }
                p = data_end;
            }
        }
        assert(spec_log(file@) == entries_view(out@) + log_next_block(file@, block_start as int, fragment@));
        if rest <= BLOCK_SIZE {
            finished = true;
            assert(entries_view(out@) + Seq::<Entry>::empty() =~= entries_view(out@));
        } else {
            block_start += BLOCK_SIZE;
        }
    }
    out
}


/// `a` is a prefix of `b`.
pub open spec fn is_prefix_of<T>(a: Seq<T>, b: Seq<T>) -> bool {
    a.len() <= b.len() && b.take(a.len() as int) == a
}

proof fn lemma_prefix_concat<T>(a: Seq<T>, x: Seq<T>, y: Seq<T>)
    requires
        is_prefix_of(x, y),
    ensures
        is_prefix_of(a + x, a + y),
{
    assert((a + y).take((a + x).len() as int) =~= a + y.take(x.len() as int));
}

proof fn lemma_log_from_prefix(file: Seq<u8>, k: int, bs: int, p: int, frag: Seq<u8>)
    requires
        0 <= k <= file.len(),
    ensures
        is_prefix_of(log_from(file.take(k), bs, p, frag), log_from(file, bs, p, frag)),
    decreases file.len() - bs, BLOCK_SIZE + 1 - p,
{
    let cut = file.take(k);
    if bs < 0 || p < 0 || bs >= cut.len() || p > BLOCK_SIZE {
        assert(log_from(cut, bs, p, frag) =~= Seq::<Entry>::empty());
        assert(log_from(file, bs, p, frag).take(0) =~= Seq::<Entry>::empty());
    } else {
        let blen_c = if cut.len() - bs < BLOCK_SIZE { cut.len() - bs } else { BLOCK_SIZE as int };
        let blen_f = if file.len() - bs < BLOCK_SIZE { file.len() - bs } else { BLOCK_SIZE as int };
        let h = bs + p;
        let to_next = p + HEADER_SIZE > blen_c || ({
            let length = cut[h + 4] + 256 * cut[h + 5];
            (cut[h + 6] == 0 && length == 0) || p + HEADER_SIZE + length > blen_c
        });
        if to_next {
            if bs + BLOCK_SIZE < cut.len() {
                assert(blen_c == BLOCK_SIZE && blen_f == BLOCK_SIZE);
                if p + HEADER_SIZE <= blen_c {
                    assert(cut[h + 4] == file[h + 4] && cut[h + 5] == file[h + 5] && cut[h + 6] == file[h + 6]);
                }
                lemma_log_from_prefix(file, k, bs + BLOCK_SIZE, 0, frag);
                assert(log_from(cut, bs, p, frag) == log_next_block(cut, bs, frag));
                assert(log_next_block(cut, bs, frag) == log_from(cut, bs + BLOCK_SIZE, 0, frag));
                assert(log_from(file, bs, p, frag) == log_next_block(file, bs, frag));
                assert(log_next_block(file, bs, frag) == log_from(file, bs + BLOCK_SIZE, 0, frag));
            } else {
                assert(log_from(cut, bs, p, frag) == log_next_block(cut, bs, frag));
                assert(log_next_block(cut, bs, frag) =~= Seq::<Entry>::empty());
                assert(log_from(file, bs, p, frag).take(0) =~= Seq::<Entry>::empty());
            }
        } else {
            assert(cut[h + 4] == file[h + 4] && cut[h + 5] == file[h + 5] && cut[h + 6] == file[h + 6]);
            let length = file[h + 4] + 256 * file[h + 5];
            let rtype = file[h + 6];
            let data = file.subrange(h + HEADER_SIZE, h + HEADER_SIZE + length);
            assert(cut.subrange(h + HEADER_SIZE, h + HEADER_SIZE + length) =~= data);
            let np = p + HEADER_SIZE + length;
            assert(blen_c <= blen_f);
            assert(!(rtype == 0 && length == 0));
            assert(p + HEADER_SIZE + length <= blen_f);
            if rtype == 1 {
                assert(log_from(cut, bs, p, frag) == spec_batch(data).0 + log_from(cut, bs, np, frag));
                assert(log_from(file, bs, p, frag) == spec_batch(data).0 + log_from(file, bs, np, frag));
                lemma_log_from_prefix(file, k, bs, np, frag);
                lemma_prefix_concat(spec_batch(data).0, log_from(cut, bs, np, frag), log_from(file, bs, np, frag));
            } else if rtype == 2 {
                assert(log_from(cut, bs, p, frag) == log_from(cut, bs, np, data));
                assert(log_from(file, bs, p, frag) == log_from(file, bs, np, data));
                lemma_log_from_prefix(file, k, bs, np, data);
            } else if rtype == 3 {
                assert(log_from(cut, bs, p, frag) == log_from(cut, bs, np, frag + data));
                assert(log_from(file, bs, p, frag) == log_from(file, bs, np, frag + data));
                lemma_log_from_prefix(file, k, bs, np, frag + data);
            } else if rtype == 4 {
                assert(log_from(cut, bs, p, frag) == spec_batch(frag + data).0 + log_from(cut, bs, np, Seq::empty()));
                assert(log_from(file, bs, p, frag) == spec_batch(frag + data).0 + log_from(file, bs, np, Seq::empty()));
                lemma_log_from_prefix(file, k, bs, np, Seq::empty());
                lemma_prefix_concat(
                    spec_batch(frag + data).0,
                    log_from(cut, bs, np, Seq::empty()),
                    log_from(file, bs, np, Seq::empty()),
                );
            } else {
                assert(log_from(cut, bs, p, frag) == log_from(cut, bs, np, frag));
                assert(log_from(file, bs, p, frag) == log_from(file, bs, np, frag));
                lemma_log_from_prefix(file, k, bs, np, frag);
            }
        }
    }
}

/// Law: a log cut off anywhere (a write in progress) yields a prefix of the
/// puts of the whole log: the cut drops the records it reaches, and nothing
/// read before it changes.
pub proof fn lemma_log_prefix(file: Seq<u8>, k: int)
    requires
        0 <= k <= file.len(),
    ensures
        is_prefix_of(spec_log(file.take(k)), spec_log(file)),
{
    lemma_log_from_prefix(file, k, 0, 0, Seq::empty());
}

proof fn lemma_next_shift(file: Seq<u8>, bs: int, frag: Seq<u8>)
    requires
        file.len() >= BLOCK_SIZE,
        bs >= 0,
        forall|f: Seq<u8>| #[trigger] log_from(file, bs + 2 * BLOCK_SIZE, 0, f)
            == log_from(file.skip(BLOCK_SIZE as int), bs + BLOCK_SIZE, 0, f),
    ensures
        log_next_block(file, bs + BLOCK_SIZE, frag) == log_next_block(file.skip(BLOCK_SIZE as int), bs, frag),
{
    let g = file.skip(BLOCK_SIZE as int);
    if bs + BLOCK_SIZE < g.len() {
        assert(log_next_block(file, bs + BLOCK_SIZE, frag) == log_from(file, bs + 2 * BLOCK_SIZE, 0, frag));
        assert(log_next_block(g, bs, frag) == log_from(g, bs + BLOCK_SIZE, 0, frag));
    } else {
        assert(log_next_block(file, bs + BLOCK_SIZE, frag) == Seq::<Entry>::empty());
        assert(log_next_block(g, bs, frag) == Seq::<Entry>::empty());
    }
}

proof fn lemma_log_shift(file: Seq<u8>, bs: int, p: int, frag: Seq<u8>)
    requires
        file.len() >= BLOCK_SIZE,
        bs >= 0,
    ensures
        log_from(file, bs + BLOCK_SIZE, p, frag) == log_from(file.skip(BLOCK_SIZE as int), bs, p, frag),
    decreases file.len() - bs, BLOCK_SIZE + 1 - p,
{
    let g = file.skip(BLOCK_SIZE as int);
    let fb = bs + BLOCK_SIZE;
    if p < 0 || bs >= g.len() || p > BLOCK_SIZE {
        assert(log_from(file, fb, p, frag) == Seq::<Entry>::empty());
        assert(log_from(g, bs, p, frag) == Seq::<Entry>::empty());
    } else {
        if bs + BLOCK_SIZE < g.len() {
            assert forall|f: Seq<u8>| #[trigger] log_from(file, bs + 2 * BLOCK_SIZE, 0, f)
                == log_from(g, bs + BLOCK_SIZE, 0, f) by {
                lemma_log_shift(file, bs + BLOCK_SIZE, 0, f);
            }
        }
        lemma_next_shift(file, bs, frag);
        let blen = if file.len() - fb < BLOCK_SIZE { file.len() - fb } else { BLOCK_SIZE as int };
        assert(blen == if g.len() - bs < BLOCK_SIZE { g.len() - bs } else { BLOCK_SIZE as int });
        if p + HEADER_SIZE > blen {
            assert(log_from(file, fb, p, frag) == log_next_block(file, fb, frag));
            assert(log_from(g, bs, p, frag) == log_next_block(g, bs, frag));
        } else {
            let h = fb + p;
            assert(file[h + 4] == g[bs + p + 4] && file[h + 5] == g[bs + p + 5] && file[h + 6] == g[bs + p + 6]);
            let length = file[h + 4] + 256 * file[h + 5];
            let rtype = file[h + 6];
            if rtype == 0 && length == 0 {
                assert(log_from(file, fb, p, frag) == log_next_block(file, fb, frag));
                assert(log_from(g, bs, p, frag) == log_next_block(g, bs, frag));
            } else if p + HEADER_SIZE + length > blen {
                assert(log_from(file, fb, p, frag) == log_next_block(file, fb, frag));
                assert(log_from(g, bs, p, frag) == log_next_block(g, bs, frag));
            } else {
                let data = file.subrange(h + HEADER_SIZE, h + HEADER_SIZE + length);
                assert(data =~= g.subrange(bs + p + HEADER_SIZE, bs + p + HEADER_SIZE + length));
                let np = p + HEADER_SIZE + length;
                lemma_log_shift(file, bs, np, frag);
                lemma_log_shift(file, bs, np, data);
                lemma_log_shift(file, bs, np, frag + data);
                lemma_log_shift(file, bs, np, Seq::empty());
            }
        }
    }
}

/// Law: a block that begins with padding (a zero header) gives nothing, and
/// the scan goes on with the next block: the puts of a log whose first block
/// is padding are those of the log read from the second block on.
pub proof fn lemma_log_padding_block(file: Seq<u8>)
    requires
        file.len() >= BLOCK_SIZE,
        file[4] == 0 && file[5] == 0 && file[6] == 0,
    ensures
        spec_log(file) == spec_log(file.skip(BLOCK_SIZE as int)),
{
    let g = file.skip(BLOCK_SIZE as int);
    assert(spec_log(file) == log_next_block(file, 0, Seq::empty()));
    if BLOCK_SIZE < file.len() {
        assert(log_next_block(file, 0, Seq::empty()) == log_from(file, BLOCK_SIZE as int, 0, Seq::empty()));
        lemma_log_shift(file, 0, 0, Seq::empty());
    } else {
        assert(g.len() == 0);
        assert(spec_log(g) == Seq::<Entry>::empty());
    }
}

} // verus!
