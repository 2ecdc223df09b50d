//! LevelDB files read in full, with no regard for key order: tables (`.ldb`)
//! and write-ahead logs (`.log`).

pub mod log;
pub mod sstable;

use vstd::prelude::*;
use crate::index::{PosIndex, bytes_fp, fingerprint_bytes};
use crate::leveldb::log::{Entry, entries_view, scan_log, spec_log};
use crate::leveldb::sstable::{scan_table, spec_table};

verus! {

/// The value the last put of `k` in `s` wrote, if any.
pub open spec fn last_value(s: Seq<Entry>, k: Seq<u8>) -> Option<Seq<u8>>
    decreases s.len(),
{
    if s.len() == 0 {
        None
    } else if s.last().0 == k {
        Some(s.last().1)
    } else {
        last_value(s.drop_last(), k)
    }
}

/// A table entry as a put. A table stores internal keys: the user key
/// followed by an 8-byte trailer (sequence number and type, little-endian,
/// so the type is the trailer's first byte). A value (type 1) is a put of the
/// user key; a deletion (type 0), or a key too short for a trailer, gives
/// nothing.
pub open spec fn table_put(e: Entry) -> Seq<Entry> {
    if e.0.len() >= 8 && e.0[e.0.len() - 8] == 1 {
        seq![(e.0.take(e.0.len() - 8), e.1)]
    } else {
        Seq::empty()
    }
}

/// The puts of a table's entries, oldest first: a table keeps the versions
/// of a key newest first, so its entries are taken from last to first.
pub open spec fn table_puts(es: Seq<Entry>) -> Seq<Entry>
    decreases es.len(),
{
    if es.len() == 0 {
        Seq::empty()
    } else {
        table_puts(es.skip(1)) + table_put(es[0])
    }
}

/// Puts of the given tables, file after file.
pub open spec fn tables_entries(files: Seq<Seq<u8>>) -> Seq<Entry>
    decreases files.len(),
{
    if files.len() == 0 {
        Seq::empty()
    } else {
        tables_entries(files.drop_last()) + table_puts(spec_table(files.last()))
    }
}

/// The puts of a table's entries (see `table_puts`).
pub fn puts_of_table(es: &Vec<(Vec<u8>, Vec<u8>)>) -> (r: Vec<(Vec<u8>, Vec<u8>)>)
    ensures
        entries_view(r@) == table_puts(entries_view(es@)),
{
    let ghost ev = entries_view(es@);
    let mut out: Vec<(Vec<u8>, Vec<u8>)> = Vec::new();
    let mut i: usize = es.len();
    assert(ev.skip(i as int) =~= Seq::<Entry>::empty());
    assert(entries_view(out@) =~= Seq::<Entry>::empty());
    while i > 0
        invariant
            ev == entries_view(es@),
            ev.len() == es@.len(),
            i <= es@.len(),
            entries_view(out@) == table_puts(ev.skip(i as int)),
        decreases i,
    {
        i -= 1;
        assert(ev.skip(i as int).skip(1) =~= ev.skip(i + 1));
        assert(ev.skip(i as int)[0] == ev[i as int]);
        assert(ev[i as int] == (es@[i as int].0@, es@[i as int].1@));
        let k = es[i].0.as_slice();
        let kl = k.len();
        if kl >= 8 && k[kl - 8] == 1 {
            let user = crate::idb::slice_range(k, 0, kl - 8);
            assert(user@ =~= k@.take(kl - 8));
            let e = (vstd::slice::slice_to_vec(user), es[i].1.clone());
            let ghost before = entries_view(out@);
            proof { crate::leveldb::log::lemma_entries_view_push(out@, e); }
            out.push(e);
            assert(entries_view(out@) =~= before + table_put(ev[i as int]));
        } else {
            assert(entries_view(out@) =~= entries_view(out@) + table_put(ev[i as int]));
        }
    }
    assert(ev.skip(0) =~= ev);
    out
}

/// Entries of the given logs, file after file.
pub open spec fn logs_entries(files: Seq<Seq<u8>>) -> Seq<Entry>
    decreases files.len(),
{
    if files.len() == 0 {
        Seq::empty()
    } else {
        logs_entries(files.drop_last()) + spec_log(files.last())
    }
}

/// The byte contents of a list of files.
pub open spec fn files_view(files: Seq<Vec<u8>>) -> Seq<Seq<u8>> {
    files.map_values(|f: Vec<u8>| f@)
}

/// Every put of a database, oldest first: the tables in the order given, then
/// the logs in the order given.
pub open spec fn all_puts(tables: Seq<Seq<u8>>, logs: Seq<Seq<u8>>) -> Seq<Entry> {
    tables_entries(tables) + logs_entries(logs)
}

/// The keys put in `s`, each once, in the order of their first put.
pub open spec fn key_order(s: Seq<Entry>) -> Seq<Seq<u8>>
    decreases s.len(),
{
    if s.len() == 0 {
        Seq::empty()
    } else {
        let prev = key_order(s.drop_last());
        if prev.contains(s.last().0) {
            prev
        } else {
            prev.push(s.last().0)
        }
    }
}

/// The keys of a list of records.
pub open spec fn keys_of(r: Seq<Entry>) -> Seq<Seq<u8>> {
    r.map_values(|e: Entry| e.0)
}

/// The records after applying the puts `s` in order: one per key, in the
/// order of the keys' first puts, each with the value of its key's last put.
pub open spec fn merged(s: Seq<Entry>) -> Seq<Entry> {
    Seq::new(key_order(s).len(), |i: int| (key_order(s)[i], last_value(s, key_order(s)[i])->0))
}

/// What a list of records says: distinct keys, and each key's value is the
/// value of the last put of that key in `puts`; every key put appears.
pub open spec fn is_latest_of(r: Seq<Entry>, puts: Seq<Entry>) -> bool {
    &&& forall|i: int, j: int| 0 <= i < j < r.len() ==> r[i].0 != r[j].0
    &&& forall|i: int| 0 <= i < r.len() ==> last_value(puts, #[trigger] r[i].0) == Some(r[i].1)
    &&& forall|k: Seq<u8>| #[trigger] last_value(puts, k) is Some ==> exists|i: int| 0 <= i < r.len() && r[i].0 == k
}

proof fn lemma_last_value_push(s: Seq<Entry>, e: Entry, k: Seq<u8>)
    ensures
        last_value(s.push(e), k) == if e.0 == k { Some(e.1) } else { last_value(s, k) },
{
    assert(s.push(e).drop_last() =~= s);
}

fn bytes_eq(a: &[u8], b: &[u8]) -> (r: bool)
    ensures
        r == (a@ == b@),
{
    if a.len() != b.len() {
        return false;
    }
    let mut i: usize = 0;
    while i < a.len()
        invariant
            a@.len() == b@.len(),
            i <= a@.len(),
            forall|j: int| 0 <= j < i ==> a@[j] == b@[j],
        decreases a@.len() - i,
    {
        if a[i] != b[i] {
            return false;
        }
        i += 1;
    }
    assert(a@ =~= b@);
    true
}

/// Records with distinct keys, indexed by key fingerprint.
struct Latest {
    recs: Vec<(Vec<u8>, Vec<u8>)>,
    index: PosIndex,
}

impl Latest {
    spec fn wf(&self) -> bool {
        let r = entries_view(self.recs@);
        &&& forall|i: int, j: int| 0 <= i < j < r.len() ==> r[i].0 != r[j].0
        &&& forall|j: int| 0 <= j < r.len() ==> #[trigger] self.index.bucket(bytes_fp(r[j].0)).contains(j as usize)
        &&& forall|h: u64, k: int| 0 <= k < self.index.bucket(h).len() ==> #[trigger] self.index.bucket(h)[k] < r.len()
    }

    /// Applies a put: replaces the value of `k` if present, else adds `(k, v)`.
    fn put(&mut self, k: Vec<u8>, v: Vec<u8>)
        requires
            old(self).wf(),
        ensures
            final(self).wf(),
            forall|puts: Seq<Entry>| #[trigger] is_latest_of(entries_view(old(self).recs@), puts)
                ==> is_latest_of(entries_view(final(self).recs@), puts.push((k@, v@))),
            keys_of(entries_view(final(self).recs@)) == if keys_of(entries_view(old(self).recs@)).contains(k@) {
                keys_of(entries_view(old(self).recs@))
            } else {
                keys_of(entries_view(old(self).recs@)).push(k@)
            },
    {
        let h = fingerprint_bytes(k.as_slice());
        let cands = self.index.positions(h);
        let ghost r0 = entries_view(self.recs@);
        let mut c: usize = 0;
        while c < cands.len()
            invariant
                self.wf(),
                self.recs@ == old(self).recs@,
                r0 == entries_view(self.recs@),
                cands@ == self.index.bucket(h),
                h == bytes_fp(k@),
                c <= cands@.len(),
                forall|d: int| 0 <= d < c ==> r0[cands@[d] as int].0 != k@,
            decreases cands@.len() - c,
        {
            let j = cands[c];
            assert(self.index.bucket(h)[c as int] < r0.len());
            if bytes_eq(self.recs[j].0.as_slice(), k.as_slice()) {
                let ghost old_recs = self.recs@;
                self.recs.set(j, (k, v));
                proof {
                    let r1 = entries_view(self.recs@);
                    assert(r0[j as int].0 == k@);
                    assert(r1 =~= r0.update(j as int, (k@, v@)));
                    assert(keys_of(r0)[j as int] == k@);
                    assert(keys_of(r0).contains(k@));
                    assert(keys_of(r1) =~= keys_of(r0));
                    assert forall|puts: Seq<Entry>| #[trigger] is_latest_of(r0, puts)
                        implies is_latest_of(r1, puts.push((k@, v@))) by {
                        let p2 = puts.push((k@, v@));
                        assert forall|i: int| 0 <= i < r1.len() implies last_value(p2, #[trigger] r1[i].0) == Some(r1[i].1) by {
                            lemma_last_value_push(puts, (k@, v@), r1[i].0);
                            if i != j {
                                assert(r0[i].0 != r0[j as int].0);
                                assert(r1[i] == r0[i]);
                                assert(last_value(puts, r0[i].0) == Some(r0[i].1));
                            }
                        }
                        assert forall|kk: Seq<u8>| #[trigger] last_value(p2, kk) is Some
                            implies exists|i: int| 0 <= i < r1.len() && r1[i].0 == kk by {
                            lemma_last_value_push(puts, (k@, v@), kk);
                            if kk != k@ {
                                assert(last_value(puts, kk) is Some);
                                let i = choose|i: int| 0 <= i < r0.len() && r0[i].0 == kk;
                                assert(r1[i].0 == kk);
                            } else {
                                assert(r1[j as int].0 == kk);
                            }
                        }
                        assert forall|a: int, b: int| 0 <= a < b < r1.len() implies r1[a].0 != r1[b].0 by {
                            assert(r1[a].0 == r0[a].0 && r1[b].0 == r0[b].0);
                        }
                    }
                }
                return;
            }
            c += 1;
        }
        let n = self.recs.len();
        let ghost old_index = self.index;
        self.index.add(h, n);
        self.recs.push((k, v));
        proof {
            let r1 = entries_view(self.recs@);
            assert(r1 =~= r0.push((k@, v@)));
            assert forall|i: int| 0 <= i < r0.len() implies r0[i].0 != k@ by {
                if r0[i].0 == k@ {
                    assert(old_index.bucket(h).contains(i as usize));
                    let d = choose|d: int| 0 <= d < cands@.len() && cands@[d] == i as usize;
                }
            }
            assert forall|j: int| 0 <= j < r1.len() implies #[trigger] self.index.bucket(bytes_fp(r1[j].0)).contains(j as usize) by {
                if j < r0.len() {
                    let g = bytes_fp(r1[j].0);
                    assert(old_index.bucket(g).contains(j as usize));
                    if g == h {
                        assert(self.index.bucket(g) == old_index.bucket(g).push(n));
                        let d = choose|d: int| 0 <= d < old_index.bucket(g).len() && old_index.bucket(g)[d] == j as usize;
                        assert(self.index.bucket(g)[d] == j as usize);
                    }
                } else {
                    assert(self.index.bucket(h)[old_index.bucket(h).len() as int] == n);
                }
            }
            assert forall|g: u64, k2: int| 0 <= k2 < self.index.bucket(g).len() implies #[trigger] self.index.bucket(g)[k2] < r1.len() by {
                if g != h {
                    assert(self.index.bucket(g) == old_index.bucket(g));
                } else if k2 < old_index.bucket(h).len() {
                    assert(self.index.bucket(g)[k2] == old_index.bucket(g)[k2]);
                }
            }
            assert forall|puts: Seq<Entry>| #[trigger] is_latest_of(r0, puts)
                implies is_latest_of(r1, puts.push((k@, v@))) by {
                let p2 = puts.push((k@, v@));
                assert forall|i: int| 0 <= i < r1.len() implies last_value(p2, #[trigger] r1[i].0) == Some(r1[i].1) by {
                    lemma_last_value_push(puts, (k@, v@), r1[i].0);
                }
                assert forall|kk: Seq<u8>| #[trigger] last_value(p2, kk) is Some
                    implies exists|i: int| 0 <= i < r1.len() && r1[i].0 == kk by {
                    lemma_last_value_push(puts, (k@, v@), kk);
                    if kk != k@ {
                        let i = choose|i: int| 0 <= i < r0.len() && r0[i].0 == kk;
                        assert(r1[i].0 == kk);
                    } else {
                        assert(r1[r0.len() as int].0 == kk);
                    }
                }
            }
        }
    }

    /// Applies the puts of `es` in order.
    fn put_all(&mut self, es: &Vec<(Vec<u8>, Vec<u8>)>, Ghost(before): Ghost<Seq<Entry>>)
        requires
            old(self).wf(),
            is_latest_of(entries_view(old(self).recs@), before),
            keys_of(entries_view(old(self).recs@)) == key_order(before),
        ensures
            final(self).wf(),
            is_latest_of(entries_view(final(self).recs@), before + entries_view(es@)),
            keys_of(entries_view(final(self).recs@)) == key_order(before + entries_view(es@)),
    {
        let ghost all = entries_view(es@);
        let mut i: usize = 0;
        assert(before + all.take(0) =~= before);
        while i < es.len()
            invariant
                self.wf(),
                all == entries_view(es@),
                i <= es@.len(),
                is_latest_of(entries_view(self.recs@), before + all.take(i as int)),
                keys_of(entries_view(self.recs@)) == key_order(before + all.take(i as int)),
            decreases es@.len() - i,
        {
            let k = es[i].0.clone();
            let v = es[i].1.clone();
            assert((before + all.take(i as int)).push((k@, v@)) =~= before + all.take(i + 1));
            assert((before + all.take(i + 1)).drop_last() =~= before + all.take(i as int));
            self.put(k, v);
            i += 1;
        }
        assert(all.take(es@.len() as int) =~= all);
    }
}

/// The records of a database after applying every put in order (the tables
/// in the order given, then the logs in the order given): one record per key,
/// holding the value its last put wrote, so newer writes win.
pub fn merge_records(tables: &Vec<Vec<u8>>, logs: &Vec<Vec<u8>>) -> (r: Vec<(Vec<u8>, Vec<u8>)>)
    ensures
        entries_view(r@) == merged(all_puts(files_view(tables@), files_view(logs@))),
        is_latest_of(entries_view(r@), all_puts(files_view(tables@), files_view(logs@))),
{
    let mut latest = Latest { recs: Vec::new(), index: PosIndex::new() };
    assert(entries_view(latest.recs@) =~= Seq::<Entry>::empty());
    assert(keys_of(entries_view(latest.recs@)) =~= Seq::<Seq<u8>>::empty());
    let ghost mut done: Seq<Entry> = Seq::empty();
    let ghost tv = files_view(tables@);
    let ghost lv = files_view(logs@);
    let mut i: usize = 0;
    while i < tables.len()
        invariant
            latest.wf(),
            tv == files_view(tables@),
            i <= tables@.len(),
            done == tables_entries(tv.take(i as int)),
            is_latest_of(entries_view(latest.recs@), done),
            keys_of(entries_view(latest.recs@)) == key_order(done),
        decreases tables@.len() - i,
    {
        let es = match scan_table(tables[i].as_slice()) {
            Some(es) => es,
            None => Vec::new(),
        };
        assert(entries_view(es@) == spec_table(tv[i as int]));
        let puts = puts_of_table(&es);
        latest.put_all(&puts, Ghost(done));
        proof {
            assert(tv.take(i + 1).drop_last() =~= tv.take(i as int));
            done = done + entries_view(puts@);
        }
        i += 1;
    }
    assert(tv.take(tables@.len() as int) =~= tv);
    let ghost tdone = done;
    let mut j: usize = 0;
    assert(tdone + logs_entries(lv.take(0)) =~= tdone);
    while j < logs.len()
        invariant
            latest.wf(),
            lv == files_view(logs@),
            j <= logs@.len(),
            done == tdone + logs_entries(lv.take(j as int)),
            is_latest_of(entries_view(latest.recs@), done),
            keys_of(entries_view(latest.recs@)) == key_order(done),
        decreases logs@.len() - j,
    {
        let es = scan_log(logs[j].as_slice());
        latest.put_all(&es, Ghost(done));
        proof {
            assert(lv.take(j + 1).drop_last() =~= lv.take(j as int));
            assert(tdone + logs_entries(lv.take(j + 1)) =~= done + entries_view(es@));
            done = done + entries_view(es@);
        }
        j += 1;
    }
    assert(lv.take(logs@.len() as int) =~= lv);
    proof { lemma_merged(entries_view(latest.recs@), done); }
    latest.recs
}

proof fn lemma_merged(r: Seq<Entry>, puts: Seq<Entry>)
    requires
        is_latest_of(r, puts),
        keys_of(r) == key_order(puts),
    ensures
        r == merged(puts),
{
    let m = merged(puts);
    assert forall|i: int| 0 <= i < r.len() implies r[i] == m[i] by {
        assert(keys_of(r)[i] == r[i].0);
        assert(last_value(puts, r[i].0) == Some(r[i].1));
    }
    assert(r =~= m);
}

} // verus!
