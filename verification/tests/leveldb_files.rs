use teams_core::leveldb::log::scan_log;
use teams_core::leveldb::merge_records;
use teams_core::leveldb::sstable::scan_table;

fn varint(mut n: u64) -> Vec<u8> {
    let mut out = Vec::new();
    loop {
        let b = (n & 0x7F) as u8;
        n >>= 7;
        if n == 0 {
            out.push(b);
            return out;
        }
        out.push(b | 0x80);
    }
}

/// A write batch of puts (`Some`) and deletes (`None`).
fn batch(ops: &[(&[u8], Option<&[u8]>)]) -> Vec<u8> {
    let mut b = vec![0u8; 8];
    b.extend((ops.len() as u32).to_le_bytes());
    for (k, v) in ops {
        match v {
            Some(v) => {
                b.push(1);
                b.extend(varint(k.len() as u64));
                b.extend_from_slice(k);
                b.extend(varint(v.len() as u64));
                b.extend_from_slice(v);
            },
            None => {
                b.push(0);
                b.extend(varint(k.len() as u64));
                b.extend_from_slice(k);
            },
        }
    }
    b
}

fn record(kind: u8, data: &[u8]) -> Vec<u8> {
    let mut r = vec![0, 0, 0, 0];
    r.extend((data.len() as u16).to_le_bytes());
    r.push(kind);
    r.extend_from_slice(data);
    r
}

fn block_with(entries: &[(&[u8], &[u8])]) -> Vec<u8> {
    let mut b = Vec::new();
    for (k, v) in entries {
        b.extend(varint(0));
        b.extend(varint(k.len() as u64));
        b.extend(varint(v.len() as u64));
        b.extend_from_slice(k);
        b.extend_from_slice(v);
    }
    b.extend(0u32.to_le_bytes());
    b.extend(1u32.to_le_bytes());
    b
}

/// A table with one data block (compressed with snappy when asked).
fn table(entries: &[(&[u8], &[u8])], snappy: bool) -> Vec<u8> {
    let data = block_with(entries);
    let (stored, kind) = if snappy {
        (snap::raw::Encoder::new().compress_vec(&data).unwrap(), 1u8)
    } else {
        (data, 0u8)
    };
    let mut file = stored.clone();
    file.push(kind);
    file.extend([0, 0, 0, 0]);
    let mut handle = varint(0);
    handle.extend(varint(stored.len() as u64));
    let index = block_with(&[(b"z", &handle)]);
    let index_offset = file.len();
    file.extend_from_slice(&index);
    file.push(0);
    file.extend([0, 0, 0, 0]);
    let mut footer = varint(0);
    footer.extend(varint(0));
    footer.extend(varint(index_offset as u64));
    footer.extend(varint(index.len() as u64));
    footer.resize(40, 0);
    footer.extend([0x57, 0xfb, 0x80, 0x8b, 0x24, 0x75, 0x47, 0xdb]);
    file.extend(footer);
    file
}

#[test]
fn log_yields_puts_of_full_records() {
    let b = batch(&[(b"a", Some(b"1")), (b"b", Some(b"2")), (b"a", None)]);
    let file = record(1, &b);
    let recs = scan_log(&file);
    assert_eq!(recs, vec![(b"a".to_vec(), b"1".to_vec()), (b"b".to_vec(), b"2".to_vec())]);
}

#[test]
fn log_joins_fragmented_records() {
    let b = batch(&[(b"key", Some(b"value"))]);
    let (first, rest) = b.split_at(5);
    let (middle, last) = rest.split_at(4);
    let mut file = record(2, first);
    file.extend(record(3, middle));
    file.extend(record(4, last));
    assert_eq!(scan_log(&file), vec![(b"key".to_vec(), b"value".to_vec())]);
}

#[test]
fn log_stops_batch_at_unknown_tag_and_truncation() {
    let mut b = batch(&[(b"k", Some(b"v"))]);
    b[11] = 2; // claims two records; the second is missing
    b.push(7);
    let mut file = record(1, &b);
    file.extend(record(1, &batch(&[(b"x", Some(b"y"))]))[..9].to_vec());
    assert_eq!(scan_log(&file), vec![(b"k".to_vec(), b"v".to_vec())]);
}

#[test]
fn table_yields_entries_of_plain_and_snappy_blocks() {
    let entries: [(&[u8], &[u8]); 2] = [(b"k1", b"hello"), (b"k2", b"hello hello hello hello")];
    let expected = vec![(b"k1".to_vec(), b"hello".to_vec()), (b"k2".to_vec(), b"hello hello hello hello".to_vec())];
    assert_eq!(scan_table(&table(&entries, false)), Some(expected.clone()));
    assert_eq!(scan_table(&table(&entries, true)), Some(expected));
}

#[test]
fn table_with_hand_built_footer() {
    let file = [
        vec![0x00, 0x01, 0x01, 0x6B, 0x76, 0, 0, 0, 0, 1, 0, 0, 0, 0, 0, 0, 0, 0],
        vec![0x00, 0x01, 0x02, 0x6B, 0x00, 0x0D, 0, 0, 0, 0, 1, 0, 0, 0, 0, 0, 0, 0, 0],
        vec![0x00, 0x00, 0x12, 0x0E],
        vec![0u8; 44],
    ]
    .concat();
    assert_eq!(scan_table(&file), Some(vec![(b"k".to_vec(), b"v".to_vec())]));
}

#[test]
fn table_skips_an_unreadable_data_block_only() {
    let good = block_with(&[(b"g", b"1")]);
    let mut file = good.clone();
    file.push(0);
    file.extend([0, 0, 0, 0]);
    let mut h_good = varint(0);
    h_good.extend(varint(good.len() as u64));
    let mut h_bad = varint(1000);
    h_bad.extend(varint(5));
    let index = block_with(&[(b"a", &h_bad), (b"b", &h_good)]);
    let index_offset = file.len();
    file.extend_from_slice(&index);
    file.push(0);
    file.extend([0, 0, 0, 0]);
    let mut footer = varint(0);
    footer.extend(varint(0));
    footer.extend(varint(index_offset as u64));
    footer.extend(varint(index.len() as u64));
    footer.resize(48, 0);
    file.extend(footer);
    assert_eq!(scan_table(&file), Some(vec![(b"g".to_vec(), b"1".to_vec())]));
}

#[test]
fn table_too_short_or_unreadable_yields_none() {
    assert_eq!(scan_table(&[0u8; 47]), None);
    let mut t = table(&[(b"k", b"v")], false);
    let n = t.len();
    // an unknown compression type on the index block
    let index_trailer = n - 48 - 5;
    t[index_trailer] = 2;
    assert_eq!(scan_table(&t), None);
}

/// An internal key: the user key, then the type and a 7-byte sequence number.
fn ikey(user: &[u8], kind: u8, seq: u8) -> Vec<u8> {
    let mut k = user.to_vec();
    k.extend([kind, seq, 0, 0, 0, 0, 0, 0]);
    k
}

#[test]
fn later_writes_win_when_merging() {
    let (a, b) = (ikey(b"a", 1, 1), ikey(b"b", 1, 2));
    let t = table(&[(&a, b"old"), (&b, b"kept")], false);
    let log = record(1, &batch(&[(b"a", Some(b"new")), (b"c", Some(b"added"))]));
    let merged = merge_records(&vec![t], &vec![log]);
    assert_eq!(
        merged,
        vec![
            (b"b".to_vec(), b"kept".to_vec()),
            (b"a".to_vec(), b"new".to_vec()),
            (b"c".to_vec(), b"added".to_vec()),
        ]
    );
}

#[test]
fn table_versions_newest_first_and_deletions_dropped() {
    let (k2, k1, d) = (ikey(b"k", 1, 9), ikey(b"k", 1, 3), ikey(b"x", 0, 5));
    let t = table(&[(&k2, b"newer"), (&k1, b"older"), (&d, b"")], false);
    assert_eq!(merge_records(&vec![t], &vec![]), vec![(b"k".to_vec(), b"newer".to_vec())]);
}

#[test]
fn log_value_overrides_table_value_of_same_user_key() {
    let k = ikey(b"K", 1, 1);
    let t = table(&[(&k, b"V1")], false);
    let log = record(1, &batch(&[(b"K", Some(b"V2"))]));
    assert_eq!(merge_records(&vec![t], &vec![log]), vec![(b"K".to_vec(), b"V2".to_vec())]);
}

#[test]
fn later_log_files_override_earlier_ones() {
    let l1 = record(1, &batch(&[(b"k", Some(b"1"))]));
    let l2 = record(1, &batch(&[(b"k", Some(b"2"))]));
    assert_eq!(merge_records(&vec![], &vec![l1, l2]), vec![(b"k".to_vec(), b"2".to_vec())]);
}

#[test]
fn log_cut_anywhere_gives_a_prefix_of_the_puts() {
    let mut file = record(1, &batch(&[(b"a", Some(b"1")), (b"b", Some(b"2"))]));
    let b = batch(&[(b"c", Some(b"3"))]);
    let (first, last) = b.split_at(6);
    file.extend(record(2, first));
    file.extend(record(4, last));
    file.extend(record(1, &batch(&[(b"d", Some(b"4"))])));
    let full = scan_log(&file);
    assert_eq!(full.len(), 4);
    for k in 0..=file.len() {
        let part = scan_log(&file[..k]);
        assert!(part.len() <= full.len());
        assert_eq!(part[..], full[..part.len()]);
    }
}
