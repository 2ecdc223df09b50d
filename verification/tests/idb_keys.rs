use teams_core::idb::{
    parse_database_name, parse_object_store_name, KeyPrefix, DATABASE_NAME_TYPE_BYTE,
    OBJECT_STORE_META_DATA_NAME, OBJECT_STORE_META_DATA_TYPE_BYTE,
};

fn utf16_be(s: &str) -> Vec<u8> {
    s.encode_utf16().flat_map(|u| u.to_be_bytes()).collect()
}

fn string_with_length(s: &str) -> Vec<u8> {
    let mut out = vec![s.chars().count() as u8];
    out.extend(utf16_be(s));
    out
}

#[test]
fn parses_database_name_key() {
    let mut key = vec![0x00, 0x00, 0x00, 0x00, DATABASE_NAME_TYPE_BYTE];
    key.extend(string_with_length("https_teams.microsoft.com_0"));
    key.extend(string_with_length("Teams:replychain-manager:react-web-client:x"));
    let value = [0x2C];

    let (name, id) = parse_database_name(&key, &value).unwrap();
    assert_eq!(id, 44);
    assert_eq!(name, "Teams:replychain-manager:react-web-client:x");
}

#[test]
fn parses_object_store_name_key() {
    let key = [
        0x00,
        44,
        0x00,
        0x00,
        OBJECT_STORE_META_DATA_TYPE_BYTE,
        0x02,
        OBJECT_STORE_META_DATA_NAME,
    ];
    let value = utf16_be("replychains-2");

    let (db, store, name) = parse_object_store_name(&key, &value).unwrap();
    assert_eq!(db, 44);
    assert_eq!(store, 2);
    assert_eq!(name, "replychains-2");
}

#[test]
fn ignores_non_metadata_keys() {
    let key = [0x00, 44, 0x01, 0x01];
    assert!(parse_database_name(&key, &[]).is_none());
    assert!(parse_object_store_name(&key, &[]).is_none());
}

#[test]
fn key_prefix_reads_ids_of_each_width() {
    // db id in 2 bytes (300), store id in 1 byte, index id in 1 byte
    let key = [0b0010_0000, 0x2C, 0x01, 0x07, 0x01, 0xAA];
    let kp = KeyPrefix::parse(&key).unwrap();
    assert_eq!(kp.database_id, 300);
    assert_eq!(kp.object_store_id, 7);
    assert_eq!(kp.index_id, 1);
    assert!(kp.is_object_store_data());
}

#[test]
fn key_prefix_rejects_truncated_and_empty_keys() {
    assert!(KeyPrefix::parse(&[]).is_none());
    assert!(KeyPrefix::parse(&[0x00, 0x01]).is_none());
}

#[test]
fn database_name_value_is_little_endian() {
    let mut key = vec![0x00, 0x00, 0x00, 0x00, DATABASE_NAME_TYPE_BYTE];
    key.extend(string_with_length("o"));
    key.extend(string_with_length("db"));
    let (name, id) = parse_database_name(&key, &[0x01, 0x02]).unwrap();
    assert_eq!(name, "db");
    assert_eq!(id, 0x0201);
}

fn leb128(mut n: u64) -> Vec<u8> {
    let mut out = Vec::new();
    loop {
        let b = (n & 0x7F) as u8;
        n >>= 7;
        if n == 0 {
            out.push(b);
            return out;
        }
        out.push(b | 0x80);
    }
}

fn encoded(s: &str) -> Vec<u8> {
    let mut out = leb128(s.encode_utf16().count() as u64);
    out.extend(utf16_be(s));
    out
}

#[test]
fn database_names_round_trip_through_the_key() {
    let long: String = "name-".repeat(40);
    let names = ["", "db", "Teams:replychain-manager:x", "채팅 \u{1F600} db", long.as_str()];
    for origin in ["https_teams.microsoft.com_0", "\u{10348}"] {
        for name in names {
            let mut key = vec![0x00, 0x00, 0x00, 0x00, DATABASE_NAME_TYPE_BYTE];
            key.extend(encoded(origin));
            key.extend(encoded(name));
            key.extend([0xFF, 0x00, 0x42]);
            let (got, id) = parse_database_name(&key, &[7, 0, 0, 0, 0, 0, 0, 0, 9]).unwrap();
            assert_eq!(got, name);
            assert_eq!(id, 7);
        }
    }
}
