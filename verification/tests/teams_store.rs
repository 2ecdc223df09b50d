use teams_core::index::KeyList;
use teams_core::schema::{extract_images, find_db_by_manager, has_segment, strip_reply_quote};
use teams_core::teams::{build_cache, StoreError, TeamsStore, CACHE_TTL_MS};

fn varint(mut n: u64) -> Vec<u8> {
    let mut out = Vec::new();
    loop {
        let b = (n & 0x7F) as u8;
        n >>= 7;
        if n == 0 {
            out.push(b);
            return out;
        }
        out.push(b | 0x80);
    }
}

fn v8_str(s: &str) -> Vec<u8> {
    let mut out = vec![b'"'];
    out.extend(varint(s.len() as u64));
    out.extend(s.bytes());
    out
}

fn v8_int(i: i64) -> Vec<u8> {
    let mut out = vec![b'I'];
    out.extend(varint(((i << 1) ^ (i >> 63)) as u64));
    out
}

fn v8_obj(props: &[(&str, Vec<u8>)]) -> Vec<u8> {
    let mut out = vec![b'o'];
    for (k, v) in props {
        out.extend(v8_str(k));
        out.extend_from_slice(v);
    }
    out.push(b'{');
    out.extend(varint(props.len() as u64));
    out
}

fn idb_value(payload: Vec<u8>) -> Vec<u8> {
    let mut out = vec![0xFF, 0x15, 0xFF, 0x0F];
    out.extend(payload);
    out
}

fn utf16_be(s: &str) -> Vec<u8> {
    s.encode_utf16().flat_map(|u| u.to_be_bytes()).collect()
}

fn string_with_length(s: &str) -> Vec<u8> {
    let mut out = varint(s.encode_utf16().count() as u64);
    out.extend(utf16_be(s));
    out
}

fn db_name(name: &str, id: u8) -> (Vec<u8>, Vec<u8>) {
    let mut key = vec![0x00, 0x00, 0x00, 0x00, 201];
    key.extend(string_with_length("https_teams.microsoft.com_0"));
    key.extend(string_with_length(name));
    (key, vec![id])
}

fn store_name(db: u8, store: u8, name: &str) -> (Vec<u8>, Vec<u8>) {
    (vec![0x00, db, 0x00, 0x00, 50, store, 0], utf16_be(name))
}

fn data(db: u8, store: u8, tag: u8, payload: Vec<u8>) -> (Vec<u8>, Vec<u8>) {
    (vec![0x00, db, store, 0x01, 0x01, tag], idb_value(payload))
}

fn records() -> Vec<(Vec<u8>, Vec<u8>)> {
    let m1 = v8_obj(&[
        ("id", v8_str("1700000000000")),
        ("content", v8_str("hello <b>world</b>")),
        ("imDisplayName", v8_str("Alice")),
        ("messageType", v8_str("RichText/Html")),
        ("originalArrivalTime", v8_int(1_700_000_000_000)),
    ]);
    let m2 = v8_obj(&[
        ("id", v8_str("1700000060000")),
        (
            "content",
            v8_str("<blockquote itemtype=\"http://schema.skype.com/Reply\" itemid=\"1700000000000\">quoted</blockquote><p>reply text</p>"),
        ),
        ("imDisplayName", v8_str("")),
        ("fromDisplayNameInToken", v8_str("Bob")),
        ("messageType", v8_str("RichText/Html")),
    ]);
    let x = v8_obj(&[
        ("content", v8_str("plain Search me")),
        ("imDisplayName", v8_str("Carol")),
        ("clientArrivalTime", v8_int(1_600_000_000_000)),
    ]);
    vec![
        db_name("Teams:conversation-folder-manager:react-web-client:x", 3),
        db_name("Teams:conversation-manager:react-web-client:x", 1),
        db_name("Teams:replychain-manager:react-web-client:x", 2),
        store_name(3, 1, "conversations"),
        store_name(1, 1, "conversations"),
        store_name(2, 1, "replychains"),
        data(3, 1, 1, v8_obj(&[("id", v8_str("19:abc@thread.v2")), ("threadProperties", v8_obj(&[("topic", v8_str("Folder"))]))])),
        data(1, 1, 1, v8_obj(&[("id", v8_str("19:abc@thread.v2")), ("threadProperties", v8_obj(&[("topic", v8_str("Project X"))]))])),
        data(1, 1, 2, v8_obj(&[("id", v8_str("19:def@thread.v2")), ("chatTitle", v8_obj(&[("shortTitle", v8_str("Carol"))]))])),
        data(1, 1, 3, v8_obj(&[("id", v8_str("8:orgid:xyz")), ("threadProperties", v8_obj(&[("topic", v8_str("Person"))]))])),
        data(2, 1, 1, v8_obj(&[("conversationId", v8_str("19:abc@thread.v2")), ("messageMap", v8_obj(&[("m1", m1), ("m2", m2)]))])),
        data(2, 1, 2, v8_obj(&[("conversationId", v8_str("19:def@thread.v2")), ("messageMap", v8_obj(&[("x", x)]))])),
    ]
}

fn log_of(recs: &[(Vec<u8>, Vec<u8>)]) -> Vec<u8> {
    let mut b = vec![0u8; 8];
    b.extend((recs.len() as u32).to_le_bytes());
    for (k, v) in recs {
        b.push(1);
        b.extend(varint(k.len() as u64));
        b.extend_from_slice(k);
        b.extend(varint(v.len() as u64));
        b.extend_from_slice(v);
    }
    let mut r = vec![0, 0, 0, 0];
    r.extend((b.len() as u16).to_le_bytes());
    r.push(1);
    r.extend(b);
    r
}

#[test]
fn chat_list_is_most_recent_first_with_titles() {
    let c = build_cache(&records(), 5);
    let chats = c.list_chats();
    assert_eq!(chats.len(), 2);
    assert_eq!(chats[0].conversation_id, "19:abc@thread.v2");
    assert_eq!(chats[0].topic, "Project X");
    assert_eq!(chats[0].message_count, 2);
    assert_eq!(chats[0].last_message_time, "2023-11-14 22:14:20");
    assert_eq!(chats[1].conversation_id, "19:def@thread.v2");
    assert_eq!(chats[1].topic, "Carol");
    assert_eq!(chats[1].message_count, 1);
}

#[test]
fn messages_are_parsed_and_time_ordered() {
    let c = build_cache(&records(), 5);
    let msgs = c.read_messages("19:abc@thread.v2", 30, None);
    assert_eq!(msgs.len(), 2);
    assert_eq!(msgs[0].content, "hello world");
    assert_eq!(msgs[0].sender, "Alice");
    assert_eq!(msgs[0].time_ms, 1_700_000_000_000);
    assert_eq!(msgs[0].time, "2023-11-14 22:13:20");
    assert_eq!(msgs[0].message_type, "RichText/Html");
    assert_eq!(msgs[0].reply_to, None);
    assert_eq!(msgs[1].content, "reply text");
    assert_eq!(msgs[1].sender, "Bob");
    assert_eq!(msgs[1].time_ms, 1_700_000_060_000);
    assert_eq!(msgs[1].id, "1700000060000");
    assert_eq!(msgs[1].reply_to.as_deref(), Some("1700000000000"));
}

#[test]
fn message_falls_back_to_record_conversation_and_client_time() {
    let c = build_cache(&records(), 5);
    let msgs = c.read_messages("19:def@thread.v2", 30, None);
    assert_eq!(msgs.len(), 1);
    assert_eq!(msgs[0].conversation_id, "19:def@thread.v2");
    assert_eq!(msgs[0].time_ms, 1_600_000_000_000);
    assert_eq!(msgs[0].id, "");
    assert_eq!(msgs[0].content, "plain Search me");
}

#[test]
fn read_by_title_limit_and_before() {
    let c = build_cache(&records(), 5);
    let last = c.read_messages("project", 1, None);
    assert_eq!(last.len(), 1);
    assert_eq!(last[0].sender, "Bob");
    let earlier = c.read_messages("19:abc@thread.v2", 30, Some(1_700_000_060_000));
    assert_eq!(earlier.len(), 1);
    assert_eq!(earlier[0].sender, "Alice");
    assert!(c.read_messages("no such chat", 30, None).is_empty());
    assert!(c.read_messages("19:abc@thread.v2", 0, None).is_empty());
}

#[test]
fn search_ignores_case_and_keeps_the_latest() {
    let c = build_cache(&records(), 5);
    let hits = c.search("SEARCH", 10);
    assert_eq!(hits.len(), 1);
    assert_eq!(hits[0].sender, "Carol");
    let by_sender = c.search("alice", 10);
    assert_eq!(by_sender.len(), 1);
    assert_eq!(by_sender[0].content, "hello world");
    let two = c.search("e", 2);
    assert_eq!(two.len(), 2);
    assert_eq!(two[0].sender, "Alice");
    assert_eq!(two[1].sender, "Bob");
}

#[test]
fn store_opens_refreshes_and_goes_stale() {
    assert!(matches!(TeamsStore::open(None, true), Err(StoreError::NoDbPath)));
    match TeamsStore::open(Some("/nowhere".to_string()), false) {
        Err(StoreError::DbMissing(p)) => assert_eq!(p, "/nowhere"),
        _ => panic!("expected DbMissing"),
    }
    let mut store = TeamsStore::open(Some("/db".to_string()), true).ok().unwrap();
    assert_eq!(store.db_path(), "/db");
    assert!(store.is_stale(0));
    assert!(store.list_chats().is_empty());
    store.refresh(&vec![], &vec![log_of(&records())], 1000);
    assert!(!store.is_stale(1000 + CACHE_TTL_MS));
    assert!(store.is_stale(1001 + CACHE_TTL_MS));
    assert_eq!(store.list_chats().len(), 2);
    assert_eq!(store.read_messages("carol", 30, None).len(), 1);
    assert_eq!(store.search("reply", 30).len(), 1);
}

#[test]
fn store_error_messages() {
    assert_eq!(StoreError::DbMissing("/x".to_string()).message(), "DB 디렉토리 없음: /x");
    assert_eq!(StoreError::Io("boom".to_string()).message(), "boom");
    assert_eq!(
        StoreError::NoDbPath.message(),
        "Teams IndexedDB 경로를 찾을 수 없음 (TEAMS_MCP_DB 로 지정 가능)"
    );
}

#[test]
fn manager_segment_must_match_whole() {
    let dbs: Vec<(Vec<char>, u64)> = vec![
        ("Teams:conversation-folder-manager:x".chars().collect(), 3),
        ("Teams:conversation-manager:x".chars().collect(), 1),
    ];
    let m: Vec<char> = "conversation-manager".chars().collect();
    assert_eq!(find_db_by_manager(&dbs, &m), Some(1));
    let none: Vec<char> = "manager".chars().collect();
    assert_eq!(find_db_by_manager(&dbs, &none), None);
    let name: Vec<char> = "a::b".chars().collect();
    assert!(has_segment(&name, &[]));
    assert!(!has_segment(&name, &[':']));
}

#[test]
fn reply_quote_is_removed_and_other_quotes_kept() {
    let html: Vec<char> = "<blockquote>keep</blockquote>x<blockquote itemscope itemtype=\"http://schema.skype.com/Reply\" itemid=\"42\">q</blockquote>y<blockquote itemtype=\"http://schema.skype.com/Reply\" itemid=\"43\">r</blockquote>".chars().collect();
    let (text, reply) = strip_reply_quote(&html);
    assert_eq!(text.iter().collect::<String>(), "<blockquote>keep</blockquote>xy");
    assert_eq!(reply.map(|r| r.iter().collect::<String>()), Some("42".to_string()));
    let plain: Vec<char> = "no quotes".chars().collect();
    let (same, none) = strip_reply_quote(&plain);
    assert_eq!(same, plain);
    assert!(none.is_none());
}

#[test]
fn key_list_finds_keys() {
    let mut keys = KeyList::new();
    keys.push("a".chars().collect());
    keys.push("b".chars().collect());
    assert_eq!(keys.find(&['b']), Some(1));
    assert_eq!(keys.find(&['c']), None);
    assert_eq!(keys.len(), 2);
}

#[test]
fn ams_images_are_listed_and_emoji_skipped() {
    let html: Vec<char> = "<p><img src=\"https://kr-prod.asyncgw.teams.microsoft.com/v1/objects/0-skr-d4-1/views/imgo\" itemscope itemtype=\"http://schema.skype.com/AMSImage\" style=\"width:2573px;height:1448px\" /></p><img src=\"https://statics.teams.cdn.office.net/emoticons/smile.png\" itemtype=\"http://schema.skype.com/Emoji\"><img src=\"x\">".chars().collect();
    let imgs = extract_images(&html);
    assert_eq!(imgs.len(), 1);
    assert_eq!(imgs[0].url, "https://kr-prod.asyncgw.teams.microsoft.com/v1/objects/0-skr-d4-1/views/imgo");
    assert_eq!(imgs[0].width, Some(2573));
    assert_eq!(imgs[0].height, Some(1448));
}

#[test]
fn image_only_message_gets_a_marker() {
    let img = v8_obj(&[
        ("id", v8_str("1700000120000")),
        ("content", v8_str("<p><img src=\"https://x.asyncgw.teams.microsoft.com/v1/objects/1/views/imgo\"></p>")),
        ("imDisplayName", v8_str("Dan")),
    ]);
    let mut recs = records();
    recs.push(data(2, 1, 3, v8_obj(&[("conversationId", v8_str("19:abc@thread.v2")), ("messageMap", v8_obj(&[("i", img)]))])));
    let c = build_cache(&recs, 5);
    let msgs = c.read_messages("19:abc@thread.v2", 1, None);
    assert_eq!(msgs.len(), 1);
    assert_eq!(msgs[0].content, "[이미지]");
    assert_eq!(msgs[0].images.len(), 1);
    assert_eq!(msgs[0].images[0].width, None);
}

#[test]
fn search_for_the_tool_lists_newest_first() {
    let mut store = TeamsStore::open(Some("/db".to_string()), true).ok().unwrap();
    assert!(store.search_newest_first("e", 2).is_empty());
    store.refresh(&vec![], &vec![log_of(&records())], 1000);
    let asc = store.search("e", 2);
    let desc = store.search_newest_first("e", 2);
    assert_eq!(desc.len(), 2);
    assert_eq!(desc[0].sender, "Bob");
    assert_eq!(desc[1].sender, "Alice");
    assert!(desc[0].time_ms >= desc[1].time_ms);
    assert_eq!(desc[0].id, asc[1].id);
    assert_eq!(desc[1].id, asc[0].id);
}
