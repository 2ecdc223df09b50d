use teams_core::util::{format_epoch_ms, html_to_text};
use teams_core::v8::{find_v8_start, V8Reader, V8Value};
use teams_core::varint::{read_u32_le, read_varint};

#[test]
fn varint_reads_single_and_multi_byte_values() {
    assert_eq!(read_varint(&[0x05], 0), Some((5, 1)));
    assert_eq!(read_varint(&[0xAC, 0x02], 0), Some((300, 2)));
    assert_eq!(read_varint(&[0xFF, 0x80, 0x01], 1), Some((128, 2)));
}

#[test]
fn varint_rejects_truncated_input() {
    assert_eq!(read_varint(&[0x80], 0), None);
    assert_eq!(read_varint(&[], 0), None);
    assert_eq!(read_varint(&[0x01], 1), None);
}

#[test]
fn u32_le_reads_four_bytes() {
    assert_eq!(read_u32_le(&[0x78, 0x56, 0x34, 0x12], 0), Some(0x1234_5678));
    assert_eq!(read_u32_le(&[0x00, 0x01, 0x00, 0x00, 0x00], 1), Some(1));
    assert_eq!(read_u32_le(&[0x01, 0x02, 0x03], 0), None);
}

#[test]
fn epoch_ms_formats_as_utc() {
    assert_eq!(format_epoch_ms(1_700_000_000_000), "2023-11-14 22:13:20");
    assert_eq!(format_epoch_ms(86_400_000), "1970-01-02 00:00:00");
    assert_eq!(format_epoch_ms(951_782_400_000), "2000-02-29 00:00:00");
    assert_eq!(format_epoch_ms(1_999), "1970-01-01 00:00:01");
}

#[test]
fn epoch_ms_zero_and_negative_are_empty() {
    assert_eq!(format_epoch_ms(0), "");
    assert_eq!(format_epoch_ms(-5), "");
}

#[test]
fn html_to_text_strips_tags_and_collapses_whitespace() {
    assert_eq!(html_to_text("<p>Hello&nbsp;&amp; <b>world</b></p>"), "Hello & world");
    assert_eq!(html_to_text("a\n\n   b\t c"), "a b c");
    assert_eq!(html_to_text("  <div> </div> "), "");
}

#[test]
fn html_to_text_decodes_entities() {
    assert_eq!(html_to_text("&#x41;&#66;&lt;&gt;&quot;&apos;&#39;"), "AB<>\"''");
    assert_eq!(html_to_text("&unknown; x"), "&unknown; x");
    assert_eq!(html_to_text("&#xD800;"), "&#xD800;");
}

#[test]
fn html_to_text_keeps_unclosed_unknown_entities_as_written() {
    assert_eq!(html_to_text("AT&T"), "AT&T");
    assert_eq!(html_to_text("a & b"), "a & b");
    assert_eq!(html_to_text("Q&A<br>next"), "Q&Anext");
    assert_eq!(html_to_text("&#xD800 x"), "&#xD800 x");
    assert_eq!(html_to_text("fish&chips&amp"), "fish&chips&");
}

fn varint(mut n: u64) -> Vec<u8> {
    let mut out = Vec::new();
    loop {
        let b = (n & 0x7F) as u8;
        n >>= 7;
        if n == 0 {
            out.push(b);
            return out;
        }
        out.push(b | 0x80);
    }
}

fn v8_str(s: &str) -> Vec<u8> {
    let mut out = vec![b'"'];
    out.extend(varint(s.len() as u64));
    out.extend(s.bytes());
    out
}

#[test]
fn v8_start_follows_the_blink_envelope() {
    assert_eq!(find_v8_start(&[0xFF, 0x15, 0xFE, 0x00, 0xFF, 0x0F, b'T']), Some(6));
    assert_eq!(find_v8_start(&[0x01, 0xFF, 0x0F, b'T']), Some(3));
    assert_eq!(find_v8_start(&[0x01, 0x02]), None);
    assert_eq!(find_v8_start(&[0xFF, 0x15, 0x01]), None);
}

#[test]
fn v8_decodes_objects_strings_and_numbers() {
    let mut buf = vec![0xFF, 0x15, 0xFF, 0x0F, b'o'];
    buf.extend(v8_str("name"));
    buf.extend(v8_str("Ann"));
    buf.extend(v8_str("n"));
    buf.push(b'I');
    buf.extend(varint(84)); // zigzag 42
    buf.extend(v8_str("neg"));
    buf.push(b'I');
    buf.extend(varint(3)); // zigzag -2
    buf.push(b'{');
    buf.extend(varint(3));
    let v = V8Reader::decode(&buf).unwrap();
    let props = match v {
        V8Value::Object(p) => p,
        _ => panic!("not an object"),
    };
    assert_eq!(props.len(), 3);
    assert_eq!(props[0].0.iter().collect::<String>(), "name");
    assert!(matches!(&props[0].1, V8Value::Str(s) if s.iter().collect::<String>() == "Ann"));
    assert!(matches!(props[1].1, V8Value::Int(42)));
    assert!(matches!(props[2].1, V8Value::Int(-2)));
}

#[test]
fn v8_duplicate_keys_keep_the_last_value() {
    let mut buf = vec![0xFF, 0x0F, b'o'];
    buf.extend(v8_str("k"));
    buf.push(b'T');
    buf.extend(v8_str("k"));
    buf.push(b'F');
    buf.push(b'{');
    buf.push(2);
    let v = V8Reader::decode(&buf).unwrap();
    match v {
        V8Value::Object(p) => {
            assert_eq!(p.len(), 1);
            assert!(matches!(p[0].1, V8Value::Bool(false)));
        },
        _ => panic!("not an object"),
    }
}

#[test]
fn v8_decodes_two_byte_and_utf8_strings_and_arrays() {
    let mut buf = vec![0xFF, 0x0F, b'A', 2, b'c', 4, 0x48, 0x00, 0xAC, 0x20, b'S', 3, 0xED, 0x95, 0x9C, b'$', 0, 2];
    let v = V8Reader::decode(&buf).unwrap();
    match v {
        V8Value::Array(items) => {
            assert_eq!(items.len(), 2);
            assert!(matches!(&items[0], V8Value::Str(s) if s.iter().collect::<String>() == "H\u{20AC}"));
            assert!(matches!(&items[1], V8Value::Str(s) if s.iter().collect::<String>() == "\u{D55C}"));
        },
        _ => panic!("not an array"),
    }
    buf.truncate(5);
    assert!(V8Reader::decode(&buf).is_none());
}

#[test]
fn v8_unknown_tag_fails() {
    assert!(V8Reader::decode(&[0xFF, 0x0F, b'?']).is_none());
}

#[test]
fn epoch_text_is_fixed_width_and_ordered_like_the_seconds() {
    let times: [i64; 8] = [
        1,
        999,
        1_000,
        59_999,
        86_399_999,
        951_782_400_000,
        1_700_000_000_000,
        253_402_300_799_999,
    ];
    for a in times {
        for b in times {
            let (ta, tb) = (format_epoch_ms(a), format_epoch_ms(b));
            assert_eq!(ta.len(), 19);
            assert_eq!(ta.cmp(&tb), (a / 1000).cmp(&(b / 1000)));
        }
    }
    assert_eq!(format_epoch_ms(253_402_300_799_999), "9999-12-31 23:59:59");
}
