//! Reading Teams records: property access on decoded values, messages,
//! reply quotes, conversation titles, and database lookup by name.

use vstd::prelude::*;
use crate::v8::{V8View, V8Value, key_pos, props_view, lemma_props_view_len};
use crate::text::{
    occurs_at, chars_eq, chars_of, contains_chars, contains_seq, find_chars, find_from, lemma_find_from, parse_i64,
    slice_chars, spec_parse_i64, string_from_chars, spec_parse_u32, parse_u32_radix,
};
use crate::numbers::{double_to_i64, f64_bits_to_i64, f64_round, i64_via_f64, int_via_f64, sat_i64, u64_via_f64};
use crate::util::{format_epoch_ms, html_to_text, spec_format_epoch_ms, spec_html_to_text};
use crate::teams::{Message, MessageView, ImageRef, ImageRefView, images_view};

verus! {

/// The value of property `key` of an object (`None` for a missing key or a non-object).
pub open spec fn prop(v: V8View, key: Seq<char>) -> Option<V8View> {
    match v {
        V8View::Object(ps) => match key_pos(ps, key, 0) {
            Some(i) => Some(ps[i].1),
            None => None,
        },
        _ => None,
    }
}

/// Property `key` when it is a string.
pub open spec fn str_prop(v: V8View, key: Seq<char>) -> Option<Seq<char>> {
    match prop(v, key) {
        Some(V8View::Str(s)) => Some(s),
        _ => None,
    }
}

/// A number as an `i64`: taken as a double, truncated toward zero, saturating.
pub open spec fn num_value(v: V8View) -> Option<i64> {
    match v {
        V8View::Int(i) => Some(int_via_f64(i as int)),
        V8View::UInt(u) => Some(sat_i64(f64_round(u as nat) as int)),
        V8View::Double(b) => Some(double_to_i64(b)),
        _ => None,
    }
}

/// Property `key` when it is a number, as an `i64`.
pub open spec fn num_prop(v: V8View, key: Seq<char>) -> Option<i64> {
    match prop(v, key) {
        Some(x) => num_value(x),
        None => None,
    }
}

/// Property `key` of an object value.
pub fn get_prop<'b>(v: &'b V8Value, key: &str) -> (r: Option<&'b V8Value>)
    ensures
        match prop(v.view_of(), key@) {
            Some(x) => r matches Some(y) && y.view_of() == x,
            None => r is None,
        },
{
    match v {
        V8Value::Object(props) => {
            let k = chars_of(key);
            let ghost pv = props_view(props@);
            proof { lemma_props_view_len(props@); }
            let mut i: usize = 0;
            while i < props.len()
                invariant
                    pv == props_view(props@),
                    pv.len() == props@.len(),
                    forall|j: int| 0 <= j < props@.len() ==> (#[trigger] pv[j]) == (props@[j].0@, props@[j].1.view_of()),
                    i <= props@.len(),
                    k@ == key@,
                    v.view_of() == V8View::Object(pv),
                    key_pos(pv, key@, 0) == key_pos(pv, key@, i as int),
                decreases props@.len() - i,
            {
                if chars_eq(props[i].0.as_slice(), k.as_slice()) {
                    assert(pv[i as int].0 == key@);
                    assert(v.view_of() == V8View::Object(pv));
                    assert(key_pos(pv, key@, i as int) == Some(i as int));
                    return Some(&props[i].1);
                }
                i += 1;
            }
            None
        },
        _ => None,
    }
}

/// Property `key` when it is a string (a copy of its characters).
pub fn str_field(v: &V8Value, key: &str) -> (r: Option<Vec<char>>)
    ensures
        match str_prop(v.view_of(), key@) {
            Some(s) => r matches Some(x) && x@ == s,
            None => r is None,
        },
{
    match get_prop(v, key) {
        Some(V8Value::Str(s)) => Some(vstd::slice::slice_to_vec(s.as_slice())),
        _ => None,
    }
}

/// A number value as an `i64` (taken as a double, truncated, saturating).
pub fn num_of(v: &V8Value) -> (r: Option<i64>)
    ensures
        r == num_value(v.view_of()),
{
    match v {
        V8Value::Int(i) => Some(i64_via_f64(*i)),
        V8Value::UInt(u) => Some(u64_via_f64(*u)),
        V8Value::Double(b) => Some(f64_bits_to_i64(*b)),
        _ => None,
    }
}

/// Property `key` when it is a number, as an `i64`.
pub fn num_field(v: &V8Value, key: &str) -> (r: Option<i64>)
    ensures
        r == num_prop(v.view_of(), key@),
{
    match get_prop(v, key) {
        Some(x) => num_of(x),
        None => None,
    }
}

/// The value of attribute `attr` (`attr="value"`) in the opening tag of `tag`
/// (the text before its first `>`).
pub open spec fn spec_extract_attr(tag: Seq<char>, attr: Seq<char>) -> Option<Seq<char>> {
    let open_end = match find_from(tag, seq!['>'], 0) {
        Some(k) => k,
        None => tag.len() as int,
    };
    let opening = tag.take(open_end);
    let needle = attr + seq!['=', '"'];
    match find_from(opening, needle, 0) {
        None => None,
        Some(k) => {
            let start = k + needle.len();
            match find_from(opening, seq!['"'], start) {
                None => None,
                Some(q) => Some(opening.subrange(start, q)),
            }
        },
    }
}

fn extract_attr(tag: &[char], attr: &str) -> (r: Option<Vec<char>>)
    ensures
        match spec_extract_attr(tag@, attr@) {
            Some(v) => r matches Some(x) && x@ == v,
            None => r is None,
        },
{
    let mut gt: Vec<char> = Vec::new();
    gt.push('>');
    assert(gt@ =~= seq!['>']);
    proof { lemma_find_from(tag@, seq!['>'], 0); }
    let found = find_chars(tag, gt.as_slice(), 0);
    let open_end = match found {
        Some(k) => {
            assert(find_from(tag@, seq!['>'], 0) == Some(k as int));
            k
        },
        None => tag.len(),
    };
    let opening = slice_chars(tag, 0, open_end);
    assert(opening@ =~= tag@.take(open_end as int));
    let ghost sopen = tag@.take(open_end as int);
    let mut needle = chars_of(attr);
    needle.push('=');
    needle.push('"');
    assert(needle@ =~= attr@ + seq!['=', '"']);
    let k = match find_chars(opening, needle.as_slice(), 0) {
        Some(k) => k,
        None => {
            assert(find_from(sopen, attr@ + seq!['=', '"'], 0) is None);
            return None;
        },
    };
    proof { lemma_find_from(opening@, needle@, 0); }
    let start = k + needle.len();
    let mut quote: Vec<char> = Vec::new();
    quote.push('"');
    assert(quote@ =~= seq!['"']);
    let q = match find_chars(opening, quote.as_slice(), start) {
        Some(q) => q,
        None => return None,
    };
    proof { lemma_find_from(opening@, quote@, start as int); }
    Some(vstd::slice::slice_to_vec(slice_chars(opening, start, q)))
}

/// Removes reply quotes (`<blockquote ...>...</blockquote>` blocks that
/// mention `schema.skype.com/Reply`) from `rest`, keeping other blockquotes;
/// `reply` is the quoted message id found so far (the first one is kept).
pub open spec fn strip_quotes(rest: Seq<char>, reply: Option<Seq<char>>) -> (Seq<char>, Option<Seq<char>>)
    decreases rest.len(),
{
    match find_from(rest, "<blockquote"@, 0) {
        None => (rest, reply),
        Some(pos) => match find_from(rest, "</blockquote>"@, pos) {
            None => (rest, reply),
            Some(e) => {
                proof {
                    reveal_strlit("</blockquote>");
                    lemma_find_from(rest, "<blockquote"@, 0);
                    lemma_find_from(rest, "</blockquote>"@, pos);
                }
                let end = e + "</blockquote>"@.len();
                let block = rest.subrange(pos, end);
                let is_reply = contains_seq(block, "schema.skype.com/Reply"@);
                let reply2 = if is_reply && reply is None { spec_extract_attr(block, "itemid"@) } else { reply };
                let kept = if is_reply { rest.take(pos) } else { rest.take(end) };
                let tail = strip_quotes(rest.skip(end), reply2);
                (kept + tail.0, tail.1)
            },
        },
    }
}

/// Reply quote removal on a whole message body: the text without reply
/// quotes, and the id of the first quoted message.
pub open spec fn spec_strip_reply_quote(html: Seq<char>) -> (Seq<char>, Option<Seq<char>>) {
    if !contains_seq(html, "<blockquote"@) {
        (html, None)
    } else {
        strip_quotes(html, None)
    }
}

/// Removes reply quotes from a message body and returns the quoted message
/// id (the first, when there are several). Other blockquotes are kept.
pub fn strip_reply_quote(html: &Vec<char>) -> (r: (Vec<char>, Option<Vec<char>>))
    ensures
        r.0@ == spec_strip_reply_quote(html@).0,
        match spec_strip_reply_quote(html@).1 {
            Some(id) => r.1 matches Some(x) && x@ == id,
            None => r.1 is None,
        },
{
    let open = chars_of("<blockquote");
    let close = chars_of("</blockquote>");
    let marker = chars_of("schema.skype.com/Reply");
    if !contains_chars(html.as_slice(), open.as_slice()) {
        return (vstd::slice::slice_to_vec(html.as_slice()), None);
    }
    proof { reveal_strlit("</blockquote>"); }
    let mut result: Vec<char> = Vec::new();
    let mut reply_to: Option<Vec<char>> = None;
    let mut off: usize = 0;
    assert(html@.skip(0) =~= html@);
    loop
        invariant
            off <= html@.len(),
            open@ == "<blockquote"@,
            close@ == "</blockquote>"@,
            close@.len() == 13,
            marker@ == "schema.skype.com/Reply"@,
            ({
                let t = strip_quotes(html@.skip(off as int), match reply_to { Some(x) => Some(x@), None => None });
                &&& spec_strip_reply_quote(html@).0 == result@ + t.0
                &&& spec_strip_reply_quote(html@).1 == t.1
            }),
        decreases html@.len() - off,
    {
        let rest = slice_chars(html.as_slice(), off, html.len());
        assert(rest@ == html@.skip(off as int));
        let ghost rv = match &reply_to { Some(x) => Some(x@), None => None::<Seq<char>> };
        let pos = match find_chars(rest, open.as_slice(), 0) {
            Some(p) => p,
            None => {
                result.append(&mut vstd::slice::slice_to_vec(rest));
                return (result, reply_to);
            },
        };
        proof { lemma_find_from(rest@, open@, 0); }
        let e = match find_chars(rest, close.as_slice(), pos) {
            Some(e) => e,
            None => {
                result.append(&mut vstd::slice::slice_to_vec(rest));
                return (result, reply_to);
            },
        };
        proof { lemma_find_from(rest@, close@, pos as int); }
        let end = e + close.len();
        let block = slice_chars(rest, pos, end);
        let is_reply = contains_chars(block, marker.as_slice());
        let ghost reply2 = if is_reply && rv is None { crate::schema::spec_extract_attr(block@, "itemid"@) } else { rv };
        let ghost kept = if is_reply { rest@.take(pos as int) } else { rest@.take(end as int) };
        let ghost old_result = result@;
        if is_reply {
            result.append(&mut vstd::slice::slice_to_vec(slice_chars(rest, 0, pos)));
            if reply_to.is_none() {
                reply_to = extract_attr(block, "itemid");
            }
        } else {
            result.append(&mut vstd::slice::slice_to_vec(slice_chars(rest, 0, end)));
        }
        proof {
            assert(rest@.take(pos as int) =~= rest@.subrange(0, pos as int));
            assert(rest@.take(end as int) =~= rest@.subrange(0, end as int));
            assert(result@ == old_result + kept);
            assert(html@.skip(off + end) =~= rest@.skip(end as int));
            let t = strip_quotes(rest@.skip(end as int), reply2);
            assert(old_result + (kept + t.0) =~= (old_result + kept) + t.0);
        }
        off = off + end;
    }
}


/// `Some` only for a non-empty string.
pub open spec fn non_empty(o: Option<Seq<char>>) -> Option<Seq<char>> {
    match o {
        Some(x) => if x.len() > 0 { Some(x) } else { None },
        None => None,
    }
}

/// The first of two optional strings that is present.
pub open spec fn first_of(a: Option<Seq<char>>, b: Option<Seq<char>>) -> Option<Seq<char>> {
    match a {
        Some(x) => Some(x),
        None => b,
    }
}

/// An optional string, or the empty string.
pub open spec fn or_empty(o: Option<Seq<char>>) -> Seq<char> {
    match o {
        Some(x) => x,
        None => Seq::empty(),
    }
}

/// The views of optional character vectors.
pub open spec fn chars_opt(o: Option<Vec<char>>) -> Option<Seq<char>> {
    match o {
        Some(v) => Some(v@),
        None => None,
    }
}

fn or_empty_chars(o: Option<Vec<char>>) -> (r: Vec<char>)
    ensures
        r@ == or_empty(chars_opt(o)),
{
    match o {
        Some(v) => v,
        None => Vec::new(),
    }
}

/// The time of a message in epoch milliseconds: `originalArrivalTime`, else
/// the `id` read as a decimal number, else `clientArrivalTime`, else 0.
pub open spec fn spec_time_ms(v: V8View) -> i64 {
    match num_prop(v, "originalArrivalTime"@) {
        Some(t) => t,
        None => {
            let from_id = match str_prop(v, "id"@) {
                Some(s) => spec_parse_i64(s),
                None => None,
            };
            match from_id {
                Some(t) => t,
                None => match num_prop(v, "clientArrivalTime"@) {
                    Some(t) => t,
                    None => 0,
                },
            }
        },
    }
}

/// The displayed text of a message body: reply quotes removed, then, when a
/// tag remains, HTML turned into plain text.
pub open spec fn spec_content(raw: Seq<char>) -> Seq<char> {
    let stripped = spec_strip_reply_quote(raw).0;
    if contains_seq(stripped, seq!['<']) {
        spec_html_to_text(stripped)
    } else {
        stripped
    }
}

/// The `<img ...>` tags of an HTML text, in order (each up to and including
/// its `>`, or to the end of the text).
pub open spec fn img_tags(s: Seq<char>) -> Seq<Seq<char>>
    decreases s.len(),
{
    match find_from(s, "<img"@, 0) {
        None => Seq::empty(),
        Some(p) => {
            proof {
                reveal_strlit("<img");
                lemma_find_from(s, "<img"@, 0);
                lemma_find_from(s, seq!['>'], p);
            }
            let end = match find_from(s, seq!['>'], p) {
                Some(e) => e + 1,
                None => s.len() as int,
            };
            seq![s.subrange(p, end)] + img_tags(s.skip(end))
        },
    }
}

/// The number of ASCII digits at the start of `s`.
pub open spec fn digit_run(s: Seq<char>) -> nat
    decreases s.len(),
{
    if s.len() > 0 && '0' <= s[0] <= '9' {
        1 + digit_run(s.skip(1))
    } else {
        0
    }
}

/// The pixel size that the inline style of a tag gives for `prop`: the
/// number right after the first `prop:` of the `style` attribute.
pub open spec fn style_px(tag: Seq<char>, prop: Seq<char>) -> Option<u32> {
    match spec_extract_attr(tag, "style"@) {
        None => None,
        Some(st) => match find_from(st, prop + seq![':'], 0) {
            None => None,
            Some(k) => {
                let rest = st.skip(k + prop.len() + 1);
                spec_parse_u32(rest.take(digit_run(rest) as int), 10)
            },
        },
    }
}

/// The image that an `<img>` tag refers to: one with a `src` that is an AMS
/// image (`itemtype` mentioning `AMSImage`, or an `asyncgw` URL); emoji and
/// stickers are not.
pub open spec fn spec_image_of(tag: Seq<char>) -> Option<ImageRefView> {
    match spec_extract_attr(tag, "src"@) {
        None => None,
        Some(url) => {
            let ams = match spec_extract_attr(tag, "itemtype"@) {
                Some(t) => contains_seq(t, "AMSImage"@),
                None => false,
            };
            if ams || contains_seq(url, "asyncgw"@) {
                Some(ImageRefView { url, width: style_px(tag, "width"@), height: style_px(tag, "height"@) })
            } else {
                None
            }
        },
    }
}

/// The images referred to by a list of tags, in order.
pub open spec fn images_of(tags: Seq<Seq<char>>) -> Seq<ImageRefView>
    decreases tags.len(),
{
    if tags.len() == 0 {
        Seq::empty()
    } else {
        let prev = images_of(tags.drop_last());
        match spec_image_of(tags.last()) {
            Some(i) => prev.push(i),
            None => prev,
        }
    }
}

/// The `<img>` tags of an HTML text.
pub fn find_img_tags(s: &[char]) -> (r: Vec<Vec<char>>)
    ensures
        r@.map_values(|t: Vec<char>| t@) == img_tags(s@),
{
    let open = chars_of("<img");
    let mut gt: Vec<char> = Vec::new();
    gt.push('>');
    assert(gt@ =~= seq!['>']);
    let mut out: Vec<Vec<char>> = Vec::new();
    let mut off: usize = 0;
    assert(s@.skip(0) =~= s@);
    assert(out@.map_values(|t: Vec<char>| t@) =~= Seq::<Seq<char>>::empty());
    loop
        invariant
            off <= s@.len(),
            open@ == "<img"@,
            gt@ == seq!['>'],
            img_tags(s@) == out@.map_values(|t: Vec<char>| t@) + img_tags(s@.skip(off as int)),
        decreases s@.len() - off,
    {
        let rest = slice_chars(s, off, s.len());
        assert(rest@ == s@.skip(off as int));
        let p = match find_chars(rest, open.as_slice(), 0) {
            Some(p) => p,
            None => {
                assert(out@.map_values(|t: Vec<char>| t@) + Seq::<Seq<char>>::empty() =~= out@.map_values(|t: Vec<char>| t@));
                return out;
            },
        };
        proof { lemma_find_from(rest@, "<img"@, 0); }
        proof { lemma_find_from(rest@, seq!['>'], p as int); }
        let end = match find_chars(rest, gt.as_slice(), p) {
            Some(e) => e + 1,
            None => rest.len(),
        };
        let tag = vstd::slice::slice_to_vec(slice_chars(rest, p, end));
        let ghost before = out@.map_values(|t: Vec<char>| t@);
        out.push(tag);
        proof {
            assert(out@.map_values(|t: Vec<char>| t@) =~= before.push(rest@.subrange(p as int, end as int)));
            assert(s@.skip(off + end) =~= rest@.skip(end as int));
            assert(img_tags(rest@) == seq![rest@.subrange(p as int, end as int)] + img_tags(rest@.skip(end as int)));
            assert(before + img_tags(rest@) =~= before.push(rest@.subrange(p as int, end as int)) + img_tags(rest@.skip(end as int)));
        }
        off = off + end;
    }
}

fn style_px_exec(tag: &[char], prop: &str) -> (r: Option<u32>)
    ensures
        r == style_px(tag@, prop@),
{
    let st = match extract_attr(tag, "style") {
        Some(st) => st,
        None => return None,
    };
    let mut pat = chars_of(prop);
    pat.push(':');
    assert(pat@ =~= prop@ + seq![':']);
    proof { lemma_find_from(st@, pat@, 0); }
    let k = match find_chars(st.as_slice(), pat.as_slice(), 0) {
        Some(k) => k,
        None => return None,
    };
    assert(find_from(st@, pat@, 0) == Some(k as int));
    let sl = st.len();
    assert(k + pat@.len() <= sl);
    let rest = slice_chars(st.as_slice(), k + pat.len(), sl);
    assert(rest@ =~= st@.skip(k + prop@.len() + 1));
    let mut n: usize = 0;
    assert(rest@.skip(0) =~= rest@);
    while n < rest.len() && '0' <= rest[n] && rest[n] <= '9'
        invariant
            n <= rest@.len(),
            digit_run(rest@) == n + digit_run(rest@.skip(n as int)),
        decreases rest@.len() - n,
    {
        assert(rest@.skip(n as int).skip(1) =~= rest@.skip(n + 1));
        n += 1;
    }
    let digits = slice_chars(rest, 0, n);
    assert(digits@ =~= rest@.take(digit_run(rest@) as int));
    parse_u32_radix(digits, 10)
}

/// The image an `<img>` tag refers to (see `spec_image_of`).
pub fn image_of(tag: &[char]) -> (r: Option<ImageRef>)
    ensures
        match spec_image_of(tag@) {
            Some(i) => r matches Some(x) && x@ == i,
            None => r is None,
        },
{
    let url = match extract_attr(tag, "src") {
        Some(u) => u,
        None => return None,
    };
    let ams = match extract_attr(tag, "itemtype") {
        Some(t) => contains_chars(t.as_slice(), chars_of("AMSImage").as_slice()),
        None => false,
    };
    if ams || contains_chars(url.as_slice(), chars_of("asyncgw").as_slice()) {
        Some(ImageRef {
            url: string_from_chars(&url),
            width: style_px_exec(tag, "width"),
            height: style_px_exec(tag, "height"),
        })
    } else {
        None
    }
}

/// The images of an HTML text.
pub fn extract_images(html: &[char]) -> (r: Vec<ImageRef>)
    ensures
        images_view(r@) == images_of(img_tags(html@)),
{
    let tags = find_img_tags(html);
    let ghost tv = tags@.map_values(|t: Vec<char>| t@);
    let mut out: Vec<ImageRef> = Vec::new();
    let mut i: usize = 0;
    assert(tv.take(0) =~= Seq::<Seq<char>>::empty());
    assert(images_view(out@) =~= Seq::<ImageRefView>::empty());
    while i < tags.len()
        invariant
            tv == tags@.map_values(|t: Vec<char>| t@),
            tv.len() == tags@.len(),
            i <= tags@.len(),
            images_view(out@) == images_of(tv.take(i as int)),
        decreases tags@.len() - i,
    {
        assert(tv.take(i + 1).drop_last() =~= tv.take(i as int));
        assert(tv.take(i + 1).last() == tags@[i as int]@);
        match image_of(tags[i].as_slice()) {
            Some(img) => {
                let ghost before = images_view(out@);
                out.push(img);
                assert(images_view(out@) =~= before.push(img@));
            },
            None => {},
        }
        i += 1;
    }
    assert(tv.take(tags@.len() as int) =~= tv);
    out
}

/// The text shown for a message: its plain text, or `[이미지]` when only
/// images are left.
pub open spec fn spec_shown_content(raw: Seq<char>) -> Seq<char> {
    let images = images_of(img_tags(spec_strip_reply_quote(raw).0));
    if spec_content(raw).len() == 0 && images.len() > 0 {
        "[이미지]"@
    } else {
        spec_content(raw)
    }
}

/// A message record read from an entry of a `messageMap`. `fallback` is the
/// conversation id of the enclosing record, used when the message has none;
/// a message with no conversation id at all is dropped.
pub open spec fn spec_parse_message(v: V8View, fallback: Seq<char>) -> Option<MessageView> {
    if !(v is Object) {
        None
    } else {
        let cid = match non_empty(str_prop(v, "conversationId"@)) {
            Some(c) => c,
            None => fallback,
        };
        if cid.len() == 0 {
            None
        } else {
            let raw = or_empty(str_prop(v, "content"@));
            let t = spec_time_ms(v);
            Some(MessageView {
                conversation_id: cid,
                sender: or_empty(first_of(non_empty(str_prop(v, "imDisplayName"@)), str_prop(v, "fromDisplayNameInToken"@))),
                content: spec_shown_content(raw),
                time: spec_format_epoch_ms(t),
                time_ms: t,
                message_type: or_empty(str_prop(v, "messageType"@)),
                id: or_empty(str_prop(v, "id"@)),
                reply_to: spec_strip_reply_quote(raw).1,
                images: images_of(img_tags(spec_strip_reply_quote(raw).0)),
            })
        }
    }
}

fn time_of(v: &V8Value) -> (t: i64)
    ensures
        t == spec_time_ms(v.view_of()),
{
    match num_field(v, "originalArrivalTime") {
        Some(t) => t,
        None => {
            let from_id = match str_field(v, "id") {
                Some(s) => parse_i64(s.as_slice()),
                None => None,
            };
            match from_id {
                Some(t) => t,
                None => match num_field(v, "clientArrivalTime") {
                    Some(t) => t,
                    None => 0,
                },
            }
        },
    }
}

fn opt_string(o: Option<Vec<char>>) -> (r: Option<String>)
    ensures
        crate::teams::opt_str_view(r) == chars_opt(o),
{
    match o {
        Some(v) => Some(string_from_chars(&v)),
        None => None,
    }
}

/// Reads one message record (see `spec_parse_message`).
pub fn parse_message(v: &V8Value, conv_fallback: &Vec<char>) -> (r: Option<Message>)
    ensures
        match spec_parse_message(v.view_of(), conv_fallback@) {
            Some(m) => r matches Some(x) && x@ == m,
            None => r is None,
        },
{
    match v {
        V8Value::Object(_) => {},
        _ => return None,
    }
    let cid = match str_field(v, "conversationId") {
        Some(c) => if c.len() > 0 { c } else { vstd::slice::slice_to_vec(conv_fallback.as_slice()) },
        None => vstd::slice::slice_to_vec(conv_fallback.as_slice()),
    };
    if cid.len() == 0 {
        return None;
    }
    let sender = match str_field(v, "imDisplayName") {
        Some(s) => if s.len() > 0 { s } else { or_empty_chars(str_field(v, "fromDisplayNameInToken")) },
        None => or_empty_chars(str_field(v, "fromDisplayNameInToken")),
    };
    let message_type = or_empty_chars(str_field(v, "messageType"));
    let raw = or_empty_chars(str_field(v, "content"));
    let (stripped, reply_to) = strip_reply_quote(&raw);
    let mut lt: Vec<char> = Vec::new();
    lt.push('<');
    assert(lt@ =~= seq!['<']);
    let images = extract_images(stripped.as_slice());
    let text = if contains_chars(stripped.as_slice(), lt.as_slice()) {
        let s = string_from_chars(&stripped);
        html_to_text(s.as_str())
    } else {
        string_from_chars(&stripped)
    };
    let content = if text.as_str().unicode_len() == 0 && images.len() > 0 {
        "[이미지]".to_string()
    } else {
        text
    };
    let t = time_of(v);
    let id = or_empty_chars(str_field(v, "id"));
    let r = Message {
        conversation_id: string_from_chars(&cid),
        sender: string_from_chars(&sender),
        content,
        time: format_epoch_ms(t),
        time_ms: t,
        message_type: string_from_chars(&message_type),
        id: string_from_chars(&id),
        reply_to: opt_string(reply_to),
        images,
    };
    Some(r)
}

/// The messages of the entries `ps` of a `messageMap`, in entry order.
pub open spec fn messages_of(ps: Seq<(Seq<char>, V8View)>, fallback: Seq<char>) -> Seq<MessageView>
    decreases ps.len(),
{
    if ps.len() == 0 {
        Seq::empty()
    } else {
        let prev = messages_of(ps.drop_last(), fallback);
        match spec_parse_message(ps.last().1, fallback) {
            Some(m) => prev.push(m),
            None => prev,
        }
    }
}

/// The messages of a replychain record: the entries of its `messageMap`
/// object, with the record's `conversationId` as the fallback.
pub open spec fn spec_record_messages(rec: V8View) -> Seq<MessageView> {
    match prop(rec, "messageMap"@) {
        Some(V8View::Object(ps)) => messages_of(ps, or_empty(str_prop(rec, "conversationId"@))),
        _ => Seq::empty(),
    }
}

/// The views of a list of messages.
pub open spec fn msgs_view(s: Seq<Message>) -> Seq<MessageView> {
    s.map_values(|m: Message| m@)
}

/// Reads the messages of a replychain record.
pub fn record_messages(rec: &V8Value) -> (r: Vec<Message>)
    ensures
        msgs_view(r@) == spec_record_messages(rec.view_of()),
{
    let mut out: Vec<Message> = Vec::new();
    let map = match get_prop(rec, "messageMap") {
        Some(m) => m,
        None => return out,
    };
    let props = match map {
        V8Value::Object(ps) => ps,
        _ => return out,
    };
    let fallback = or_empty_chars(str_field(rec, "conversationId"));
    let ghost pv = props_view(props@);
    proof { lemma_props_view_len(props@); }
    let mut i: usize = 0;
    assert(pv.take(0) =~= Seq::<(Seq<char>, V8View)>::empty());
    assert(msgs_view(out@) =~= Seq::<MessageView>::empty());
    while i < props.len()
        invariant
            pv == props_view(props@),
            pv.len() == props@.len(),
            forall|j: int| 0 <= j < props@.len() ==> (#[trigger] pv[j]) == (props@[j].0@, props@[j].1.view_of()),
            i <= props@.len(),
            msgs_view(out@) == messages_of(pv.take(i as int), fallback@),
        decreases props@.len() - i,
    {
        assert(pv.take(i + 1).drop_last() =~= pv.take(i as int));
        assert(pv.take(i + 1).last() == pv[i as int]);
        match parse_message(&props[i].1, &fallback) {
            Some(m) => {
                let ghost before = msgs_view(out@);
                out.push(m);
                assert(msgs_view(out@) =~= before.push(m@));
            },
            None => {},
        }
        i += 1;
    }
    assert(pv.take(props@.len() as int) =~= pv);
    out
}

/// Whether a string begins with the thread prefix `19:`.
pub open spec fn is_thread_id(s: Seq<char>) -> bool {
    s.len() >= 3 && s[0] == '1' && s[1] == '9' && s[2] == ':'
}

/// The conversation id and title of a `conversations` record: only threads
/// (ids beginning `19:`); the title is `threadProperties.topic` when
/// non-empty, else `chatTitle.longTitle`, else `chatTitle.shortTitle`, else
/// the id.
pub open spec fn spec_extract_topic(v: V8View) -> Option<(Seq<char>, Seq<char>)> {
    match str_prop(v, "id"@) {
        None => None,
        Some(cid) => if !is_thread_id(cid) {
            None
        } else {
            let named = match prop(v, "threadProperties"@) {
                Some(t) => non_empty(str_prop(t, "topic"@)),
                None => None,
            };
            let titled = match prop(v, "chatTitle"@) {
                Some(ct) => first_of(str_prop(ct, "longTitle"@), str_prop(ct, "shortTitle"@)),
                None => None,
            };
            match first_of(named, titled) {
                Some(t) => Some((cid, t)),
                None => Some((cid, cid)),
            }
        },
    }
}

/// Reads the conversation id and title of a `conversations` record.
pub fn extract_topic(v: &V8Value) -> (r: Option<(Vec<char>, Vec<char>)>)
    ensures
        match spec_extract_topic(v.view_of()) {
            Some((c, t)) => r matches Some(x) && x.0@ == c && x.1@ == t,
            None => r is None,
        },
{
    let cid = match str_field(v, "id") {
        Some(c) => c,
        None => return None,
    };
    if !(cid.len() >= 3 && cid[0] == '1' && cid[1] == '9' && cid[2] == ':') {
        return None;
    }
    let named = match get_prop(v, "threadProperties") {
        Some(t) => match str_field(t, "topic") {
            Some(s) => if s.len() > 0 { Some(s) } else { None },
            None => None,
        },
        None => None,
    };
    let titled = match get_prop(v, "chatTitle") {
        Some(ct) => match str_field(ct, "longTitle") {
            Some(s) => Some(s),
            None => str_field(ct, "shortTitle"),
        },
        None => None,
    };
    let topic = match named {
        Some(t) => t,
        None => match titled {
            Some(t) => t,
            None => vstd::slice::slice_to_vec(cid.as_slice()),
        },
    };
    Some((cid, topic))
}


/// `seg` occurs in `name` at `k` as a whole `:`-separated segment.
pub open spec fn segment_at(name: Seq<char>, seg: Seq<char>, k: int) -> bool {
    &&& occurs_at(name, seg, k)
    &&& (k == 0 || name[k - 1] == ':')
    &&& (k + seg.len() == name.len() || name[k + seg.len()] == ':')
}

/// `seg` is one of the pieces of `name` split at `:`.
pub open spec fn is_segment(name: Seq<char>, seg: Seq<char>) -> bool {
    &&& !seg.contains(':')
    &&& exists|k: int| segment_at(name, seg, k)
}

fn has_colon(s: &[char]) -> (r: bool)
    ensures
        r == s@.contains(':'),
{
    let mut i: usize = 0;
    while i < s.len()
        invariant
            i <= s@.len(),
            forall|j: int| 0 <= j < i ==> s@[j] != ':',
        decreases s@.len() - i,
    {
        if s[i] == ':' {
            return true;
        }
        i += 1;
    }
    false
}

/// Whether `seg` is one of the `:`-separated pieces of `name`.
pub fn has_segment(name: &[char], seg: &[char]) -> (r: bool)
    ensures
        r == is_segment(name@, seg@),
{
    if has_colon(seg) {
        return false;
    }
    let n = name.len();
    let mut start: usize = 0;
    let mut i: usize = 0;
    loop
        invariant
            n == name@.len(),
            !seg@.contains(':'),
            start <= i <= n,
            start == 0 || name@[start - 1] == ':',
            forall|t: int| start <= t < i ==> name@[t] != ':',
            forall|k: int| 0 <= k && k + seg@.len() < i ==> !segment_at(name@, seg@, k),
        decreases n - i,
    {
        if i == n || name[i] == ':' {
            let piece = slice_chars(name, start, i);
            if chars_eq(piece, seg) {
                assert(name@.subrange(start as int, start + seg@.len()) =~= seg@);
                assert(segment_at(name@, seg@, start as int));
                return true;
            }
            proof {
                assert forall|k: int| 0 <= k && k + seg@.len() == i implies !segment_at(name@, seg@, k) by {
                    if segment_at(name@, seg@, k) {
                        if k < start {
                            assert(name@.subrange(k, k + seg@.len())[start - 1 - k] == name@[start - 1]);
                            assert(seg@[start - 1 - k] == ':');
                        } else if k > start {
                            assert(name@[k - 1] == ':');
                        } else {
                            assert(piece@ =~= seg@);
                        }
                    }
                }
            }
            if i == n {
                proof {
                    assert forall|k: int| segment_at(name@, seg@, k) implies false by {
                        assert(k + seg@.len() <= n);
                    }
                }
                return false;
            }
            start = i + 1;
        }
        i += 1;
    }
}

/// The id of the first database whose name has `manager` as a segment,
/// searching from position `i`.
pub open spec fn first_db(dbs: Seq<(Seq<char>, u64)>, manager: Seq<char>, i: int) -> Option<u64>
    decreases dbs.len() - i,
{
    if i < 0 || i >= dbs.len() {
        None
    } else if is_segment(dbs[i].0, manager) {
        Some(dbs[i].1)
    } else {
        first_db(dbs, manager, i + 1)
    }
}

/// The views of database name/id pairs.
pub open spec fn dbs_view(dbs: Seq<(Vec<char>, u64)>) -> Seq<(Seq<char>, u64)> {
    dbs.map_values(|d: (Vec<char>, u64)| (d.0@, d.1))
}

/// The id of the first database whose name has `manager` as a `:`-separated
/// segment (so `conversation-manager` does not match
/// `conversation-folder-manager`).
pub fn find_db_by_manager(databases: &Vec<(Vec<char>, u64)>, manager: &[char]) -> (r: Option<u64>)
    ensures
        r == first_db(dbs_view(databases@), manager@, 0),
{
    let ghost dv = dbs_view(databases@);
    let mut i: usize = 0;
    while i < databases.len()
        invariant
            dv == dbs_view(databases@),
            dv.len() == databases@.len(),
            i <= databases@.len(),
            first_db(dv, manager@, 0) == first_db(dv, manager@, i as int),
        decreases databases@.len() - i,
    {
        assert(dv[i as int] == (databases@[i as int].0@, databases@[i as int].1));
        if has_segment(databases[i].0.as_slice(), manager) {
            return Some(databases[i].1);
        }
        i += 1;
    }
    None
}

/// `threadProperties.topic` of a conversation record, if present.
pub open spec fn thread_topic(v: V8View) -> Option<Seq<char>> {
    match prop(v, "threadProperties"@) {
        Some(tp) => str_prop(tp, "topic"@),
        None => None,
    }
}

/// `chatTitle.<key>` of a conversation record, if present.
pub open spec fn chat_title(v: V8View, key: Seq<char>) -> Option<Seq<char>> {
    match prop(v, "chatTitle"@) {
        Some(ct) => str_prop(ct, key),
        None => None,
    }
}

/// Law: only thread records (`19:` ids) give a title. A non-empty
/// `threadProperties.topic` is the title; an empty or missing one is passed
/// over for `chatTitle.longTitle`, then `chatTitle.shortTitle`, then the id.
/// So a title is empty only when the chat title it was taken from is.
pub proof fn lemma_topic_choice(v: V8View)
    ensures
        spec_extract_topic(v) is Some <==> (str_prop(v, "id"@) matches Some(c) && is_thread_id(c)),
        spec_extract_topic(v) matches Some((c, t)) ==> {
            &&& str_prop(v, "id"@) == Some(c)
            &&& (thread_topic(v) is Some && thread_topic(v)->0.len() > 0 ==> t == thread_topic(v)->0)
            &&& (!(thread_topic(v) is Some && thread_topic(v)->0.len() > 0) ==> t == (
                if chat_title(v, "longTitle"@) is Some {
                    chat_title(v, "longTitle"@)->0
                } else if chat_title(v, "shortTitle"@) is Some {
                    chat_title(v, "shortTitle"@)->0
                } else {
                    c
                }))
            &&& (t.len() == 0 ==> chat_title(v, "longTitle"@) == Some(Seq::<char>::empty())
                || (chat_title(v, "longTitle"@) is None && chat_title(v, "shortTitle"@) == Some(Seq::<char>::empty())))
        },
{
}

} // verus!
