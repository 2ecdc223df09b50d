//! The Teams schema on top of the decoded IndexedDB records, and the query
//! API over them (`TeamsStore`).
//!
//! - Conversations: `OneGQL_Conversation` records of the `conversations`
//!   object store of the `conversation-manager` database (`id` is the
//!   conversation id; the title is `threadProperties.topic`, else
//!   `chatTitle.longTitle`/`shortTitle`).
//! - Messages: the `messageMap` of the replychain records of the
//!   `replychains`/`replychains-2` stores of the `replychain-manager` database.
//!
//! Database and object store ids are assigned per profile in creation order,
//! so they are resolved by name from the metadata records.

use vstd::prelude::*;
use crate::idb::{
    spec_key_prefix, spec_database_name, spec_object_store_name, parse_database_name, parse_object_store_name,
    KeyPrefix,
};
use crate::leveldb::log::{Entry, entries_view};
use crate::leveldb::{merge_records, merged, all_puts, files_view};
use crate::schema::{
    first_db, dbs_view, find_db_by_manager, spec_record_messages, spec_extract_topic, msgs_view, record_messages,
    extract_topic,
};
use crate::index::{KeyList, has_key};
use crate::order::{stably_sorted, stable_order, stable_order_of, permuted, int_keys, int_positions, lemma_sorted_keeps_all};
use crate::v8::V8Reader;
use crate::text::{chars_of, chars_eq, contains_seq, contains_chars, lowercase, to_lowercase, string_from_chars};
use crate::v8::spec_decode;
use crate::schema::{is_thread_id, messages_of};

verus! {

/// One message.
#[derive(Debug)]
pub struct Message {
    pub conversation_id: String,
    pub sender: String,
    pub content: String,
    /// `YYYY-MM-DD HH:MM:SS` (UTC).
    pub time: String,
    pub time_ms: i64,
    pub message_type: String,
    pub id: String,
    /// The id of the quoted message when this is a reply (the quote itself is
    /// removed from `content`).
    pub reply_to: Option<String>,
    /// The images of the message (references to AMS; `fetch_image` gets them).
    pub images: Vec<ImageRef>,
}

/// An image of a message: its AMS URL and the pixel size its tag gives.
#[derive(Debug)]
pub struct ImageRef {
    pub url: String,
    pub width: Option<u32>,
    pub height: Option<u32>,
}

/// Plain view of an image reference.
pub struct ImageRefView {
    pub url: Seq<char>,
    pub width: Option<u32>,
    pub height: Option<u32>,
}

impl View for ImageRef {
    type V = ImageRefView;

    open spec fn view(&self) -> ImageRefView {
        ImageRefView { url: self.url@, width: self.width, height: self.height }
    }
}

/// The views of a list of image references.
pub open spec fn images_view(s: Seq<ImageRef>) -> Seq<ImageRefView> {
    s.map_values(|i: ImageRef| i@)
}

impl ImageRef {
    /// A copy of this reference.
    pub fn duplicate(&self) -> (r: ImageRef)
        ensures
            r@ == self@,
    {
        ImageRef { url: self.url.clone(), width: self.width, height: self.height }
    }
}

/// Copies a list of image references.
pub fn duplicate_images(v: &Vec<ImageRef>) -> (r: Vec<ImageRef>)
    ensures
        images_view(r@) == images_view(v@),
{
    let mut r: Vec<ImageRef> = Vec::new();
    let mut i: usize = 0;
    while i < v.len()
        invariant
            i <= v@.len(),
            images_view(r@) == images_view(v@).take(i as int),
        decreases v@.len() - i,
    {
        let x = v[i].duplicate();
        let ghost before = images_view(r@);
        r.push(x);
        assert(images_view(r@) =~= before.push(x@));
        assert(images_view(v@)[i as int] == v@[i as int]@);
        assert(images_view(r@) =~= images_view(v@).take(i + 1));
        i += 1;
    }
    assert(images_view(v@).take(v@.len() as int) =~= images_view(v@));
    r
}

/// Plain view of a message.
pub struct MessageView {
    pub conversation_id: Seq<char>,
    pub sender: Seq<char>,
    pub content: Seq<char>,
    pub time: Seq<char>,
    pub time_ms: i64,
    pub message_type: Seq<char>,
    pub id: Seq<char>,
    pub reply_to: Option<Seq<char>>,
    pub images: Seq<ImageRefView>,
}

pub open spec fn opt_str_view(o: Option<String>) -> Option<Seq<char>> {
    match o {
        Some(s) => Some(s@),
        None => None,
    }
}

impl View for Message {
    type V = MessageView;

    open spec fn view(&self) -> MessageView {
        MessageView {
            conversation_id: self.conversation_id@,
            sender: self.sender@,
            content: self.content@,
            time: self.time@,
            time_ms: self.time_ms,
            message_type: self.message_type@,
            id: self.id@,
            reply_to: opt_str_view(self.reply_to),
            images: images_view(self.images@),
        }
    }
}

impl Message {
    /// A copy of this message.
    pub fn duplicate(&self) -> (r: Message)
        ensures
            r@ == self@,
    {
        Message {
            conversation_id: self.conversation_id.clone(),
            sender: self.sender.clone(),
            content: self.content.clone(),
            time: self.time.clone(),
            time_ms: self.time_ms,
            message_type: self.message_type.clone(),
            id: self.id.clone(),
            reply_to: match &self.reply_to {
                Some(s) => Some(s.clone()),
                None => None,
            },
            images: duplicate_images(&self.images),
        }
    }
}

/// One conversation in the chat list.
#[derive(Debug)]
pub struct Chat {
    pub conversation_id: String,
    pub topic: String,
    pub message_count: usize,
    pub last_message_time: String,
    pub last_message: Option<Message>,
}

/// Plain view of a chat list entry.
pub struct ChatView {
    pub conversation_id: Seq<char>,
    pub topic: Seq<char>,
    pub message_count: nat,
    pub last_message_time: Seq<char>,
    pub last_message: Option<MessageView>,
}

impl Chat {
    /// A copy of this entry.
    pub fn duplicate(&self) -> (r: Chat)
        ensures
            r@ == self@,
    {
        Chat {
            conversation_id: self.conversation_id.clone(),
            topic: self.topic.clone(),
            message_count: self.message_count,
            last_message_time: self.last_message_time.clone(),
            last_message: match &self.last_message {
                Some(m) => Some(m.duplicate()),
                None => None,
            },
        }
    }
}

impl View for Chat {
    type V = ChatView;

    open spec fn view(&self) -> ChatView {
        ChatView {
            conversation_id: self.conversation_id@,
            topic: self.topic@,
            message_count: self.message_count as nat,
            last_message_time: self.last_message_time@,
            last_message: match self.last_message {
                Some(m) => Some(m@),
                None => None,
            },
        }
    }
}


/// Database names and ids declared by the metadata records, in record order.
pub open spec fn db_names(recs: Seq<Entry>) -> Seq<(Seq<char>, u64)>
    decreases recs.len(),
{
    if recs.len() == 0 {
        Seq::empty()
    } else {
        let prev = db_names(recs.drop_last());
        match spec_database_name(recs.last().0, recs.last().1) {
            Some(d) => prev.push(d),
            None => prev,
        }
    }
}

/// Object store names `(database, store, name)` declared by the metadata
/// records (those that are not database names), in record order.
pub open spec fn store_names(recs: Seq<Entry>) -> Seq<(u64, u64, Seq<char>)>
    decreases recs.len(),
{
    if recs.len() == 0 {
        Seq::empty()
    } else {
        let prev = store_names(recs.drop_last());
        if spec_database_name(recs.last().0, recs.last().1) is Some {
            prev
        } else {
            match spec_object_store_name(recs.last().0, recs.last().1) {
                Some(x) => prev.push(x),
                None => prev,
            }
        }
    }
}

/// The first store of database `db` named `name`, from position `i`.
pub open spec fn first_store(stores: Seq<(u64, u64, Seq<char>)>, db: u64, name: Seq<char>, i: int) -> Option<(u64, u64)>
    decreases stores.len() - i,
{
    if i < 0 || i >= stores.len() {
        None
    } else if stores[i].0 == db && stores[i].2 == name {
        Some((stores[i].0, stores[i].1))
    } else {
        first_store(stores, db, name, i + 1)
    }
}

/// The `(database, store)` cell that holds conversation records: the
/// `conversations` store of the database whose name has the segment
/// `conversation-manager`.
pub open spec fn conv_cell(recs: Seq<Entry>) -> Option<(u64, u64)> {
    match first_db(db_names(recs), "conversation-manager"@, 0) {
        Some(db) => first_store(store_names(recs), db, "conversations"@, 0),
        None => None,
    }
}

/// Whether `(d, s)` is a cell that holds message records: a store named
/// `replychains` or `replychains-2` of the database whose name has the
/// segment `replychain-manager`.
pub open spec fn is_msg_cell(recs: Seq<Entry>, d: u64, s: u64) -> bool {
    match first_db(db_names(recs), "replychain-manager"@, 0) {
        Some(db) => d == db && exists|i: int| 0 <= i < store_names(recs).len()
            && (#[trigger] store_names(recs)[i]).0 == d && store_names(recs)[i].1 == s
            && (store_names(recs)[i].2 == "replychains"@ || store_names(recs)[i].2 == "replychains-2"@),
        None => false,
    }
}

/// The `(database, store)` of an object store data record.
pub open spec fn data_cell(e: Entry) -> Option<(u64, u64)> {
    match spec_key_prefix(e.0) {
        Some(kp) => if kp.index_id == 1 { Some((kp.database_id, kp.object_store_id)) } else { None },
        None => None,
    }
}

/// The messages of the records `recs` (cells resolved against `all`): the
/// message records of every decodable record of a message cell, in order.
pub open spec fn record_msgs(recs: Seq<Entry>, all: Seq<Entry>) -> Seq<MessageView>
    decreases recs.len(),
{
    if recs.len() == 0 {
        Seq::empty()
    } else {
        let prev = record_msgs(recs.drop_last(), all);
        match data_cell(recs.last()) {
            Some((d, s)) => if is_msg_cell(all, d, s) {
                match spec_decode(recs.last().1) {
                    Some(v) => prev + spec_record_messages(v),
                    None => prev,
                }
            } else {
                prev
            },
            None => prev,
        }
    }
}

/// The `(conversation id, title)` pairs of the records `recs` (cells
/// resolved against `all`), in order.
pub open spec fn record_topics(recs: Seq<Entry>, all: Seq<Entry>) -> Seq<(Seq<char>, Seq<char>)>
    decreases recs.len(),
{
    if recs.len() == 0 {
        Seq::empty()
    } else {
        let prev = record_topics(recs.drop_last(), all);
        match data_cell(recs.last()) {
            Some((d, s)) => if !is_msg_cell(all, d, s) && conv_cell(all) == Some((d, s)) {
                match spec_decode(recs.last().1) {
                    Some(v) => match spec_extract_topic(v) {
                        Some(t) => prev.push(t),
                        None => prev,
                    },
                    None => prev,
                }
            } else {
                prev
            },
            None => prev,
        }
    }
}

/// Stores as `(database, store, name)` with the name's characters.
pub open spec fn stores_view(s: Seq<(u64, u64, Vec<char>)>) -> Seq<(u64, u64, Seq<char>)> {
    s.map_values(|x: (u64, u64, Vec<char>)| (x.0, x.1, x.2@))
}

/// Reads the database and object store names of the metadata records.
fn read_catalog(records: &Vec<(Vec<u8>, Vec<u8>)>) -> (r: (Vec<(Vec<char>, u64)>, Vec<(u64, u64, Vec<char>)>))
    ensures
        dbs_view(r.0@) == db_names(entries_view(records@)),
        stores_view(r.1@) == store_names(entries_view(records@)),
{
    let ghost es = entries_view(records@);
    let mut dbs: Vec<(Vec<char>, u64)> = Vec::new();
    let mut stores: Vec<(u64, u64, Vec<char>)> = Vec::new();
    let mut i: usize = 0;
    assert(es.take(0) =~= Seq::<Entry>::empty());
    assert(dbs_view(dbs@) =~= Seq::<(Seq<char>, u64)>::empty());
    assert(stores_view(stores@) =~= Seq::<(u64, u64, Seq<char>)>::empty());
    while i < records.len()
        invariant
            es == entries_view(records@),
            es.len() == records@.len(),
            i <= records@.len(),
            dbs_view(dbs@) == db_names(es.take(i as int)),
            stores_view(stores@) == store_names(es.take(i as int)),
        decreases records@.len() - i,
    {
        assert(es.take(i + 1).drop_last() =~= es.take(i as int));
        assert(es.take(i + 1).last() == es[i as int]);
        assert(es[i as int] == (records@[i as int].0@, records@[i as int].1@));
        let key = records[i].0.as_slice();
        let value = records[i].1.as_slice();
        match parse_database_name(key, value) {
            Some((name, id)) => {
                let ghost before = dbs_view(dbs@);
                dbs.push((chars_of(name.as_str()), id));
                assert(dbs_view(dbs@) =~= before.push((name@, id)));
            },
            None => {
                match parse_object_store_name(key, value) {
                    Some((db, store, name)) => {
                        let ghost before = stores_view(stores@);
                        stores.push((db, store, chars_of(name.as_str())));
                        assert(stores_view(stores@) =~= before.push((db, store, name@)));
                    },
                    None => {},
                }
            },
        }
        i += 1;
    }
    assert(es.take(records@.len() as int) =~= es);
    (dbs, stores)
}


/// The stores of the conversation and message records.
struct Cells {
    conv: Option<(u64, u64)>,
    msg: Vec<(u64, u64)>,
}

fn find_store(stores: &Vec<(u64, u64, Vec<char>)>, db: u64, name: &[char]) -> (r: Option<(u64, u64)>)
    ensures
        r == first_store(stores_view(stores@), db, name@, 0),
{
    let ghost sv = stores_view(stores@);
    let mut i: usize = 0;
    while i < stores.len()
        invariant
            sv == stores_view(stores@),
            sv.len() == stores@.len(),
            i <= stores@.len(),
            first_store(sv, db, name@, 0) == first_store(sv, db, name@, i as int),
        decreases stores@.len() - i,
    {
        assert(sv[i as int] == (stores@[i as int].0, stores@[i as int].1, stores@[i as int].2@));
        if stores[i].0 == db && chars_eq(stores[i].2.as_slice(), name) {
            return Some((stores[i].0, stores[i].1));
        }
        i += 1;
    }
    None
}

fn resolve_cells(dbs: &Vec<(Vec<char>, u64)>, stores: &Vec<(u64, u64, Vec<char>)>, Ghost(recs): Ghost<Seq<Entry>>) -> (c: Cells)
    requires
        dbs_view(dbs@) == db_names(recs),
        stores_view(stores@) == store_names(recs),
    ensures
        c.conv == conv_cell(recs),
        forall|d: u64, s: u64| #[trigger] c.msg@.contains((d, s)) == is_msg_cell(recs, d, s),
{
    let conv_db = find_db_by_manager(dbs, chars_of("conversation-manager").as_slice());
    let conv = match conv_db {
        Some(db) => find_store(stores, db, chars_of("conversations").as_slice()),
        None => None,
    };
    let mut msg: Vec<(u64, u64)> = Vec::new();
    let msg_db = find_db_by_manager(dbs, chars_of("replychain-manager").as_slice());
    match msg_db {
        Some(db) => {
            let n1 = chars_of("replychains");
            let n2 = chars_of("replychains-2");
            let ghost sv = stores_view(stores@);
            let mut i: usize = 0;
            while i < stores.len()
                invariant
                    sv == stores_view(stores@),
                    sv == store_names(recs),
                    sv.len() == stores@.len(),
                    n1@ == "replychains"@,
                    n2@ == "replychains-2"@,
                    i <= stores@.len(),
                    forall|d: u64, s: u64| #[trigger] msg@.contains((d, s)) == (d == db && exists|k: int| 0 <= k < i
                        && (#[trigger] sv[k]).0 == d && sv[k].1 == s && (sv[k].2 == "replychains"@ || sv[k].2 == "replychains-2"@)),
                decreases stores@.len() - i,
            {
                assert(sv[i as int] == (stores@[i as int].0, stores@[i as int].1, stores@[i as int].2@));
                if stores[i].0 == db && (chars_eq(stores[i].2.as_slice(), n1.as_slice()) || chars_eq(stores[i].2.as_slice(), n2.as_slice())) {
                    let ghost before = msg@;
                    msg.push((stores[i].0, stores[i].1));
                    proof {
                        assert forall|d: u64, s: u64| #[trigger] msg@.contains((d, s)) == (d == db && exists|k: int| 0 <= k < i + 1
                            && (#[trigger] sv[k]).0 == d && sv[k].1 == s && (sv[k].2 == "replychains"@ || sv[k].2 == "replychains-2"@)) by {
                            if msg@.contains((d, s)) && !before.contains((d, s)) {
                                assert(msg@.last() == (d, s)) by {
                                    let q = choose|q: int| 0 <= q < msg@.len() && msg@[q] == (d, s);
                                    if q < before.len() {
                                        assert(before[q] == msg@[q]);
                                    }
                                }
                            }
                            if before.contains((d, s)) {
                                let q = choose|q: int| 0 <= q < before.len() && before[q] == (d, s);
                                assert(msg@[q] == (d, s));
                            }
                            if !msg@.contains((d, s)) {
                                assert(msg@[before.len() as int] == msg@.last());
                            }
                        }
                    }
                } else {
                    proof {
                        assert forall|d: u64, s: u64| #[trigger] msg@.contains((d, s)) == (d == db && exists|k: int| 0 <= k < i + 1
                            && (#[trigger] sv[k]).0 == d && sv[k].1 == s && (sv[k].2 == "replychains"@ || sv[k].2 == "replychains-2"@)) by {
                            if exists|k: int| 0 <= k < i + 1 && (#[trigger] sv[k]).0 == d && sv[k].1 == s && (sv[k].2 == "replychains"@ || sv[k].2 == "replychains-2"@) {
                                let k = choose|k: int| 0 <= k < i + 1 && (#[trigger] sv[k]).0 == d && sv[k].1 == s && (sv[k].2 == "replychains"@ || sv[k].2 == "replychains-2"@);
                                if k == i {
                                    assert(stores@[i as int].2@ == sv[k].2);
                                }
                            }
                        }
                    }
                }
                i += 1;
            }
        },
        None => {},
    }
    Cells { conv, msg }
}

fn cell_in(cells: &Vec<(u64, u64)>, d: u64, s: u64) -> (r: bool)
    ensures
        r == cells@.contains((d, s)),
{
    let mut i: usize = 0;
    while i < cells.len()
        invariant
            i <= cells@.len(),
            forall|k: int| 0 <= k < i ==> cells@[k] != (d, s),
        decreases cells@.len() - i,
    {
        if cells[i].0 == d && cells[i].1 == s {
            assert(cells@[i as int] == (d, s));
            return true;
        }
        i += 1;
    }
    false
}


/// The messages of `s` that belong to conversation `cid`, in order.
pub open spec fn in_conv(s: Seq<MessageView>, cid: Seq<char>) -> Seq<MessageView>
    decreases s.len(),
{
    if s.len() == 0 {
        Seq::empty()
    } else {
        let prev = in_conv(s.drop_last(), cid);
        if s.last().conversation_id == cid {
            prev.push(s.last())
        } else {
            prev
        }
    }
}

proof fn lemma_in_conv_push(s: Seq<MessageView>, m: MessageView, cid: Seq<char>)
    ensures
        in_conv(s.push(m), cid) == if m.conversation_id == cid { in_conv(s, cid).push(m) } else { in_conv(s, cid) },
{
    assert(s.push(m).drop_last() =~= s);
}

proof fn lemma_in_conv_none(s: Seq<MessageView>, cid: Seq<char>)
    requires
        forall|i: int| 0 <= i < s.len() ==> s[i].conversation_id != cid,
    ensures
        in_conv(s, cid).len() == 0,
    decreases s.len(),
{
    if s.len() > 0 {
        lemma_in_conv_none(s.drop_last(), cid);
    }
}

/// The time keys of messages.
pub open spec fn time_keys(s: Seq<MessageView>) -> Seq<int> {
    s.map_values(|m: MessageView| m.time_ms as int)
}

/// The message lists of a list of conversations.
pub open spec fn groups_view(g: Seq<Vec<Message>>) -> Seq<Seq<MessageView>> {
    g.map_values(|v: Vec<Message>| msgs_view(v@))
}

/// Distinct strings.
pub open spec fn distinct(ids: Seq<Seq<char>>) -> bool {
    forall|i: int, j: int| 0 <= i < j < ids.len() ==> ids[i] != ids[j]
}

/// `groups[j]` holds the messages of `all` in conversation `ids[j]`, in
/// order; every message's conversation is listed.
pub open spec fn raw_grouped(all: Seq<MessageView>, ids: Seq<Seq<char>>, groups: Seq<Seq<MessageView>>) -> bool {
    &&& groups.len() == ids.len()
    &&& forall|j: int| 0 <= j < ids.len() ==> #[trigger] groups[j] == in_conv(all, ids[j]) && groups[j].len() > 0
    &&& forall|i: int| 0 <= i < all.len() ==> has_key(ids, #[trigger] all[i].conversation_id)
}

/// `group` holds the messages of `all` in conversation `cid` (at least one)
/// sorted by time, messages with equal times keeping their relative order.
pub open spec fn group_ok(all: Seq<MessageView>, cid: Seq<char>, group: Seq<MessageView>) -> bool {
    &&& in_conv(all, cid).len() > 0
    &&& stably_sorted(in_conv(all, cid), time_keys(in_conv(all, cid)), group)
}

/// The messages of `all` grouped by conversation: one group per distinct
/// conversation id, each holding that conversation's messages (at least one)
/// sorted by time, messages with equal times keeping their relative order.
pub open spec fn grouped(all: Seq<MessageView>, ids: Seq<Seq<char>>, groups: Seq<Seq<MessageView>>) -> bool {
    &&& distinct(ids)
    &&& groups.len() == ids.len()
    &&& forall|j: int| 0 <= j < ids.len() ==> #[trigger] group_ok(all, ids[j], groups[j])
    &&& forall|i: int| 0 <= i < all.len() ==> has_key(ids, #[trigger] all[i].conversation_id)
}

fn add_message(ids: &mut KeyList, groups: &mut Vec<Vec<Message>>, m: Message, Ghost(all): Ghost<Seq<MessageView>>)
    requires
        old(ids).wf(),
        raw_grouped(all, old(ids)@, groups_view(old(groups)@)),
    ensures
        final(ids).wf(),
        raw_grouped(all.push(m@), final(ids)@, groups_view(final(groups)@)),
{
    let cid = chars_of(m.conversation_id.as_str());
    let ghost mv = m@;
    let ghost g0 = groups_view(groups@);
    let ghost ids0 = ids@;
    proof { ids.lemma_distinct(); }
    match ids.find(cid.as_slice()) {
        Some(j) => {
            groups[j].push(m);
            proof {
                let all2 = all.push(mv);
                let g1 = groups_view(groups@);
                assert forall|k: int| 0 <= k < ids@.len() implies #[trigger] g1[k] == in_conv(all2, ids@[k]) && g1[k].len() > 0 by {
                    lemma_in_conv_push(all, mv, ids@[k]);
                    if k == j {
                        assert(g1[k] =~= g0[k].push(mv));
                    } else {
                        assert(ids@[k] != ids@[j as int]);
                        assert(g1[k] == g0[k]);
                    }
                }
                assert forall|i: int| 0 <= i < all2.len() implies has_key(ids@, #[trigger] all2[i].conversation_id) by {
                    if i == all.len() {
                        assert(ids@[j as int] == all2[i].conversation_id);
                    } else {
                        assert(all2[i] == all[i]);
                    }
                }
            }
        },
        None => {
            ids.push(cid);
            let mut g: Vec<Message> = Vec::new();
            g.push(m);
            groups.push(g);
            proof {
                let all2 = all.push(mv);
                let g1 = groups_view(groups@);
                assert forall|i: int| 0 <= i < all.len() implies all[i].conversation_id != mv.conversation_id by {
                    assert(has_key(ids0, all[i].conversation_id));
                }
                lemma_in_conv_none(all, mv.conversation_id);
                assert forall|k: int| 0 <= k < ids@.len() implies #[trigger] g1[k] == in_conv(all2, ids@[k]) && g1[k].len() > 0 by {
                    lemma_in_conv_push(all, mv, ids@[k]);
                    if k == ids0.len() {
                        assert(in_conv(all, mv.conversation_id) =~= Seq::<MessageView>::empty());
                        assert(g1[k] =~= seq![mv]);
                    } else {
                        assert(ids@[k] == ids0[k]);
                        assert(g1[k] == g0[k]);
                        assert(ids0[k] != mv.conversation_id);
                    }
                }
                assert forall|i: int| 0 <= i < all2.len() implies has_key(ids@, #[trigger] all2[i].conversation_id) by {
                    if i == all.len() {
                        assert(ids@[ids0.len() as int] == all2[i].conversation_id);
                    } else {
                        assert(all2[i] == all[i]);
                        assert(has_key(ids0, all[i].conversation_id));
                        let q = choose|q: int| 0 <= q < ids0.len() && ids0[q] == all[i].conversation_id;
                        assert(ids@[q] == ids0[q]);
                    }
                }
            }
        },
    }
}


/// The title last given to conversation `k` in `tps`.
pub open spec fn last_topic(tps: Seq<(Seq<char>, Seq<char>)>, k: Seq<char>) -> Option<Seq<char>>
    decreases tps.len(),
{
    if tps.len() == 0 {
        None
    } else if tps.last().0 == k {
        Some(tps.last().1)
    } else {
        last_topic(tps.drop_last(), k)
    }
}

/// `ids`/`titles` map each conversation of `tps` to the title it was last
/// given, and nothing else.
pub open spec fn topics_ok(tps: Seq<(Seq<char>, Seq<char>)>, ids: Seq<Seq<char>>, titles: Seq<Seq<char>>) -> bool {
    &&& titles.len() == ids.len()
    &&& forall|j: int| 0 <= j < ids.len() ==> last_topic(tps, #[trigger] ids[j]) == Some(titles[j])
    &&& forall|k: Seq<char>| #[trigger] last_topic(tps, k) is Some ==> has_key(ids, k)
}

/// The views of character vectors.
pub open spec fn strs_view(v: Seq<Vec<char>>) -> Seq<Seq<char>> {
    v.map_values(|x: Vec<char>| x@)
}

fn add_topic(ids: &mut KeyList, titles: &mut Vec<Vec<char>>, c: Vec<char>, t: Vec<char>, Ghost(tps): Ghost<Seq<(Seq<char>, Seq<char>)>>)
    requires
        old(ids).wf(),
        topics_ok(tps, old(ids)@, strs_view(old(titles)@)),
    ensures
        final(ids).wf(),
        topics_ok(tps.push((c@, t@)), final(ids)@, strs_view(final(titles)@)),
{
    let ghost ids0 = ids@;
    let ghost t0 = strs_view(titles@);
    let ghost tps2 = tps.push((c@, t@));
    let ghost cv = c@;
    let ghost tv = t@;
    assert(tps2.drop_last() =~= tps);
    proof { ids.lemma_distinct(); }
    match ids.find(c.as_slice()) {
        Some(j) => {
            titles.set(j, t);
            proof {
                let t1 = strs_view(titles@);
                assert forall|k: int| 0 <= k < ids@.len() implies last_topic(tps2, #[trigger] ids@[k]) == Some(t1[k]) by {
                    if k != j {
                        assert(ids@[k] != ids@[j as int]);
                        assert(t1[k] == t0[k]);
                    }
                }
                assert forall|k: Seq<char>| #[trigger] last_topic(tps2, k) is Some implies has_key(ids@, k) by {
                    if k == cv {
                        assert(ids@[j as int] == k);
                    } else {
                        assert(last_topic(tps, k) is Some);
                    }
                }
            }
        },
        None => {
            ids.push(c);
            titles.push(t);
            proof {
                let t1 = strs_view(titles@);
                assert forall|k: int| 0 <= k < ids@.len() implies last_topic(tps2, #[trigger] ids@[k]) == Some(t1[k]) by {
                    if k < ids0.len() {
                        assert(ids@[k] == ids0[k]);
                        assert(t1[k] == t0[k]);
                        assert(ids0[k] != cv);
                    } else {
                        assert(ids@[k] == cv);
                    }
                }
                assert forall|k: Seq<char>| #[trigger] last_topic(tps2, k) is Some implies has_key(ids@, k) by {
                    if k == cv {
                        assert(ids@[ids0.len() as int] == k);
                    } else {
                        assert(last_topic(tps, k) is Some);
                        let q = choose|q: int| 0 <= q < ids0.len() && ids0[q] == k;
                        assert(ids@[q] == ids0[q]);
                    }
                }
            }
        },
    }
}

/// The decoded conversations and messages of a database.
pub struct Cache {
    built_at_ms: u64,
    conv_ids: KeyList,
    groups: Vec<Vec<Message>>,
    topic_ids: KeyList,
    topics: Vec<Vec<char>>,
}

/// Plain view of a cache: conversation ids with their messages, and
/// conversation ids with their titles.
pub struct CacheView {
    pub built_at_ms: u64,
    pub convs: Seq<Seq<char>>,
    pub groups: Seq<Seq<MessageView>>,
    pub topic_ids: Seq<Seq<char>>,
    pub topics: Seq<Seq<char>>,
}

impl View for Cache {
    type V = CacheView;

    closed spec fn view(&self) -> CacheView {
        CacheView {
            built_at_ms: self.built_at_ms,
            convs: self.conv_ids@,
            groups: groups_view(self.groups@),
            topic_ids: self.topic_ids@,
            topics: strs_view(self.topics@),
        }
    }
}

/// What a cache built from the records `recs` holds: the messages of the
/// message stores grouped by conversation and sorted by time, and the last
/// title read for each conversation.
pub open spec fn cache_of(v: CacheView, recs: Seq<Entry>) -> bool {
    &&& grouped(record_msgs(recs, recs), v.convs, v.groups)
    &&& distinct(v.topic_ids)
    &&& topics_ok(record_topics(recs, recs), v.topic_ids, v.topics)
}

/// A well-formed cache view: distinct conversations, each with at least one
/// message, and distinct titled conversations.
pub open spec fn cache_wf(v: CacheView) -> bool {
    &&& distinct(v.convs)
    &&& v.groups.len() == v.convs.len()
    &&& forall|j: int| 0 <= j < v.groups.len() ==> (#[trigger] v.groups[j]).len() > 0
    &&& distinct(v.topic_ids)
    &&& v.topics.len() == v.topic_ids.len()
}

impl Cache {
    pub closed spec fn wf(&self) -> bool {
        &&& self.conv_ids.wf()
        &&& self.topic_ids.wf()
        &&& cache_wf(self@)
    }
}

fn time_list(g: &Vec<Message>) -> (r: Vec<i128>)
    ensures
        int_keys(r@) == time_keys(msgs_view(g@)),
{
    let mut r: Vec<i128> = Vec::new();
    let mut i: usize = 0;
    while i < g.len()
        invariant
            i <= g@.len(),
            r@.len() == i,
            forall|k: int| 0 <= k < i ==> #[trigger] r@[k] == g@[k].time_ms as i128,
        decreases g@.len() - i,
    {
        r.push(g[i].time_ms as i128);
        i += 1;
    }
    assert(int_keys(r@) =~= time_keys(msgs_view(g@)));
    r
}

fn permute_messages(g: &Vec<Message>, p: &Vec<usize>) -> (r: Vec<Message>)
    requires
        forall|i: int| 0 <= i < p@.len() ==> #[trigger] p@[i] < g@.len(),
    ensures
        msgs_view(r@) == permuted(msgs_view(g@), int_positions(p@)),
{
    let mut r: Vec<Message> = Vec::new();
    let mut i: usize = 0;
    while i < p.len()
        invariant
            i <= p@.len(),
            forall|k: int| 0 <= k < p@.len() ==> #[trigger] p@[k] < g@.len(),
            msgs_view(r@) == permuted(msgs_view(g@), int_positions(p@)).take(i as int),
        decreases p@.len() - i,
    {
        let ghost before = msgs_view(r@);
        let m = g[p[i]].duplicate();
        r.push(m);
        proof {
            let pm = permuted(msgs_view(g@), int_positions(p@));
            assert(int_positions(p@)[i as int] == p@[i as int] as int);
            assert(pm[i as int] == msgs_view(g@)[p@[i as int] as int]);
            assert(msgs_view(r@) =~= before.push(m@));
            assert(msgs_view(r@) =~= pm.take(i + 1));
        }
        i += 1;
    }
    assert(permuted(msgs_view(g@), int_positions(p@)).take(p@.len() as int) =~= permuted(msgs_view(g@), int_positions(p@)));
    r
}

/// Builds the cache from a database's records: resolves the conversation
/// and message stores by name, decodes their records, groups the messages by
/// conversation and sorts each conversation by time.
pub fn build_cache(records: &Vec<(Vec<u8>, Vec<u8>)>, built_at_ms: u64) -> (c: Cache)
    ensures
        c.wf(),
        c@.built_at_ms == built_at_ms,
        cache_of(c@, entries_view(records@)),
{
    let ghost es = entries_view(records@);
    let (dbs, stores) = read_catalog(records);
    let cells = resolve_cells(&dbs, &stores, Ghost(es));
    let mut ids = KeyList::new();
    let mut groups: Vec<Vec<Message>> = Vec::new();
    let mut tids = KeyList::new();
    let mut titles: Vec<Vec<char>> = Vec::new();
    let mut i: usize = 0;
    assert(es.take(0) =~= Seq::<Entry>::empty());
    assert(groups_view(groups@) =~= Seq::<Seq<MessageView>>::empty());
    assert(strs_view(titles@) =~= Seq::<Seq<char>>::empty());
    while i < records.len()
        invariant
            es == entries_view(records@),
            es.len() == records@.len(),
            i <= records@.len(),
            cells.conv == conv_cell(es),
            forall|d: u64, s: u64| #[trigger] cells.msg@.contains((d, s)) == is_msg_cell(es, d, s),
            ids.wf(),
            tids.wf(),
            raw_grouped(record_msgs(es.take(i as int), es), ids@, groups_view(groups@)),
            topics_ok(record_topics(es.take(i as int), es), tids@, strs_view(titles@)),
        decreases records@.len() - i,
    {
        let ghost pre = es.take(i as int);
        assert(es.take(i + 1).drop_last() =~= pre);
        assert(es.take(i + 1).last() == es[i as int]);
        assert(es[i as int] == (records@[i as int].0@, records@[i as int].1@));
        let key = records[i].0.as_slice();
        let value = records[i].1.as_slice();
        match KeyPrefix::parse(key) {
            Some(kp) => {
                if kp.is_object_store_data() {
                    let d = kp.database_id;
                    let s = kp.object_store_id;
                    if cell_in(&cells.msg, d, s) {
                        match V8Reader::decode(value) {
                            Some(v) => {
                                let ms = record_messages(&v);
                                let ghost base = record_msgs(pre, es);
                                let mut k: usize = 0;
                                assert(base + msgs_view(ms@).take(0) =~= base);
                                while k < ms.len()
                                    invariant
                                        k <= ms@.len(),
                                        ids.wf(),
                                        raw_grouped(base + msgs_view(ms@).take(k as int), ids@, groups_view(groups@)),
                                    decreases ms@.len() - k,
                                {
                                    let m = ms[k].duplicate();
                                    assert((base + msgs_view(ms@).take(k as int)).push(m@) =~= base + msgs_view(ms@).take(k + 1));
                                    add_message(&mut ids, &mut groups, m, Ghost(base + msgs_view(ms@).take(k as int)));
                                    k += 1;
                                }
                                assert(msgs_view(ms@).take(ms@.len() as int) =~= msgs_view(ms@));
                            },
                            None => {},
                        }
                    } else if cells.conv == Some((d, s)) {
                        match V8Reader::decode(value) {
                            Some(v) => match extract_topic(&v) {
                                Some((c, t)) => {
                                    add_topic(&mut tids, &mut titles, c, t, Ghost(record_topics(pre, es)));
                                },
                                None => {},
                            },
                            None => {},
                        }
                    }
                }
            },
            None => {},
        }
        i += 1;
    }
    assert(es.take(records@.len() as int) =~= es);
    let ghost all = record_msgs(es, es);
    let ghost raw = groups_view(groups@);
    let n = groups.len();
    let mut j: usize = 0;
    while j < n
        invariant
            n == groups@.len(),
            n == ids@.len(),
            j <= n,
            raw.len() == n,
            forall|k: int| 0 <= k < n ==> #[trigger] raw[k] == in_conv(all, ids@[k]) && raw[k].len() > 0,
            forall|k: int| 0 <= k < j ==> stably_sorted(raw[k], time_keys(raw[k]), #[trigger] groups_view(groups@)[k]),
            forall|k: int| j <= k < n ==> #[trigger] groups_view(groups@)[k] == raw[k],
            ids.wf(),
            tids.wf(),
            topics_ok(record_topics(es, es), tids@, strs_view(titles@)),
            forall|i: int| 0 <= i < all.len() ==> has_key(ids@, #[trigger] all[i].conversation_id),
        decreases n - j,
    {
        let times = time_list(&groups[j]);
        let p = stable_order_of(&times);
        proof {
            assert(groups_view(groups@)[j as int] == msgs_view(groups@[j as int]@));
            assert(int_keys(times@).len() == times@.len());
            assert forall|q: int| 0 <= q < p@.len() implies #[trigger] p@[q] < groups@[j as int]@.len() by {
                assert(int_positions(p@)[q] == p@[q] as int);
            }
        }
        let sorted = permute_messages(&groups[j], &p);
        let ghost before = groups_view(groups@);
        groups.set(j, sorted);
        proof {
            assert(groups_view(groups@) =~= before.update(j as int, msgs_view(sorted@)));
            assert(stable_order(time_keys(raw[j as int]), int_positions(p@)));
        }
        j += 1;
    }
    proof {
        ids.lemma_distinct();
        tids.lemma_distinct();
        let g = groups_view(groups@);
        assert forall|k: int| 0 <= k < n implies (#[trigger] g[k]).len() > 0 by {
            assert(stably_sorted(raw[k], time_keys(raw[k]), groups_view(groups@)[k]));
            let p = choose|p: Seq<int>| stable_order(time_keys(raw[k]), p) && g[k] == permuted(raw[k], p);
        }
        assert forall|j: int| 0 <= j < ids@.len() implies #[trigger] group_ok(all, ids@[j], g[j]) by {
            assert(raw[j] == in_conv(all, ids@[j]));
            assert(stably_sorted(raw[j], time_keys(raw[j]), groups_view(groups@)[j]));
        }
        assert(distinct(ids@));
        assert(g.len() == ids@.len());
        assert(forall|i: int| 0 <= i < all.len() ==> has_key(ids@, #[trigger] all[i].conversation_id));
        assert(grouped(all, ids@, g));
    }
    Cache { built_at_ms, conv_ids: ids, groups, topic_ids: tids, topics: titles }
}


/// The title recorded for conversation `cid`, else the id itself.
pub open spec fn title_for(v: CacheView, cid: Seq<char>) -> Seq<char> {
    if has_key(v.topic_ids, cid) {
        v.topics[choose|t: int| 0 <= t < v.topic_ids.len() && v.topic_ids[t] == cid]
    } else {
        cid
    }
}

/// The chat list entry of conversation `j`: its title, message count and
/// last (most recent) message.
pub open spec fn chat_at(v: CacheView, j: int) -> ChatView {
    let ms = v.groups[j];
    ChatView {
        conversation_id: v.convs[j],
        topic: title_for(v, v.convs[j]),
        message_count: ms.len(),
        last_message_time: ms.last().time,
        last_message: Some(ms.last()),
    }
}

/// The chat list entries of all conversations, in conversation order.
pub open spec fn chat_entries(v: CacheView) -> Seq<ChatView> {
    Seq::new(v.convs.len(), |j: int| chat_at(v, j))
}

/// Sort keys that put the most recently active conversation first.
pub open spec fn recency_keys(v: CacheView) -> Seq<int> {
    Seq::new(v.convs.len(), |j: int| -(v.groups[j].last().time_ms as int))
}

/// The views of chat list entries.
pub open spec fn chats_view(s: Seq<Chat>) -> Seq<ChatView> {
    s.map_values(|c: Chat| c@)
}

fn permute_chats(g: &Vec<Chat>, p: &Vec<usize>) -> (r: Vec<Chat>)
    requires
        forall|i: int| 0 <= i < p@.len() ==> #[trigger] p@[i] < g@.len(),
    ensures
        chats_view(r@) == permuted(chats_view(g@), int_positions(p@)),
{
    let mut r: Vec<Chat> = Vec::new();
    let mut i: usize = 0;
    while i < p.len()
        invariant
            i <= p@.len(),
            forall|k: int| 0 <= k < p@.len() ==> #[trigger] p@[k] < g@.len(),
            chats_view(r@) == permuted(chats_view(g@), int_positions(p@)).take(i as int),
        decreases p@.len() - i,
    {
        let ghost before = chats_view(r@);
        let c = g[p[i]].duplicate();
        r.push(c);
        proof {
            let pm = permuted(chats_view(g@), int_positions(p@));
            assert(int_positions(p@)[i as int] == p@[i as int] as int);
            assert(pm[i as int] == chats_view(g@)[p@[i as int] as int]);
            assert(chats_view(r@) =~= before.push(c@));
            assert(chats_view(r@) =~= pm.take(i + 1));
        }
        i += 1;
    }
    assert(permuted(chats_view(g@), int_positions(p@)).take(p@.len() as int) =~= permuted(chats_view(g@), int_positions(p@)));
    r
}

impl Cache {
    /// The title of conversation `cid` (its id when it has none).
    fn title_of(&self, cid: &Vec<char>) -> (r: String)
        requires
            self.wf(),
        ensures
            r@ == title_for(self@, cid@),
    {
        proof { self.topic_ids.lemma_distinct(); }
        match self.topic_ids.find(cid.as_slice()) {
            Some(t) => {
                proof {
                    let v = self@;
                    let c = choose|q: int| 0 <= q < v.topic_ids.len() && v.topic_ids[q] == cid@;
                    assert(c == t);
                    assert(v.topics[t as int] == self.topics@[t as int]@);
                }
                crate::text::string_from_chars(&self.topics[t])
            },
            None => crate::text::string_from_chars(cid),
        }
    }

    /// The chat list: one entry per conversation, the most recently active
    /// first (conversations with equal last times in conversation order).
    pub fn list_chats(&self) -> (r: Vec<Chat>)
        requires
            self.wf(),
        ensures
            stably_sorted(chat_entries(self@), recency_keys(self@), chats_view(r@)),
    {
        let ghost v = self@;
        let n = self.groups.len();
        let mut chats: Vec<Chat> = Vec::new();
        let mut keys: Vec<i128> = Vec::new();
        let mut j: usize = 0;
        while j < n
            invariant
                self.wf(),
                v == self@,
                n == v.convs.len(),
                j <= n,
                chats_view(chats@) == chat_entries(v).take(j as int),
                int_keys(keys@) == recency_keys(v).take(j as int),
            decreases n - j,
        {
            assert(v.groups[j as int] == msgs_view(self.groups@[j as int]@));
            assert(v.groups[j as int].len() > 0);
            let g = &self.groups[j];
            let last = g[g.len() - 1].duplicate();
            let cid = self.conv_ids.key(j);
            let t = last.time_ms;
            let time = last.time.clone();
            let c = Chat {
                conversation_id: crate::text::string_from_chars(cid),
                topic: self.title_of(cid),
                message_count: g.len(),
                last_message_time: time,
                last_message: Some(last),
            };
            let ghost before = chats_view(chats@);
            let ghost kb = int_keys(keys@);
            chats.push(c);
            keys.push(-(t as i128));
            proof {
                assert(c@ == chat_at(v, j as int));
                assert(chats_view(chats@) =~= before.push(c@));
                assert(chats_view(chats@) =~= chat_entries(v).take(j + 1));
                assert(int_keys(keys@) =~= kb.push(-(t as int)));
                assert(int_keys(keys@) =~= recency_keys(v).take(j + 1));
            }
            j += 1;
        }
        assert(chat_entries(v).take(n as int) =~= chat_entries(v));
        assert(recency_keys(v).take(n as int) =~= recency_keys(v));
        let p = stable_order_of(&keys);
        proof {
            assert forall|q: int| 0 <= q < p@.len() implies #[trigger] p@[q] < chats@.len() by {
                assert(int_positions(p@)[q] == p@[q] as int);
            }
        }
        let r = permute_chats(&chats, &p);
        r
    }
}


/// The position of conversation `cid` (meaningful when it is listed).
pub open spec fn conv_pos(v: CacheView, cid: Seq<char>) -> int {
    choose|j: int| 0 <= j < v.convs.len() && v.convs[j] == cid
}

/// The time of the last message of conversation `cid`.
pub open spec fn last_time_of(v: CacheView, cid: Seq<char>) -> int {
    v.groups[conv_pos(v, cid)].last().time_ms as int
}

/// Titled conversation `t` matches `needle` (a lowercased search text): its
/// lowercased title contains the needle and it has messages.
pub open spec fn is_candidate(v: CacheView, needle: Seq<char>, t: int) -> bool {
    &&& 0 <= t < v.topic_ids.len()
    &&& contains_seq(lowercase(v.topics[t]), needle)
    &&& has_key(v.convs, v.topic_ids[t])
}

/// `r` is the conversation (a position in `v.convs`) that `chat` names: the
/// conversation whose id is `chat`; else, among the titled conversations
/// whose title contains `chat` ignoring case, the most recently active one
/// (the first such in title order on a tie); `None` when there is none.
pub open spec fn resolves_to(v: CacheView, chat: Seq<char>, r: Option<int>) -> bool {
    if has_key(v.convs, chat) {
        r == Some(conv_pos(v, chat))
    } else {
        let needle = lowercase(chat);
        match r {
            None => forall|t: int| !(#[trigger] is_candidate(v, needle, t)),
            Some(j) => exists|t: int| {
                &&& #[trigger] is_candidate(v, needle, t)
                &&& j == conv_pos(v, v.topic_ids[t])
                &&& forall|t2: int| #[trigger] is_candidate(v, needle, t2) ==> {
                    ||| last_time_of(v, v.topic_ids[t2]) < last_time_of(v, v.topic_ids[t])
                    ||| (last_time_of(v, v.topic_ids[t2]) == last_time_of(v, v.topic_ids[t]) && t <= t2)
                }
            },
        }
    }
}

/// The most recently active candidate title among positions `t..`, given
/// the best one before `t`; a later candidate replaces the best only when
/// strictly more recent.
pub open spec fn best_from(v: CacheView, needle: Seq<char>, t: int, best: Option<int>) -> Option<int>
    decreases v.topic_ids.len() - t,
{
    if t < 0 || t >= v.topic_ids.len() {
        best
    } else {
        let better = is_candidate(v, needle, t) && match best {
            None => true,
            Some(b) => last_time_of(v, v.topic_ids[t]) > last_time_of(v, v.topic_ids[b]),
        };
        best_from(v, needle, t + 1, if better { Some(t) } else { best })
    }
}

/// The conversation that `chat` names (a position in `v.convs`): the one
/// whose id is `chat`, else the one of the best title match (see
/// `resolves_to` for what this is).
pub open spec fn resolution(v: CacheView, chat: Seq<char>) -> Option<int> {
    if has_key(v.convs, chat) {
        Some(conv_pos(v, chat))
    } else {
        match best_from(v, lowercase(chat), 0, None) {
            Some(t) => Some(conv_pos(v, v.topic_ids[t])),
            None => None,
        }
    }
}

/// A chat argument names at most one conversation: `resolves_to` has at
/// most one answer, so `resolution` is that answer whenever there is one.
pub proof fn lemma_resolves_unique(v: CacheView, chat: Seq<char>, r1: Option<int>, r2: Option<int>)
    requires
        resolves_to(v, chat, r1),
        resolves_to(v, chat, r2),
    ensures
        r1 == r2,
{
    if !has_key(v.convs, chat) {
        let needle = lowercase(chat);
        match (r1, r2) {
            (Some(j1), Some(j2)) => {
                let t1 = choose|t: int| {
                    &&& #[trigger] is_candidate(v, needle, t)
                    &&& j1 == conv_pos(v, v.topic_ids[t])
                    &&& forall|t2: int| #[trigger] is_candidate(v, needle, t2) ==> {
                        ||| last_time_of(v, v.topic_ids[t2]) < last_time_of(v, v.topic_ids[t])
                        ||| (last_time_of(v, v.topic_ids[t2]) == last_time_of(v, v.topic_ids[t]) && t <= t2)
                    }
                };
                let t2 = choose|t: int| {
                    &&& #[trigger] is_candidate(v, needle, t)
                    &&& j2 == conv_pos(v, v.topic_ids[t])
                    &&& forall|t3: int| #[trigger] is_candidate(v, needle, t3) ==> {
                        ||| last_time_of(v, v.topic_ids[t3]) < last_time_of(v, v.topic_ids[t])
                        ||| (last_time_of(v, v.topic_ids[t3]) == last_time_of(v, v.topic_ids[t]) && t <= t3)
                    }
                };
                assert(t1 == t2);
            },
            (Some(j1), None) => {
                let t1 = choose|t: int| #[trigger] is_candidate(v, needle, t) && j1 == conv_pos(v, v.topic_ids[t]);
                assert(!is_candidate(v, needle, t1));
            },
            (None, Some(j2)) => {
                let t2 = choose|t: int| #[trigger] is_candidate(v, needle, t) && j2 == conv_pos(v, v.topic_ids[t]);
                assert(!is_candidate(v, needle, t2));
            },
            (None, None) => {},
        }
    }
}

/// Messages earlier than `before` (all of them when it is `None`), in order.
pub open spec fn earlier_than(s: Seq<MessageView>, before: Option<i64>) -> Seq<MessageView>
    decreases s.len(),
{
    if s.len() == 0 {
        s
    } else {
        let prev = earlier_than(s.drop_last(), before);
        match before {
            Some(b) => if s.last().time_ms < b { prev.push(s.last()) } else { prev },
            None => prev.push(s.last()),
        }
    }
}

/// The last `n` elements of `s` (all of them when there are fewer).
pub open spec fn last_n<T>(s: Seq<T>, n: nat) -> Seq<T> {
    if s.len() <= n {
        s
    } else {
        s.skip(s.len() - n)
    }
}

/// What reading conversation `r` returns.
pub open spec fn read_result(v: CacheView, r: Option<int>, limit: nat, before: Option<i64>) -> Seq<MessageView> {
    match r {
        None => Seq::empty(),
        Some(j) => last_n(earlier_than(v.groups[j], before), limit),
    }
}

/// Every message of every conversation, conversation by conversation.
pub open spec fn flat(g: Seq<Seq<MessageView>>) -> Seq<MessageView>
    decreases g.len(),
{
    if g.len() == 0 {
        Seq::empty()
    } else {
        flat(g.drop_last()) + g.last()
    }
}

/// A message matches a lowercased query when its lowercased text or sender
/// contains it.
pub open spec fn matches_query(m: MessageView, needle: Seq<char>) -> bool {
    contains_seq(lowercase(m.content), needle) || contains_seq(lowercase(m.sender), needle)
}

/// `out` is what a search for `query` returns from `v` with `limit`: the
/// last `limit` of the matching messages sorted by time (messages with
/// equal times in conversation order).
pub open spec fn search_result(v: CacheView, query: Seq<char>, limit: nat, out: Seq<MessageView>) -> bool {
    let hits = query_hits(flat(v.groups), lowercase(query));
    exists|sorted: Seq<MessageView>| stably_sorted(hits, time_keys(hits), sorted) && out == #[trigger] last_n(sorted, limit)
}

/// The messages of `s` that match `needle`, in order.
pub open spec fn query_hits(s: Seq<MessageView>, needle: Seq<char>) -> Seq<MessageView>
    decreases s.len(),
{
    if s.len() == 0 {
        s
    } else {
        let prev = query_hits(s.drop_last(), needle);
        if matches_query(s.last(), needle) {
            prev.push(s.last())
        } else {
            prev
        }
    }
}

fn last_messages(s: &Vec<Message>, limit: usize) -> (r: Vec<Message>)
    ensures
        msgs_view(r@) == last_n(msgs_view(s@), limit as nat),
{
    let start = if s.len() <= limit { 0 } else { s.len() - limit };
    let mut r: Vec<Message> = Vec::new();
    let mut i: usize = start;
    let ghost sv = msgs_view(s@);
    while i < s.len()
        invariant
            sv == msgs_view(s@),
            start <= i <= s@.len(),
            msgs_view(r@) == sv.subrange(start as int, i as int),
        decreases s@.len() - i,
    {
        let m = s[i].duplicate();
        let ghost before = msgs_view(r@);
        r.push(m);
        assert(msgs_view(r@) =~= before.push(m@));
        assert(sv[i as int] == m@);
        assert(msgs_view(r@) =~= sv.subrange(start as int, i + 1));
        i += 1;
    }
    assert(last_n(sv, limit as nat) =~= sv.subrange(start as int, s@.len() as int));
    r
}

impl Cache {
    fn last_time(&self, j: usize) -> (t: i64)
        requires
            self.wf(),
            j < self@.convs.len(),
        ensures
            t == self@.groups[j as int].last().time_ms,
    {
        assert(self@.groups[j as int] == msgs_view(self.groups@[j as int]@));
        self.groups[j][self.groups[j].len() - 1].time_ms
    }

    /// The conversation that `chat` names (see `resolves_to`).
    pub fn resolve_conversation(&self, chat: &str) -> (r: Option<usize>)
        requires
            self.wf(),
        ensures
            resolution(self@, chat@) == match r { Some(j) => Some(j as int), None => None },
            r matches Some(j) ==> j < self@.convs.len(),
    {
        let ghost v = self@;
        proof { self.conv_ids.lemma_distinct(); self.topic_ids.lemma_distinct(); }
        let c = chars_of(chat);
        match self.conv_ids.find(c.as_slice()) {
            Some(j) => {
                proof {
                    let q = conv_pos(v, chat@);
                    assert(v.convs[j as int] == chat@);
                    assert(has_key(v.convs, chat@));
                    assert(q == j);
                }
                return Some(j);
            },
            None => {},
        }
        let needle_s = to_lowercase(chat);
        let needle = chars_of(needle_s.as_str());
        let ghost nd = lowercase(chat@);
        let mut best: Option<(usize, usize, i64)> = None;
        let mut t: usize = 0;
        let nt = self.topics.len();
        while t < nt
            invariant
                self.wf(),
                v == self@,
                !has_key(v.convs, chat@),
                nt == v.topic_ids.len(),
                needle@ == nd,
                nd == lowercase(chat@),
                t <= nt,
                best_from(v, nd, 0, None) == best_from(v, nd, t as int, match best { Some((bt, _, _)) => Some(bt as int), None => None }),
                match best {
                    None => true,
                    Some((bt, bj, bl)) => {
                        &&& bt < t
                        &&& is_candidate(v, nd, bt as int)
                        &&& bj < v.convs.len()
                        &&& bj == conv_pos(v, v.topic_ids[bt as int])
                        &&& bl == last_time_of(v, v.topic_ids[bt as int])
                    },
                },
            decreases nt - t,
        {
            let title = string_from_chars(&self.topics[t]);
            let lt = to_lowercase(title.as_str());
            let lc = chars_of(lt.as_str());
            assert(v.topics[t as int] == self.topics@[t as int]@);
            let cid = self.topic_ids.key(t);
            if contains_chars(lc.as_slice(), needle.as_slice()) {
                match self.conv_ids.find(cid.as_slice()) {
                    Some(j) => {
                        let lj = self.last_time(j);
                        proof {
                            assert(v.convs[j as int] == v.topic_ids[t as int]);
                            assert(has_key(v.convs, v.topic_ids[t as int]));
                            assert(is_candidate(v, nd, t as int));
                            let q = conv_pos(v, v.topic_ids[t as int]);
                            assert(q == j);
                        }
                        let better = match best {
                            None => true,
                            Some((_, _, bl)) => lj > bl,
                        };
                        if better {
                            best = Some((t, j, lj));
                        }
                    },
                    None => {
                        assert(!is_candidate(v, nd, t as int));
                    },
                }
            } else {
                assert(!is_candidate(v, nd, t as int));
            }
            t += 1;
        }
        match best {
            None => None,
            Some((bt, bj, bl)) => Some(bj),
        }
    }

    /// The last `limit` messages of the conversation that `chat` names,
    /// earlier than `before_ms` when given, in time order.
    pub fn read_messages(&self, chat: &str, limit: usize, before_ms: Option<i64>) -> (r: Vec<Message>)
        requires
            self.wf(),
        ensures
            msgs_view(r@) == read_result(self@, resolution(self@, chat@), limit as nat, before_ms),
    {
        let ghost v = self@;
        let res = self.resolve_conversation(chat);
        let ghost c = match res { Some(j) => Some(j as int), None => None };
        let j = match res {
            Some(j) => j,
            None => {
                let e: Vec<Message> = Vec::new();
                assert(msgs_view(e@) =~= read_result(v, c, limit as nat, before_ms));
                return e;
            },
        };
        let g = &self.groups[j];
        let ghost gv = msgs_view(g@);
        assert(gv == v.groups[j as int]);
        let mut kept: Vec<Message> = Vec::new();
        let mut i: usize = 0;
        assert(gv.take(0) =~= Seq::<MessageView>::empty());
        assert(msgs_view(kept@) =~= Seq::<MessageView>::empty());
        while i < g.len()
            invariant
                gv == msgs_view(g@),
                i <= g@.len(),
                msgs_view(kept@) == earlier_than(gv.take(i as int), before_ms),
            decreases g@.len() - i,
        {
            assert(gv.take(i + 1).drop_last() =~= gv.take(i as int));
            assert(gv.take(i + 1).last() == g@[i as int]@);
            let keep = match before_ms {
                Some(b) => g[i].time_ms < b,
                None => true,
            };
            if keep {
                let ghost before = msgs_view(kept@);
                let m = g[i].duplicate();
                kept.push(m);
                assert(msgs_view(kept@) =~= before.push(m@));
            }
            i += 1;
        }
        assert(gv.take(g@.len() as int) =~= gv);
        last_messages(&kept, limit)
    }

    /// The last `limit` messages, over all conversations, whose text or
    /// sender contains `query` ignoring case, in time order (messages with
    /// equal times in conversation order).
    pub fn search(&self, query: &str, limit: usize) -> (r: Vec<Message>)
        requires
            self.wf(),
        ensures
            search_result(self@, query@, limit as nat, msgs_view(r@)),
    {
        let ghost v = self@;
        let q = to_lowercase(query);
        let needle = chars_of(q.as_str());
        let ghost nd = lowercase(query@);
        let mut hits: Vec<Message> = Vec::new();
        let n = self.groups.len();
        let mut j: usize = 0;
        assert(v.groups.take(0) =~= Seq::<Seq<MessageView>>::empty());
        assert(msgs_view(hits@) =~= Seq::<MessageView>::empty());
        while j < n
            invariant
                self.wf(),
                v == self@,
                n == v.groups.len(),
                needle@ == nd,
                j <= n,
                msgs_view(hits@) == query_hits(flat(v.groups.take(j as int)), nd),
            decreases n - j,
        {
            let g = &self.groups[j];
            let ghost gv = msgs_view(g@);
            let ghost base = flat(v.groups.take(j as int));
            assert(gv == v.groups[j as int]);
            assert(v.groups.take(j + 1).drop_last() =~= v.groups.take(j as int));
            assert(flat(v.groups.take(j + 1)) == base + gv);
            let mut i: usize = 0;
            assert(base + gv.take(0) =~= base);
            while i < g.len()
                invariant
                    gv == msgs_view(g@),
                    needle@ == nd,
                    i <= g@.len(),
                    msgs_view(hits@) == query_hits(base + gv.take(i as int), nd),
                decreases g@.len() - i,
            {
                assert((base + gv.take(i + 1)).drop_last() =~= base + gv.take(i as int));
                assert((base + gv.take(i + 1)).last() == g@[i as int]@);
                let content = to_lowercase(g[i].content.as_str());
                let sender = to_lowercase(g[i].sender.as_str());
                let hit = contains_chars(chars_of(content.as_str()).as_slice(), needle.as_slice())
                    || contains_chars(chars_of(sender.as_str()).as_slice(), needle.as_slice());
                if hit {
                    let ghost before = msgs_view(hits@);
                    let m = g[i].duplicate();
                    hits.push(m);
                    assert(msgs_view(hits@) =~= before.push(m@));
                }
                i += 1;
            }
            assert(base + gv.take(g@.len() as int) =~= base + gv);
            j += 1;
        }
        assert(v.groups.take(n as int) =~= v.groups);
        let ghost hv = msgs_view(hits@);
        let times = time_list(&hits);
        let p = stable_order_of(&times);
        proof {
            assert forall|k: int| 0 <= k < p@.len() implies #[trigger] p@[k] < hits@.len() by {
                assert(int_positions(p@)[k] == p@[k] as int);
            }
        }
        let sorted = permute_messages(&hits, &p);
        proof {
            assert(stable_order(time_keys(hv), int_positions(p@)));
            assert(stably_sorted(hv, time_keys(hv), msgs_view(sorted@)));
        }
        let r = last_messages(&sorted, limit);
        proof {
            assert(msgs_view(r@) == last_n(msgs_view(sorted@), limit as nat));
        }
        r
    }
}


/// Why a store cannot be opened or read.
#[derive(Debug)]
pub enum StoreError {
    /// No database path was given and none could be found.
    NoDbPath,
    /// The database directory does not exist.
    DbMissing(String),
    /// Reading the database failed (the message of the I/O error).
    Io(String),
}

/// The text of a store error.
pub open spec fn store_error_text(e: StoreError) -> Seq<char> {
    match e {
        StoreError::NoDbPath => "Teams IndexedDB 경로를 찾을 수 없음 (TEAMS_MCP_DB 로 지정 가능)"@,
        StoreError::DbMissing(p) => "DB 디렉토리 없음: "@ + p@,
        StoreError::Io(m) => m@,
    }
}

impl StoreError {
    /// The error's message.
    pub fn message(&self) -> (r: String)
        ensures
            r@ == store_error_text(*self),
    {
        match self {
            StoreError::NoDbPath => "Teams IndexedDB 경로를 찾을 수 없음 (TEAMS_MCP_DB 로 지정 가능)".to_string(),
            StoreError::DbMissing(p) => {
                let mut v = chars_of("DB 디렉토리 없음: ");
                let mut q = chars_of(p.as_str());
                v.append(&mut q);
                string_from_chars(&v)
            },
            StoreError::Io(m) => m.clone(),
        }
    }
}

/// How long a cache is used before the database is read again (15 s).
pub const CACHE_TTL_MS: u64 = 15000;

/// The query API over one Teams database: a database path and the cache of
/// its decoded records, rebuilt when older than the time-to-live.
pub struct TeamsStore {
    db_path: String,
    ttl_ms: u64,
    cache: Option<Cache>,
}

/// Plain view of a store.
pub struct TeamsStoreView {
    pub db_path: Seq<char>,
    pub ttl_ms: u64,
    pub cache: Option<CacheView>,
}

impl View for TeamsStore {
    type V = TeamsStoreView;

    closed spec fn view(&self) -> TeamsStoreView {
        TeamsStoreView {
            db_path: self.db_path@,
            ttl_ms: self.ttl_ms,
            cache: match self.cache {
                Some(c) => Some(c@),
                None => None,
            },
        }
    }
}

impl TeamsStore {
    pub closed spec fn wf(&self) -> bool {
        self.cache matches Some(c) ==> c.wf()
    }

    /// Opens the database at `db_path` (the path given, else the default one
    /// found for this machine); `exists` tells whether that directory exists.
    /// No records are read until the first refresh.
    pub fn open(db_path: Option<String>, exists: bool) -> (r: Result<TeamsStore, StoreError>)
        ensures
            match db_path {
                None => r matches Err(StoreError::NoDbPath),
                Some(p) => if exists {
                    r matches Ok(s) && s.wf() && s@.db_path == p@ && s@.ttl_ms == CACHE_TTL_MS && s@.cache is None
                } else {
                    r matches Err(StoreError::DbMissing(q)) && q@ == p@
                },
            },
    {
        let p = match db_path {
            Some(p) => p,
            None => return Err(StoreError::NoDbPath),
        };
        if !exists {
            return Err(StoreError::DbMissing(p));
        }
        Ok(TeamsStore { db_path: p, ttl_ms: CACHE_TTL_MS, cache: None })
    }

    /// The database directory.
    pub fn db_path(&self) -> (r: &str)
        ensures
            r@ == self@.db_path,
    {
        self.db_path.as_str()
    }

    /// Whether the records must be read (again) at time `now_ms`: there is
    /// no cache, or it is older than the time-to-live.
    pub fn is_stale(&self, now_ms: u64) -> (r: bool)
        ensures
            r == match self@.cache {
                None => true,
                Some(c) => now_ms as int - c.built_at_ms as int > self@.ttl_ms as int,
            },
    {
        match &self.cache {
            None => true,
            Some(c) => now_ms > c.built_at_ms && now_ms - c.built_at_ms > self.ttl_ms,
        }
    }

    /// Rebuilds the cache at time `now_ms` from the database files: its
    /// tables (`.ldb`) and then its logs (`.log`), each in file name order;
    /// the cache holds the records as merged (later writes win).
    pub fn refresh(&mut self, tables: &Vec<Vec<u8>>, logs: &Vec<Vec<u8>>, now_ms: u64)
        requires
            old(self).wf(),
        ensures
            final(self).wf(),
            final(self)@.db_path == old(self)@.db_path,
            final(self)@.ttl_ms == old(self)@.ttl_ms,
            final(self)@.cache matches Some(c) && c.built_at_ms == now_ms
                && cache_of(c, merged(all_puts(files_view(tables@), files_view(logs@)))),
    {
        let records = merge_records(tables, logs);
        let c = build_cache(&records, now_ms);
        self.cache = Some(c);
    }

    /// The chat list (empty before the first refresh); see
    /// `Cache::list_chats`.
    pub fn list_chats(&self) -> (r: Vec<Chat>)
        requires
            self.wf(),
        ensures
            match self@.cache {
                None => r@.len() == 0,
                Some(c) => stably_sorted(chat_entries(c), recency_keys(c), chats_view(r@)),
            },
    {
        match &self.cache {
            None => Vec::new(),
            Some(c) => c.list_chats(),
        }
    }

    /// The last `limit` messages of the conversation that `chat` names,
    /// earlier than `before_ms` when given (empty before the first refresh);
    /// see `Cache::read_messages`.
    pub fn read_messages(&self, chat: &str, limit: usize, before_ms: Option<i64>) -> (r: Vec<Message>)
        requires
            self.wf(),
        ensures
            match self@.cache {
                None => r@.len() == 0,
                Some(v) => msgs_view(r@) == read_result(v, resolution(v, chat@), limit as nat, before_ms),
            },
    {
        match &self.cache {
            None => Vec::new(),
            Some(c) => c.read_messages(chat, limit, before_ms),
        }
    }

    /// The last `limit` messages matching `query` (empty before the first
    /// refresh); see `Cache::search`.
    pub fn search(&self, query: &str, limit: usize) -> (r: Vec<Message>)
        requires
            self.wf(),
        ensures
            match self@.cache {
                None => r@.len() == 0,
                Some(v) => search_result(v, query@, limit as nat, msgs_view(r@)),
            },
    {
        match &self.cache {
            None => Vec::new(),
            Some(c) => c.search(query, limit),
        }
    }

    /// The results of `search`, newest first (as the search tool lists them).
    pub fn search_newest_first(&self, query: &str, limit: usize) -> (r: Vec<Message>)
        requires
            self.wf(),
        ensures
            match self@.cache {
                None => r@.len() == 0,
                Some(v) => search_result(v, query@, limit as nat, msgs_view(r@).reverse()),
            },
            forall|i: int, j: int| 0 <= i < j < r@.len() ==> (#[trigger] r@[i])@.time_ms >= (#[trigger] r@[j])@.time_ms,
    {
        let mut hits = self.search(query, limit);
        let ghost h = msgs_view(hits@);
        let mut out: Vec<Message> = Vec::new();
        while hits.len() > 0
            invariant
                hits@.len() + out@.len() == h.len(),
                forall|i: int| 0 <= i < hits@.len() ==> (#[trigger] hits@[i])@ == h[i],
                forall|i: int| 0 <= i < out@.len() ==> (#[trigger] out@[i])@ == h[h.len() - 1 - i],
            decreases hits@.len(),
        {
            let m = hits.pop().unwrap();
            out.push(m);
        }
        proof {
            let o = msgs_view(out@);
            assert(o.reverse() =~= h);
            match self@.cache {
                None => {},
                Some(v) => {
                    lemma_search_result(v, query@, limit as nat, h);
                    assert forall|i: int, j: int| 0 <= i < j < out@.len() implies (#[trigger] out@[i])@.time_ms >= (#[trigger] out@[j])@.time_ms by {
                        assert(h[h.len() - 1 - j].time_ms <= h[h.len() - 1 - i].time_ms);
                    }
                },
            }
        }
        out
    }
}


/// Messages sorted by time (non-decreasing).
pub open spec fn time_sorted(s: Seq<MessageView>) -> bool {
    forall|i: int, j: int| 0 <= i < j < s.len() ==> (#[trigger] s[i]).time_ms <= (#[trigger] s[j]).time_ms
}

/// Every element of `t` is an element of `s`.
pub open spec fn drawn_from<T>(t: Seq<T>, s: Seq<T>) -> bool {
    forall|i: int| 0 <= i < t.len() ==> s.contains(#[trigger] t[i])
}

proof fn lemma_in_conv_members(s: Seq<MessageView>, cid: Seq<char>)
    ensures
        forall|k: int| 0 <= k < in_conv(s, cid).len() ==> (#[trigger] in_conv(s, cid)[k]).conversation_id == cid,
        drawn_from(in_conv(s, cid), s),
    decreases s.len(),
{
    if s.len() > 0 {
        let prev = s.drop_last();
        lemma_in_conv_members(prev, cid);
        assert forall|k: int| 0 <= k < in_conv(s, cid).len() implies s.contains(#[trigger] in_conv(s, cid)[k]) by {
            if k < in_conv(prev, cid).len() {
                assert(in_conv(s, cid)[k] == in_conv(prev, cid)[k]);
                let q = choose|q: int| 0 <= q < prev.len() && prev[q] == in_conv(prev, cid)[k];
                assert(s[q] == prev[q]);
            } else {
                assert(s[s.len() - 1] == s.last());
            }
        }
    }
}

/// A stable sort by time is sorted by time and has the elements it was
/// given (as many, each drawn from them).
pub proof fn lemma_stable_time_sort(s: Seq<MessageView>, out: Seq<MessageView>)
    requires
        stably_sorted(s, time_keys(s), out),
    ensures
        out.len() == s.len(),
        time_sorted(out),
        drawn_from(out, s),
{
    let p = choose|p: Seq<int>| stable_order(time_keys(s), p) && out == permuted(s, p);
    assert forall|i: int, j: int| 0 <= i < j < out.len() implies (#[trigger] out[i]).time_ms <= (#[trigger] out[j]).time_ms by {
        assert(key_before_at(time_keys(s), p, i, j));
    }
    assert forall|i: int| 0 <= i < out.len() implies s.contains(#[trigger] out[i]) by {
        assert(out[i] == s[p[i]]);
    }
}

spec fn key_before_at(keys: Seq<int>, p: Seq<int>, i: int, j: int) -> bool {
    crate::order::key_before(keys, p[i], p[j])
}

/// Law: in a cache built from a database's records, every conversation's
/// messages belong to that conversation and are sorted by time, and each
/// conversation has at least one message.
pub proof fn lemma_cache_groups(v: CacheView, recs: Seq<Entry>)
    requires
        cache_of(v, recs),
    ensures
        forall|j: int| 0 <= j < v.groups.len() ==> {
            &&& (#[trigger] v.groups[j]).len() > 0
            &&& time_sorted(v.groups[j])
            &&& forall|k: int| 0 <= k < v.groups[j].len() ==> (#[trigger] v.groups[j][k]).conversation_id == v.convs[j]
        },
{
    let all = record_msgs(recs, recs);
    assert forall|j: int| 0 <= j < v.groups.len() implies {
        &&& (#[trigger] v.groups[j]).len() > 0
        &&& time_sorted(v.groups[j])
        &&& forall|k: int| 0 <= k < v.groups[j].len() ==> (#[trigger] v.groups[j][k]).conversation_id == v.convs[j]
    } by {
        assert(group_ok(all, v.convs[j], v.groups[j]));
        let raw = in_conv(all, v.convs[j]);
        lemma_stable_time_sort(raw, v.groups[j]);
        lemma_in_conv_members(all, v.convs[j]);
        assert forall|k: int| 0 <= k < v.groups[j].len() implies (#[trigger] v.groups[j][k]).conversation_id == v.convs[j] by {
            assert(raw.contains(v.groups[j][k]));
            let q = choose|q: int| 0 <= q < raw.len() && raw[q] == v.groups[j][k];
        }
    }
}

proof fn lemma_earlier_than(s: Seq<MessageView>, before: Option<i64>)
    ensures
        drawn_from(earlier_than(s, before), s),
        forall|k: int| 0 <= k < earlier_than(s, before).len() ==> match before {
            Some(b) => (#[trigger] earlier_than(s, before)[k]).time_ms < b,
            None => true,
        },
        time_sorted(s) ==> time_sorted(earlier_than(s, before)),
    decreases s.len(),
{
    if s.len() > 0 {
        let prev = s.drop_last();
        lemma_earlier_than(prev, before);
        let e = earlier_than(s, before);
        let ep = earlier_than(prev, before);
        assert forall|k: int| 0 <= k < e.len() implies s.contains(#[trigger] e[k]) by {
            if k < ep.len() {
                assert(e[k] == ep[k]);
                let q = choose|q: int| 0 <= q < prev.len() && prev[q] == ep[k];
                assert(s[q] == prev[q]);
            } else {
                assert(s[s.len() - 1] == s.last());
            }
        }
        if time_sorted(s) {
            assert(time_sorted(prev)) by {
                assert forall|i: int, j: int| 0 <= i < j < prev.len() implies (#[trigger] prev[i]).time_ms <= (#[trigger] prev[j]).time_ms by {
                    assert(prev[i] == s[i] && prev[j] == s[j]);
                }
            }
            assert forall|i: int, j: int| 0 <= i < j < e.len() implies (#[trigger] e[i]).time_ms <= (#[trigger] e[j]).time_ms by {
                if j < ep.len() {
                    assert(e[i] == ep[i] && e[j] == ep[j]);
                } else {
                    assert(e[i] == ep[i]);
                    let q = choose|q: int| 0 <= q < prev.len() && prev[q] == ep[i];
                    assert(s[q] == prev[q]);
                    assert(s[q].time_ms <= s[s.len() - 1].time_ms);
                }
            }
        }
    }
}

proof fn lemma_last_n(s: Seq<MessageView>, n: nat)
    ensures
        last_n(s, n).len() <= n,
        last_n(s, n).len() <= s.len(),
        drawn_from(last_n(s, n), s),
        time_sorted(s) ==> time_sorted(last_n(s, n)),
{
    let t = last_n(s, n);
    if s.len() > n {
        let off = s.len() - n;
        assert forall|k: int| 0 <= k < t.len() implies s.contains(#[trigger] t[k]) by {
            assert(t[k] == s[off + k]);
        }
        if time_sorted(s) {
            assert forall|i: int, j: int| 0 <= i < j < t.len() implies (#[trigger] t[i]).time_ms <= (#[trigger] t[j]).time_ms by {
                assert(t[i] == s[off + i] && t[j] == s[off + j]);
            }
        }
    } else {
        assert forall|k: int| 0 <= k < t.len() implies s.contains(#[trigger] t[k]) by {
            assert(t[k] == s[k]);
        }
    }
}

proof fn lemma_best_from(v: CacheView, needle: Seq<char>, t: int, best: Option<int>)
    requires
        best matches Some(b) ==> is_candidate(v, needle, b),
    ensures
        best_from(v, needle, t, best) matches Some(b) ==> is_candidate(v, needle, b),
    decreases v.topic_ids.len() - t,
{
    if 0 <= t < v.topic_ids.len() {
        let better = is_candidate(v, needle, t) && match best {
            None => true,
            Some(b) => last_time_of(v, v.topic_ids[t]) > last_time_of(v, v.topic_ids[b]),
        };
        lemma_best_from(v, needle, t + 1, if better { Some(t) } else { best });
    }
}

/// The conversation that `chat` resolves to is one of the cache's.
pub proof fn lemma_resolution_in_range(v: CacheView, chat: Seq<char>)
    ensures
        resolution(v, chat) matches Some(j) ==> 0 <= j < v.convs.len(),
{
    if !has_key(v.convs, chat) {
        lemma_best_from(v, lowercase(chat), 0, None);
    }
}

proof fn lemma_read_group(g: Seq<MessageView>, cid: Seq<char>, limit: nat, before: Option<i64>)
    requires
        time_sorted(g),
        forall|k: int| 0 <= k < g.len() ==> (#[trigger] g[k]).conversation_id == cid,
    ensures
        ({
            let out = last_n(earlier_than(g, before), limit);
            &&& out.len() <= limit
            &&& time_sorted(out)
            &&& forall|k: int| 0 <= k < out.len() ==> (#[trigger] out[k]).conversation_id == cid
                && match before { Some(b) => out[k].time_ms < b, None => true }
        }),
{
    let e = earlier_than(g, before);
    let out = last_n(e, limit);
    lemma_earlier_than(g, before);
    lemma_last_n(e, limit);
    assert forall|k: int| 0 <= k < out.len() implies (#[trigger] out[k]).conversation_id == cid
        && match before { Some(b) => out[k].time_ms < b, None => true } by {
        assert(e.contains(out[k]));
        let q = choose|q: int| 0 <= q < e.len() && e[q] == out[k];
        assert(g.contains(e[q]));
    }
}

/// Law: reading a conversation of a cache built from a database's records
/// gives at most `limit` messages of that conversation, each earlier than
/// `before` when given, in time order.
pub proof fn lemma_read_result(v: CacheView, recs: Seq<Entry>, chat: Seq<char>, limit: nat, before: Option<i64>)
    requires
        cache_of(v, recs),
    ensures
        ({
            let out = read_result(v, resolution(v, chat), limit, before);
            &&& out.len() <= limit
            &&& time_sorted(out)
            &&& forall|k: int| 0 <= k < out.len() ==> match before {
                Some(b) => (#[trigger] out[k]).time_ms < b,
                None => true,
            }
            &&& resolution(v, chat) matches Some(j) ==> forall|k: int| 0 <= k < out.len()
                ==> (#[trigger] out[k]).conversation_id == v.convs[j]
        }),
{
    lemma_resolution_in_range(v, chat);
    match resolution(v, chat) {
        None => {},
        Some(j) => {
            lemma_cache_groups(v, recs);
            assert(v.groups.len() == v.convs.len());
            assert(0 <= j < v.groups.len());
            assert(v.groups[j].len() > 0);
            lemma_read_group(v.groups[j], v.convs[j], limit, before);
        },
    }
}


/// `best` is the best candidate among the titles before `t`.
spec fn best_before(v: CacheView, needle: Seq<char>, t: int, best: Option<int>) -> bool {
    match best {
        None => forall|t2: int| 0 <= t2 < t ==> !(#[trigger] is_candidate(v, needle, t2)),
        Some(b) => {
            &&& b < t
            &&& is_candidate(v, needle, b)
            &&& forall|t2: int| 0 <= t2 < t && #[trigger] is_candidate(v, needle, t2) ==> {
                ||| last_time_of(v, v.topic_ids[t2]) < last_time_of(v, v.topic_ids[b])
                ||| (last_time_of(v, v.topic_ids[t2]) == last_time_of(v, v.topic_ids[b]) && b <= t2)
            }
        },
    }
}

proof fn lemma_best_from_best(v: CacheView, needle: Seq<char>, t: int, best: Option<int>)
    requires
        0 <= t <= v.topic_ids.len(),
        best_before(v, needle, t, best),
    ensures
        best_before(v, needle, v.topic_ids.len() as int, best_from(v, needle, t, best)),
    decreases v.topic_ids.len() - t,
{
    if t < v.topic_ids.len() {
        let better = is_candidate(v, needle, t) && match best {
            None => true,
            Some(b) => last_time_of(v, v.topic_ids[t]) > last_time_of(v, v.topic_ids[b]),
        };
        let nb = if better { Some(t) } else { best };
        assert(best_before(v, needle, t + 1, nb)) by {
            match nb {
                None => {
                    assert forall|t2: int| 0 <= t2 < t + 1 implies !(#[trigger] is_candidate(v, needle, t2)) by {
                        if t2 == t {
                            assert(!better);
                        }
                    }
                },
                Some(b) => {
                    assert forall|t2: int| 0 <= t2 < t + 1 && #[trigger] is_candidate(v, needle, t2) implies {
                        ||| last_time_of(v, v.topic_ids[t2]) < last_time_of(v, v.topic_ids[b])
                        ||| (last_time_of(v, v.topic_ids[t2]) == last_time_of(v, v.topic_ids[b]) && b <= t2)
                    } by {
                        if better {
                            if t2 < t {
                                if let Some(b0) = best {
                                    assert(last_time_of(v, v.topic_ids[t2]) <= last_time_of(v, v.topic_ids[b0]));
                                }
                            }
                        }
                    }
                },
            }
        }
        lemma_best_from_best(v, needle, t + 1, nb);
    }
}

/// Law: `resolution` is what `resolves_to` describes: the conversation
/// whose id is `chat`; else the most recently active conversation whose
/// title contains `chat` ignoring case (the first such title on a tie);
/// else none.
pub proof fn lemma_resolution_spec(v: CacheView, chat: Seq<char>)
    ensures
        resolves_to(v, chat, resolution(v, chat)),
{
    if !has_key(v.convs, chat) {
        let needle = lowercase(chat);
        lemma_best_from_best(v, needle, 0, None);
        let b = best_from(v, needle, 0, None);
        match b {
            None => {
                assert forall|t: int| !(#[trigger] is_candidate(v, needle, t)) by {
                    if is_candidate(v, needle, t) {
                        assert(0 <= t < v.topic_ids.len());
                    }
                }
            },
            Some(t) => {
                assert forall|t2: int| #[trigger] is_candidate(v, needle, t2) implies {
                    ||| last_time_of(v, v.topic_ids[t2]) < last_time_of(v, v.topic_ids[t])
                    ||| (last_time_of(v, v.topic_ids[t2]) == last_time_of(v, v.topic_ids[t]) && t <= t2)
                } by {
                    assert(0 <= t2 < v.topic_ids.len());
                }
            },
        }
    }
}


proof fn lemma_query_hits(s: Seq<MessageView>, needle: Seq<char>)
    ensures
        forall|k: int| 0 <= k < query_hits(s, needle).len() ==> matches_query(#[trigger] query_hits(s, needle)[k], needle),
    decreases s.len(),
{
    if s.len() > 0 {
        lemma_query_hits(s.drop_last(), needle);
        let q = query_hits(s, needle);
        let qp = query_hits(s.drop_last(), needle);
        assert forall|k: int| 0 <= k < q.len() implies matches_query(#[trigger] q[k], needle) by {
            if k < qp.len() {
                assert(q[k] == qp[k]);
            }
        }
    }
}

/// Law: a search gives at most `limit` messages, each matching the query
/// (its lowercased text or sender contains the lowercased query), in time
/// order.
pub proof fn lemma_search_result(v: CacheView, query: Seq<char>, limit: nat, out: Seq<MessageView>)
    requires
        search_result(v, query, limit, out),
    ensures
        out.len() <= limit,
        time_sorted(out),
        forall|k: int| 0 <= k < out.len() ==> matches_query(#[trigger] out[k], lowercase(query)),
{
    let needle = lowercase(query);
    let hits = query_hits(flat(v.groups), needle);
    let sorted = choose|sorted: Seq<MessageView>| stably_sorted(hits, time_keys(hits), sorted) && out == #[trigger] last_n(sorted, limit);
    lemma_stable_time_sort(hits, sorted);
    lemma_last_n(sorted, limit);
    lemma_query_hits(flat(v.groups), needle);
    assert forall|k: int| 0 <= k < out.len() implies matches_query(#[trigger] out[k], needle) by {
        assert(sorted.contains(out[k]));
        let q = choose|q: int| 0 <= q < sorted.len() && sorted[q] == out[k];
        assert(hits.contains(sorted[q]));
    }
}

/// Law: the chat list has one entry per conversation, no conversation
/// twice, the most recently active first.
pub proof fn lemma_chat_list(v: CacheView, out: Seq<ChatView>)
    requires
        cache_wf(v),
        stably_sorted(chat_entries(v), recency_keys(v), out),
    ensures
        out.len() == v.convs.len(),
        forall|i: int, j: int| 0 <= i < j < out.len() ==> (#[trigger] out[i]).conversation_id != (#[trigger] out[j]).conversation_id,
        forall|i: int, j: int| 0 <= i < j < out.len() ==> (#[trigger] out[i]).last_message->0.time_ms >= (#[trigger] out[j]).last_message->0.time_ms,
        forall|i: int| 0 <= i < out.len() ==> (#[trigger] out[i]).last_message is Some,
{
    let p = choose|p: Seq<int>| stable_order(recency_keys(v), p) && out == permuted(chat_entries(v), p);
    assert forall|i: int, j: int| 0 <= i < j < out.len() implies (#[trigger] out[i]).conversation_id != (#[trigger] out[j]).conversation_id
        && out[i].last_message->0.time_ms >= out[j].last_message->0.time_ms by {
        assert(key_before_at(recency_keys(v), p, i, j));
        assert(out[i] == chat_at(v, p[i]) && out[j] == chat_at(v, p[j]));
        assert(p[i] != p[j]);
    }
    assert forall|i: int| 0 <= i < out.len() implies (#[trigger] out[i]).last_message is Some by {
        assert(out[i] == chat_at(v, p[i]));
    }
}


/// Record `e` is a decodable record of a message store (resolved against
/// `all`) and its messages include `m`.
pub open spec fn from_msg_store(e: Entry, all: Seq<Entry>, m: MessageView) -> bool {
    &&& data_cell(e) matches Some((d, s)) && is_msg_cell(all, d, s)
    &&& spec_decode(e.1) matches Some(v) && spec_record_messages(v).contains(m)
}

proof fn lemma_messages_of_cid(ps: Seq<(Seq<char>, crate::v8::V8View)>, fb: Seq<char>)
    ensures
        forall|k: int| 0 <= k < messages_of(ps, fb).len() ==> (#[trigger] messages_of(ps, fb)[k]).conversation_id.len() > 0,
    decreases ps.len(),
{
    if ps.len() > 0 {
        lemma_messages_of_cid(ps.drop_last(), fb);
        let prev = messages_of(ps.drop_last(), fb);
        assert forall|k: int| 0 <= k < messages_of(ps, fb).len() implies (#[trigger] messages_of(ps, fb)[k]).conversation_id.len() > 0 by {
            if k < prev.len() {
                assert(messages_of(ps, fb)[k] == prev[k]);
            }
        }
    }
}

proof fn lemma_record_msgs_sources(recs: Seq<Entry>, all: Seq<Entry>)
    ensures
        forall|k: int| 0 <= k < record_msgs(recs, all).len() ==> {
            &&& (#[trigger] record_msgs(recs, all)[k]).conversation_id.len() > 0
            &&& exists|i: int| 0 <= i < recs.len() && from_msg_store(recs[i], all, record_msgs(recs, all)[k])
        },
    decreases recs.len(),
{
    if recs.len() > 0 {
        let pre = recs.drop_last();
        lemma_record_msgs_sources(pre, all);
        let prev = record_msgs(pre, all);
        let cur = record_msgs(recs, all);
        assert forall|k: int| 0 <= k < cur.len() implies {
            &&& (#[trigger] cur[k]).conversation_id.len() > 0
            &&& exists|i: int| 0 <= i < recs.len() && from_msg_store(recs[i], all, cur[k])
        } by {
            if k < prev.len() {
                assert(cur[k] == prev[k]);
                let i = choose|i: int| 0 <= i < pre.len() && from_msg_store(pre[i], all, prev[k]);
                assert(recs[i] == pre[i]);
            } else {
                let e = recs.last();
                let (d, st) = data_cell(e)->0;
                let v = spec_decode(e.1)->0;
                let rm = spec_record_messages(v);
                assert(cur == prev + rm);
                assert(cur[k] == rm[k - prev.len()]);
                assert(rm.contains(cur[k]));
                assert(recs[recs.len() - 1] == e);
                match crate::schema::prop(v, "messageMap"@) {
                    Some(crate::v8::V8View::Object(ps)) => {
                        lemma_messages_of_cid(ps, crate::schema::or_empty(crate::schema::str_prop(v, "conversationId"@)));
                    },
                    _ => {},
                }
            }
        }
    }
}

proof fn lemma_record_topics_threads(recs: Seq<Entry>, all: Seq<Entry>)
    ensures
        forall|k: int| 0 <= k < record_topics(recs, all).len() ==> is_thread_id((#[trigger] record_topics(recs, all)[k]).0),
    decreases recs.len(),
{
    if recs.len() > 0 {
        lemma_record_topics_threads(recs.drop_last(), all);
        let prev = record_topics(recs.drop_last(), all);
        assert forall|k: int| 0 <= k < record_topics(recs, all).len() implies is_thread_id((#[trigger] record_topics(recs, all)[k]).0) by {
            if k < prev.len() {
                assert(record_topics(recs, all)[k] == prev[k]);
            }
        }
    }
}

proof fn lemma_last_topic_key(tps: Seq<(Seq<char>, Seq<char>)>, key: Seq<char>)
    requires
        last_topic(tps, key) is Some,
    ensures
        exists|i: int| 0 <= i < tps.len() && tps[i].0 == key,
    decreases tps.len(),
{
    if tps.last().0 != key {
        lemma_last_topic_key(tps.drop_last(), key);
        let i = choose|i: int| 0 <= i < tps.drop_last().len() && tps.drop_last()[i].0 == key;
        assert(tps[i] == tps.drop_last()[i]);
    } else {
        assert(tps[tps.len() - 1] == tps.last());
    }
}

/// Law: a cache built from a database's records keeps only non-empty
/// conversation ids, titles of threads (ids beginning `19:`), and messages
/// read from decodable records of the message stores (`replychains` or
/// `replychains-2` of the database named with the segment
/// `replychain-manager`).
pub proof fn lemma_cache_sources(v: CacheView, recs: Seq<Entry>)
    requires
        cache_of(v, recs),
    ensures
        forall|j: int| 0 <= j < v.convs.len() ==> (#[trigger] v.convs[j]).len() > 0,
        forall|t: int| 0 <= t < v.topic_ids.len() ==> is_thread_id(#[trigger] v.topic_ids[t]),
        forall|j: int, k: int| 0 <= j < v.groups.len() && 0 <= k < v.groups[j].len() ==>
            exists|i: int| 0 <= i < recs.len() && from_msg_store(recs[i], recs, #[trigger] v.groups[j][k]),
{
    let all = record_msgs(recs, recs);
    lemma_record_msgs_sources(recs, recs);
    assert forall|j: int| 0 <= j < v.convs.len() implies (#[trigger] v.convs[j]).len() > 0 by {
        assert(group_ok(all, v.convs[j], v.groups[j]));
        lemma_in_conv_members(all, v.convs[j]);
        let raw = in_conv(all, v.convs[j]);
        assert(raw[0].conversation_id == v.convs[j]);
        assert(all.contains(raw[0]));
        let q = choose|q: int| 0 <= q < all.len() && all[q] == raw[0];
    }
    let tps = record_topics(recs, recs);
    lemma_record_topics_threads(recs, recs);
    assert forall|t: int| 0 <= t < v.topic_ids.len() implies is_thread_id(#[trigger] v.topic_ids[t]) by {
        lemma_last_topic_key(tps, v.topic_ids[t]);
        let i = choose|i: int| 0 <= i < tps.len() && tps[i].0 == v.topic_ids[t];
    }
    assert forall|j: int, k: int| 0 <= j < v.groups.len() && 0 <= k < v.groups[j].len() implies
        exists|i: int| 0 <= i < recs.len() && from_msg_store(recs[i], recs, #[trigger] v.groups[j][k]) by {
        assert(group_ok(all, v.convs[j], v.groups[j]));
        let raw = in_conv(all, v.convs[j]);
        lemma_stable_time_sort(raw, v.groups[j]);
        lemma_in_conv_members(all, v.convs[j]);
        assert(raw.contains(v.groups[j][k]));
        let q = choose|q: int| 0 <= q < raw.len() && raw[q] == v.groups[j][k];
        assert(all.contains(raw[q]));
        let q2 = choose|q2: int| 0 <= q2 < all.len() && all[q2] == raw[q];
    }
}

proof fn lemma_record_msgs_has(recs: Seq<Entry>, all: Seq<Entry>, j: int, m: MessageView)
    requires
        0 <= j < recs.len(),
        data_cell(recs[j]) matches Some((d, s)) && is_msg_cell(all, d, s),
        spec_decode(recs[j].1) matches Some(val) && spec_record_messages(val).contains(m),
    ensures
        record_msgs(recs, all).contains(m),
    decreases recs.len(),
{
    let pre = recs.drop_last();
    let prev = record_msgs(pre, all);
    let cur = record_msgs(recs, all);
    if j == recs.len() - 1 {
        let val = spec_decode(recs[j].1)->0;
        let ms = spec_record_messages(val);
        assert(cur == prev + ms);
        let q = choose|q: int| 0 <= q < ms.len() && ms[q] == m;
        assert(cur[prev.len() + q] == m);
    } else {
        assert(pre[j] == recs[j]);
        lemma_record_msgs_has(pre, all, j, m);
        let q = choose|q: int| 0 <= q < prev.len() && prev[q] == m;
        assert(cur == prev || exists|x: Seq<MessageView>| cur == prev + x);
        if cur != prev {
            let x = choose|x: Seq<MessageView>| cur == prev + x;
            assert(cur[q] == m);
        }
    }
}

proof fn lemma_in_conv_has(s: Seq<MessageView>, m: MessageView)
    requires
        s.contains(m),
    ensures
        in_conv(s, m.conversation_id).contains(m),
    decreases s.len(),
{
    let cid = m.conversation_id;
    let prev = s.drop_last();
    if s.last() == m {
        assert(in_conv(s, cid) == in_conv(prev, cid).push(m));
        assert(in_conv(s, cid).last() == m);
    } else {
        let q = choose|q: int| 0 <= q < s.len() && s[q] == m;
        assert(prev[q] == m);
        lemma_in_conv_has(prev, m);
        let r = choose|r: int| 0 <= r < in_conv(prev, cid).len() && in_conv(prev, cid)[r] == m;
        assert(in_conv(s, cid)[r] == m);
    }
}

/// Law: every message of a decodable record stored in a message store
/// (`replychains` or `replychains-2`) of the database named with the segment
/// `replychain-manager` is in the cache, in the group of its conversation.
pub proof fn lemma_message_stores(v: CacheView, recs: Seq<Entry>, i: int, j: int, m: MessageView)
    requires
        cache_of(v, recs),
        0 <= i < store_names(recs).len(),
        store_names(recs)[i].2 == "replychains"@ || store_names(recs)[i].2 == "replychains-2"@,
        first_db(db_names(recs), "replychain-manager"@, 0) == Some(store_names(recs)[i].0),
        0 <= j < recs.len(),
        data_cell(recs[j]) == Some((store_names(recs)[i].0, store_names(recs)[i].1)),
        spec_decode(recs[j].1) matches Some(val) && spec_record_messages(val).contains(m),
    ensures
        exists|g: int| 0 <= g < v.convs.len() && v.convs[g] == m.conversation_id && v.groups[g].contains(m),
{
    let st = store_names(recs)[i];
    assert(is_msg_cell(recs, st.0, st.1));
    lemma_record_msgs_has(recs, recs, j, m);
    let all = record_msgs(recs, recs);
    let q = choose|q: int| 0 <= q < all.len() && all[q] == m;
    assert(has_key(v.convs, all[q].conversation_id));
    let g = choose|g: int| 0 <= g < v.convs.len() && v.convs[g] == m.conversation_id;
    assert(group_ok(all, v.convs[g], v.groups[g]));
    let raw = in_conv(all, m.conversation_id);
    lemma_in_conv_has(all, m);
    lemma_sorted_keeps_all(raw, time_keys(raw), v.groups[g]);
    let r = choose|r: int| 0 <= r < raw.len() && raw[r] == m;
    assert(v.groups[g].contains(raw[r]));
}

} // verus!
