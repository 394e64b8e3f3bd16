//! Reliable broadcast: every process forwards each message it receives,
//! and delivers a message once more than half of the processes have been
//! seen forwarding it. The state that must survive a crash is kept in
//! stable storage.
use crate::assoc::{
    find_key, has_key, keys_of, lemma_key_pos, lemma_map_put_remove_unique, lemma_view_pairs,
    map_get, map_put, map_remove, unique_keys, view_pairs,
};
use crate::bytes::{be_bytes, be_value, lemma_be_round_trip_u128, u128_from_be_bytes, u128_to_be_bytes};
use crate::codec::{
    contains_entry, dedup, deserialize_entries, deserialize_hdrs, deserialize_msg, entries_bytes,
    entries_from, hdr_text, hdr_to_string, hdrs_bytes, hdrs_from, msg_bytes, msg_from,
    serialize_entries, serialize_hdrs, serialize_msg,
};
use crate::domain::{
    views, SystemAcknowledgmentMessage, SystemBroadcastMessage, SystemMessage,
    SystemMessageContent, SystemMessageHeader,
};
use crate::history::{
    ack_after, all_recorded, delivers, history_ok, lemma_all_recorded_after, lemma_history_delivery,
    lemma_history_new_forwarder, lemma_majority_after, lemma_seen_majority_delivered, majority_delivered,
    quorum_seen, seen_by_all, Delivery, Received,
};
use crate::schema::{put_chunks, retrieve_schema, schema_accepted, schema_chunks, schema_read, store_schema};
use crate::stable_storage::StableStorage;
use vstd::prelude::*;

verus! {

/// The schema that holds the pending records.
pub open spec fn pending_name() -> Seq<char> {
    "keys_pending"@
}

/// The schema that holds the delivered records.
pub open spec fn delivered_name() -> Seq<char> {
    "keys_delivered"@
}

/// The schema that holds the headers of the messages kept.
pub open spec fn actual_name() -> Seq<char> {
    "keys_actual_msges"@
}

/// The key that holds the number of the next message.
pub open spec fn number_name() -> Seq<char> {
    "current_msg_number"@
}

/// `m` after the records `es` are stored as the schema `name`.
pub open spec fn with_entries(
    m: Map<Seq<char>, Seq<u8>>,
    name: Seq<char>,
    es: Seq<(u128, SystemMessageHeader)>,
) -> Map<Seq<char>, Seq<u8>> {
    put_chunks(m, name, schema_chunks(entries_bytes(es)))
}

/// `m` after each kept message is put under the text of its key, in order.
pub open spec fn put_msgs(
    m: Map<Seq<char>, Seq<u8>>,
    actual: Seq<(SystemMessageHeader, (SystemMessageHeader, Seq<u8>))>,
) -> Map<Seq<char>, Seq<u8>>
    decreases actual.len(),
{
    if actual.len() == 0 {
        m
    } else {
        put_msgs(m, actual.drop_last()).insert(
            hdr_text(actual.last().0),
            msg_bytes(actual.last().1),
        )
    }
}

/// `m` after the kept messages are stored: each message under the text of
/// its key, then the keys as the schema `actual_name()`.
pub open spec fn with_msgs(
    m: Map<Seq<char>, Seq<u8>>,
    actual: Seq<(SystemMessageHeader, (SystemMessageHeader, Seq<u8>))>,
) -> Map<Seq<char>, Seq<u8>> {
    put_chunks(put_msgs(m, actual), actual_name(), schema_chunks(hdrs_bytes(keys_of(actual))))
}

/// `m` after the number of the next message is stored.
pub open spec fn with_number(m: Map<Seq<char>, Seq<u8>>, n: u128) -> Map<Seq<char>, Seq<u8>> {
    m.insert(number_name(), be_bytes(n as nat, 16))
}

/// `after` is `before` with a proper prefix of the chunks of `data` stored
/// as the schema `name`: what a store of the schema that failed leaves.
pub open spec fn partly_stored_schema(
    before: Map<Seq<char>, Seq<u8>>,
    after: Map<Seq<char>, Seq<u8>>,
    name: Seq<char>,
    data: Seq<u8>,
) -> bool {
    exists|k: int|
        0 <= k < schema_chunks(data).len() && after == put_chunks(
            before,
            name,
            schema_chunks(data).subrange(0, k),
        )
}

/// `after` is what a store of the kept messages over `before` that failed
/// leaves: a proper prefix of the messages put, or all of them put and a
/// proper prefix of the chunks of their headers.
pub open spec fn partly_stored_msgs(
    before: Map<Seq<char>, Seq<u8>>,
    after: Map<Seq<char>, Seq<u8>>,
    actual: Seq<(SystemMessageHeader, (SystemMessageHeader, Seq<u8>))>,
) -> bool {
    ||| exists|j: int| 0 <= j < actual.len() && after == put_msgs(before, actual.subrange(0, j))
    ||| partly_stored_schema(put_msgs(before, actual), after, actual_name(), hdrs_bytes(keys_of(actual)))
}

/// A storage that takes the puts that `ok` holds of accepts each kept
/// message under the text of its header.
pub open spec fn msgs_accepted(
    ok: spec_fn(Seq<char>, Seq<u8>) -> bool,
    actual: Seq<(SystemMessageHeader, (SystemMessageHeader, Seq<u8>))>,
) -> bool {
    forall|j: int| 0 <= j < actual.len() ==> ok(hdr_text((#[trigger] actual[j]).0), msg_bytes(actual[j].1))
}

/// A storage that takes the puts that `ok` holds of accepts every write of
/// a broadcast that stores the pending records `pending`, the kept messages
/// `actual` and the next number `n`.
pub open spec fn broadcast_accepted(
    ok: spec_fn(Seq<char>, Seq<u8>) -> bool,
    pending: Seq<(u128, SystemMessageHeader)>,
    actual: Seq<(SystemMessageHeader, (SystemMessageHeader, Seq<u8>))>,
    n: u128,
) -> bool {
    &&& schema_accepted(ok, pending_name(), entries_bytes(pending))
    &&& msgs_accepted(ok, actual)
    &&& schema_accepted(ok, actual_name(), hdrs_bytes(keys_of(actual)))
    &&& ok(number_name(), be_bytes(n as nat, 16))
}


/// Adds `e` to the records of `v` where it is not among them.
fn insert_entry(v: &mut Vec<(u128, SystemMessageHeader)>, e: (u128, SystemMessageHeader))
    requires
        old(v)@.no_duplicates(),
    ensures
        final(v)@ == if old(v)@.contains(e) {
            old(v)@
        } else {
            old(v)@.push(e)
        },
        final(v)@.no_duplicates(),
{
    if !contains_entry(v, e) {
        v.push(e);
        proof {
            assert forall|i: int, j: int| 0 <= i < j < v@.len() implies v@[i] != v@[j] by {
                if j == v@.len() - 1 {
                    assert(old(v)@[i] == v@[i]);
                }
            }
        }
    }
}

/// Binds `k` to `m` among the kept messages.
fn put_message(v: &mut Vec<(SystemMessageHeader, SystemMessage)>, k: SystemMessageHeader, m: SystemMessage)
    requires
        unique_keys(old(v)@),
    ensures
        view_pairs(final(v)@) == map_put(view_pairs(old(v)@), k, m@),
        unique_keys(final(v)@),
{
    let ghost mv = m@;
    proof {
        lemma_view_pairs(old(v)@);
    }
    match find_key(v, k) {
        Some(i) => {
            v.set(i, (k, m));
            proof {
                lemma_key_pos(view_pairs(old(v)@), k, i as int);
                lemma_view_pairs(v@);
                assert(view_pairs(v@) =~= view_pairs(old(v)@).update(i as int, (k, mv)));
                lemma_map_put_remove_unique(view_pairs(old(v)@), k, mv);
            }
        },
        None => {
            v.push((k, m));
            proof {
                lemma_view_pairs(v@);
                assert(view_pairs(v@) =~= view_pairs(old(v)@).push((k, mv)));
                lemma_map_put_remove_unique(view_pairs(old(v)@), k, mv);
            }
        },
    }
}

/// Drops the kept message of key `k`.
fn remove_message(v: &mut Vec<(SystemMessageHeader, SystemMessage)>, k: SystemMessageHeader)
    requires
        unique_keys(old(v)@),
    ensures
        view_pairs(final(v)@) == map_remove(view_pairs(old(v)@), k),
        unique_keys(final(v)@),
{
    proof {
        lemma_view_pairs(old(v)@);
    }
    match find_key(v, k) {
        Some(i) => {
            v.remove(i);
            proof {
                lemma_key_pos(view_pairs(old(v)@), k, i as int);
                lemma_view_pairs(v@);
                assert(view_pairs(v@) =~= view_pairs(old(v)@).remove(i as int));
                lemma_map_put_remove_unique(view_pairs(old(v)@), k, (k, Seq::<u8>::empty()));
            }
        },
        None => {
            proof {
                lemma_view_pairs(v@);
            }
        },
    }
}

/// Whether `v` holds `x`.
fn contains_id(v: &Vec<u128>, x: u128) -> (r: bool)
    ensures
        r == v@.contains(x),
{
    let mut i: usize = 0;
    while i < v.len()
        invariant
            i <= v@.len(),
            forall|j: int| 0 <= j < i ==> v@[j] != x,
        decreases v@.len() - i,
    {
        if v[i] == x {
            assert(v@[i as int] == x);
            return true;
        }
        i = i + 1;
    }
    false
}

/// Records that `f` forwarded `h`; gives whether `f` was new among the
/// forwarders of `h`, and how many forwarders `h` then has.
fn record_forwarder(ack: &mut Vec<(SystemMessageHeader, Vec<u128>)>, h: SystemMessageHeader, f: u128) -> (r: (bool, usize))
    requires
        unique_keys(old(ack)@),
    ensures
        unique_keys(final(ack)@),
        view_pairs(final(ack)@) == ack_after(view_pairs(old(ack)@), h, f),
        ({
            let a = if has_key(view_pairs(old(ack)@), h) {
                view_pairs(old(ack)@)
            } else {
                view_pairs(old(ack)@).push((h, Seq::empty()))
            };
            let s = map_get(a, h);
            &&& r.0 == !s.contains(f)
            &&& r.0 ==> r.1 == s.len() + 1
        }),
{
    let ghost a0 = view_pairs(ack@);
    proof {
        lemma_view_pairs(ack@);
    }
    let i = match find_key(ack, h) {
        Some(i) => {
            proof {
                lemma_key_pos(a0, h, i as int);
            }
            i
        },
        None => {
            ack.push((h, Vec::new()));
            proof {
                lemma_view_pairs(ack@);
                assert(view_pairs(ack@) =~= a0.push((h, Seq::empty())));
                lemma_map_put_remove_unique(a0, h, Seq::<u128>::empty());
                lemma_key_pos(view_pairs(ack@), h, (ack@.len() - 1) as int);
            }
            ack.len() - 1
        },
    };
    let ghost a1 = view_pairs(ack@);
    proof {
        lemma_view_pairs(ack@);
        lemma_key_pos(a1, h, i as int);
    }
    if contains_id(&ack[i].1, f) {
        return (false, 0);
    }
    let mut set = ack[i].1.clone();
    assert(set@ =~= ack@[i as int].1@);
    set.push(f);
    let n = set.len();
    ack.set(i, (h, set));
    proof {
        lemma_view_pairs(ack@);
        assert(view_pairs(ack@) =~= a1.update(i as int, (h, a1[i as int].1.push(f))));
        lemma_map_put_remove_unique(a1, h, a1[i as int].1.push(f));
    }
    (true, n)
}

/// What a step hands back to be done outside: messages to pass to the
/// stubborn broadcast, acknowledgments to send (each with the process it
/// goes to), messages to deliver to the upper layer (in this order), and
/// the error of a storage write that failed, after which the step stopped.
pub struct Effects {
    pub to_stubborn: Vec<SystemBroadcastMessage>,
    pub acknowledgments: Vec<(u128, SystemAcknowledgmentMessage)>,
    pub delivered: Vec<SystemMessage>,
    pub failure: Option<String>,
}

/// The state of a reliable broadcast process.
pub struct MyReliableBroadcast<S: StableStorage> {
    storage: S,
    how_many_proc: usize,
    ack: Vec<(SystemMessageHeader, Vec<u128>)>,
    id: u128,
    current_msg_number: u128,
    pending: Vec<(u128, SystemMessageHeader)>,
    delivered: Vec<(u128, SystemMessageHeader)>,
    actual_msges: Vec<(SystemMessageHeader, SystemMessage)>,
    received: Ghost<Seq<Received>>,
    deliveries: Ghost<Seq<Delivery>>,
}

impl<S: StableStorage> MyReliableBroadcast<S> {
    /// This process.
    pub closed spec fn id(&self) -> u128 {
        self.id
    }

    /// How many processes take part.
    pub closed spec fn processes(&self) -> usize {
        self.how_many_proc
    }

    /// The number that the next broadcast message gets.
    pub closed spec fn next_number(&self) -> u128 {
        self.current_msg_number
    }

    /// The (source, header) records of the messages seen, in order.
    pub closed spec fn pending_v(&self) -> Seq<(u128, SystemMessageHeader)> {
        self.pending@
    }

    /// The (source, header) records of the messages delivered, in order.
    pub closed spec fn delivered_v(&self) -> Seq<(u128, SystemMessageHeader)> {
        self.delivered@
    }

    /// For each message heard of, the processes seen forwarding it.
    pub closed spec fn ack_v(&self) -> Seq<(SystemMessageHeader, Seq<u128>)> {
        view_pairs(self.ack@)
    }

    /// The messages kept for resending, by header.
    pub closed spec fn actual_v(&self) -> Seq<(SystemMessageHeader, (SystemMessageHeader, Seq<u8>))> {
        view_pairs(self.actual_msges@)
    }

    /// The messages handed to `deliver_message` since this process was
    /// built, in order, taken by their views.
    pub closed spec fn received(&self) -> Seq<Received> {
        self.received@
    }

    /// The messages delivered since this process was built, in order, each
    /// with the place among `received()` of the message whose receipt
    /// delivered it.
    pub closed spec fn deliveries(&self) -> Seq<Delivery> {
        self.deliveries@
    }

    /// Which puts the stable storage takes.
    pub closed spec fn storage_accepts(&self) -> spec_fn(Seq<char>, Seq<u8>) -> bool {
        self.storage.accepts()
    }

    /// What the stable storage holds.
    pub closed spec fn stored(&self) -> Map<Seq<char>, Seq<u8>> {
        self.storage.contents()
    }

    /// The number that the next broadcast message gets.
    pub fn next_message_number(&self) -> (r: u128)
        ensures
            r == self.next_number(),
    {
        self.current_msg_number
    }

    /// The stable storage, given back.
    pub fn into_storage(self) -> (s: S)
        ensures
            s.contents() == self.stored(),
    {
        self.storage
    }

    /// Records and keys are distinct, and what was delivered since the
    /// process was built is justified by what it received.
    pub closed spec fn wf(&self) -> bool {
        &&& self.pending@.no_duplicates()
        &&& self.delivered@.no_duplicates()
        &&& unique_keys(self.ack@)
        &&& unique_keys(self.actual_msges@)
        &&& history_ok(
            self.received@,
            self.deliveries@,
            self.delivered@,
            view_pairs(self.ack@),
            self.how_many_proc,
        )
        &&& all_recorded(self.received@, view_pairs(self.ack@))
        &&& majority_delivered(view_pairs(self.ack@), self.delivered@, self.how_many_proc)
    }

    /// Stores the pending records.
    fn store_pending(&mut self) -> (r: Result<(), String>)
        ensures
            final(self).pending == old(self).pending,
            final(self).delivered == old(self).delivered,
            final(self).ack == old(self).ack,
            final(self).actual_msges == old(self).actual_msges,
            final(self).id == old(self).id,
            final(self).how_many_proc == old(self).how_many_proc,
            final(self).current_msg_number == old(self).current_msg_number,
            final(self).received == old(self).received,
            final(self).deliveries == old(self).deliveries,
            final(self).storage.accepts() == old(self).storage.accepts(),
            r is Ok ==> final(self).storage.contents() == with_entries(
                old(self).storage.contents(),
                pending_name(),
                old(self).pending@,
            ),
            r is Ok <==> schema_accepted(old(self).storage.accepts(), pending_name(), entries_bytes(old(self).pending@)),
            r is Err ==> partly_stored_schema(
                old(self).storage.contents(),
                final(self).storage.contents(),
                pending_name(),
                entries_bytes(old(self).pending@),
            ),
    {
        let bytes = serialize_entries(&self.pending);
        store_schema(&mut self.storage, bytes, "keys_pending")
    }

    /// Stores the delivered records.
    fn store_delivered(&mut self) -> (r: Result<(), String>)
        ensures
            final(self).pending == old(self).pending,
            final(self).delivered == old(self).delivered,
            final(self).ack == old(self).ack,
            final(self).actual_msges == old(self).actual_msges,
            final(self).id == old(self).id,
            final(self).how_many_proc == old(self).how_many_proc,
            final(self).current_msg_number == old(self).current_msg_number,
            final(self).received == old(self).received,
            final(self).deliveries == old(self).deliveries,
            final(self).storage.accepts() == old(self).storage.accepts(),
            r is Ok ==> final(self).storage.contents() == with_entries(
                old(self).storage.contents(),
                delivered_name(),
                old(self).delivered@,
            ),
            r is Ok <==> schema_accepted(old(self).storage.accepts(), delivered_name(), entries_bytes(old(self).delivered@)),
            r is Err ==> partly_stored_schema(
                old(self).storage.contents(),
                final(self).storage.contents(),
                delivered_name(),
                entries_bytes(old(self).delivered@),
            ),
    {
        let bytes = serialize_entries(&self.delivered);
        store_schema(&mut self.storage, bytes, "keys_delivered")
    }

    /// Stores the kept messages: each under the text of its header, then
    /// the list of their headers.
    fn store_actual_msges(&mut self) -> (r: Result<(), String>)
        ensures
            final(self).pending == old(self).pending,
            final(self).delivered == old(self).delivered,
            final(self).ack == old(self).ack,
            final(self).actual_msges == old(self).actual_msges,
            final(self).id == old(self).id,
            final(self).how_many_proc == old(self).how_many_proc,
            final(self).current_msg_number == old(self).current_msg_number,
            final(self).received == old(self).received,
            final(self).deliveries == old(self).deliveries,
            final(self).storage.accepts() == old(self).storage.accepts(),
            r is Ok ==> final(self).storage.contents() == with_msgs(
                old(self).storage.contents(),
                view_pairs(old(self).actual_msges@),
            ),
            r is Ok <==> msgs_accepted(old(self).storage.accepts(), view_pairs(old(self).actual_msges@)) && schema_accepted(
                old(self).storage.accepts(),
                actual_name(),
                hdrs_bytes(keys_of(view_pairs(old(self).actual_msges@))),
            ),
            r is Err ==> partly_stored_msgs(
                old(self).storage.contents(),
                final(self).storage.contents(),
                view_pairs(old(self).actual_msges@),
            ),
    {
        let ghost actual = view_pairs(self.actual_msges@);
        let ghost ok = self.storage.accepts();
        proof {
            lemma_view_pairs(self.actual_msges@);
        }
        let mut keys: Vec<SystemMessageHeader> = Vec::new();
        let mut i: usize = 0;
        while i < self.actual_msges.len()
            invariant
                i <= self.actual_msges@.len(),
                actual == view_pairs(self.actual_msges@),
                actual.len() == self.actual_msges@.len(),
                forall|j: int| 0 <= j < actual.len() ==> #[trigger] actual[j] == (self.actual_msges@[j].0, self.actual_msges@[j].1@),
                keys@ == keys_of(actual.subrange(0, i as int)),
                self.storage.contents() == put_msgs(old(self).storage.contents(), actual.subrange(0, i as int)),
                forall|j: int| 0 <= j < i ==> ok(hdr_text((#[trigger] actual[j]).0), msg_bytes(actual[j].1)),
                self.storage.accepts() == ok,
                ok == old(self).storage.accepts(),
                self.pending == old(self).pending,
                self.delivered == old(self).delivered,
                self.ack == old(self).ack,
                self.actual_msges == old(self).actual_msges,
                self.id == old(self).id,
                self.how_many_proc == old(self).how_many_proc,
                self.current_msg_number == old(self).current_msg_number,
                self.received == old(self).received,
                self.deliveries == old(self).deliveries,
            decreases self.actual_msges@.len() - i,
        {
            let hdr = self.actual_msges[i].0;
            keys.push(hdr);
            let key = hdr_to_string(hdr);
            let bytes = serialize_msg(&self.actual_msges[i].1);
            let r = self.storage.put(key.as_str(), bytes.as_slice());
            if r.is_err() {
                assert(0 <= i < actual.len() && self.storage.contents() == put_msgs(old(self).storage.contents(), actual.subrange(0, i as int)));
                assert(!ok(hdr_text(actual[i as int].0), msg_bytes(actual[i as int].1)));
                return r;
            }
            proof {
                let next = actual.subrange(0, i + 1);
                assert(next.drop_last() =~= actual.subrange(0, i as int));
                assert(next.last() == actual[i as int]);
                assert(keys@ =~= keys_of(next));
            }
            i = i + 1;
        }
        proof {
            assert(actual.subrange(0, i as int) =~= actual);
        }
        assert(msgs_accepted(ok, actual));
        let bytes = serialize_hdrs(&keys);
        store_schema(&mut self.storage, bytes, "keys_actual_msges")
    }

    /// Stores the number of the next message.
    fn store_current_msg_number(&mut self) -> (r: Result<(), String>)
        ensures
            final(self).pending == old(self).pending,
            final(self).delivered == old(self).delivered,
            final(self).ack == old(self).ack,
            final(self).actual_msges == old(self).actual_msges,
            final(self).id == old(self).id,
            final(self).how_many_proc == old(self).how_many_proc,
            final(self).current_msg_number == old(self).current_msg_number,
            final(self).received == old(self).received,
            final(self).deliveries == old(self).deliveries,
            final(self).storage.accepts() == old(self).storage.accepts(),
            r is Ok ==> final(self).storage.contents() == with_number(
                old(self).storage.contents(),
                old(self).current_msg_number,
            ),
            r is Ok <==> (old(self).storage.accepts())(number_name(), be_bytes(old(self).current_msg_number as nat, 16)),
            r is Err ==> final(self).storage.contents() == old(self).storage.contents(),
    {
        let bytes = u128_to_be_bytes(self.current_msg_number);
        self.storage.put("current_msg_number", &bytes)
    }
}


impl<S: StableStorage> MyReliableBroadcast<S> {
    /// Handles a message forwarded by `msg.forwarder_id`. Every receipt is
    /// acknowledged to the forwarder. The first time a message is heard of,
    /// it is recorded as pending, forwarded to all through the stubborn
    /// broadcast as coming from this process, and kept. On every receipt
    /// the forwarder is recorded; where it is new and that makes more than
    /// half of the processes, and the message was not delivered before, the
    /// message is delivered, recorded as delivered (also in stable storage,
    /// which is the one write whose refusal is reported) and no longer kept.
    pub fn deliver_message(&mut self, msg: SystemBroadcastMessage) -> (r: Effects)
        requires
            old(self).wf(),
        ensures
            final(self).wf(),
            final(self).id() == old(self).id(),
            final(self).processes() == old(self).processes(),
            final(self).next_number() == old(self).next_number(),
            final(self).storage_accepts() == old(self).storage_accepts(),
            final(self).received() == old(self).received().push(msg@),
            final(self).deliveries() == if r.delivered@.len() == 0 {
                old(self).deliveries()
            } else {
                old(self).deliveries().push((msg.message@, old(self).received().len()))
            },
            forall|x: (u128, SystemMessageHeader)|
                old(self).delivered_v().contains(x) ==> #[trigger] final(self).delivered_v().contains(x),
            r.acknowledgments@ == seq![
                (
                    msg.forwarder_id,
                    SystemAcknowledgmentMessage { proc: old(self).id(), hdr: msg.message.header },
                ),
            ],
            r.delivered@.len() <= 1,
            r.delivered@.len() == 1 ==> ({
                let h = msg.message.header;
                let e = (h.message_source_id, h);
                &&& !old(self).delivered_v().contains(e)
                &&& final(self).delivered_v().contains(e)
                &&& has_key(final(self).ack_v(), h)
                &&& map_get(final(self).ack_v(), h).contains(msg.forwarder_id)
                &&& map_get(final(self).ack_v(), h).len() > final(self).processes() / 2
            }),
            ({
                let h = msg.message.header;
                let e = (h.message_source_id, h);
                let f = msg.forwarder_id;
                let first = !old(self).pending_v().contains(e);
                let kept = if first {
                    map_put(old(self).actual_v(), h, msg.message@)
                } else {
                    old(self).actual_v()
                };
                &&& final(self).pending_v() == if first {
                    old(self).pending_v().push(e)
                } else {
                    old(self).pending_v()
                }
                &&& views(r.to_stubborn@) == if first {
                    seq![(old(self).id(), msg.message@)]
                } else {
                    Seq::empty()
                }
                &&& final(self).ack_v() == ack_after(old(self).ack_v(), h, f)
                &&& if delivers(old(self).ack_v(), old(self).delivered_v(), old(self).processes(), h, f) {
                    &&& final(self).delivered_v() == old(self).delivered_v().push(e)
                    &&& views(r.delivered@) == seq![msg.message@]
                    &&& final(self).actual_v() == map_remove(kept, h)
                    &&& r.failure is None <==> schema_accepted(
                        old(self).storage_accepts(),
                        delivered_name(),
                        entries_bytes(final(self).delivered_v()),
                    )
                    &&& r.failure is None ==> final(self).stored() == with_entries(
                        old(self).stored(),
                        delivered_name(),
                        final(self).delivered_v(),
                    )
                    &&& r.failure is Some ==> partly_stored_schema(
                        old(self).stored(),
                        final(self).stored(),
                        delivered_name(),
                        entries_bytes(final(self).delivered_v()),
                    )
                } else {
                    &&& final(self).delivered_v() == old(self).delivered_v()
                    &&& r.delivered@.len() == 0
                    &&& final(self).actual_v() == kept
                    &&& final(self).stored() == old(self).stored()
                    &&& r.failure is None
                }
            }),
    {
        let h = msg.message.header;
        let source_id = h.message_source_id;
        let forwarder_id = msg.forwarder_id;
        let entry = (source_id, h);
        let ghost received0 = self.received@;
        let ghost deliveries0 = self.deliveries@;
        let ghost delivered0 = self.delivered@;
        let ghost ack0 = view_pairs(self.ack@);
        let ghost mv = msg.message@;
        proof {
            self.received@ = self.received@.push(msg@);
        }
        let mut to_stubborn: Vec<SystemBroadcastMessage> = Vec::new();
        let mut delivered: Vec<SystemMessage> = Vec::new();
        let mut acknowledgments: Vec<(u128, SystemAcknowledgmentMessage)> = Vec::new();
        acknowledgments.push((forwarder_id, SystemAcknowledgmentMessage { proc: self.id, hdr: h }));
        proof {
            assert(acknowledgments@ =~= seq![(forwarder_id, SystemAcknowledgmentMessage { proc: self.id, hdr: h })]);
        }
        let ghost old_ack = view_pairs(self.ack@);
        let ghost old_delivered = self.delivered@;
        if !contains_entry(&self.pending, entry) {
            insert_entry(&mut self.pending, entry);
            to_stubborn.push(SystemBroadcastMessage { forwarder_id: self.id, message: msg.message.duplicate() });
            proof {
                assert(views(to_stubborn@) =~= seq![(self.id, msg.message@)]);
            }
            put_message(&mut self.actual_msges, h, msg.message.duplicate());
        } else {
            proof {
                assert(views(to_stubborn@) =~= Seq::<(u128, (SystemMessageHeader, Seq<u8>))>::empty());
            }
        }
        let (fresh, count) = record_forwarder(&mut self.ack, h, forwarder_id);
        proof {
            lemma_view_pairs(self.ack@);
            lemma_history_new_forwarder(received0, deliveries0, delivered0, ack0, self.how_many_proc, forwarder_id, mv);
            lemma_all_recorded_after(received0, ack0, forwarder_id, mv);
        }
        if fresh {
            if !contains_entry(&self.delivered, entry) && count > self.how_many_proc / 2 {
                proof {
                    let a = if has_key(old_ack, h) { old_ack } else { old_ack.push((h, Seq::empty())) };
                    let st = map_get(a, h);
                    lemma_map_put_ack(a, h, st.push(forwarder_id));
                }
                let full_msg = msg.message;
                delivered.push(full_msg);
                proof {
                    assert(views(delivered@) =~= seq![msg.message@]);
                }
                insert_entry(&mut self.delivered, entry);
                proof {
                    let r1 = received0.push((forwarder_id, mv));
                    assert(r1.last() == (forwarder_id, mv));
                    lemma_history_delivery(
                        r1,
                        deliveries0,
                        delivered0,
                        view_pairs(self.ack@),
                        self.how_many_proc,
                        forwarder_id,
                        mv,
                    );
                    self.deliveries@ = self.deliveries@.push((mv, received0.len()));
                    assert forall|x: (u128, SystemMessageHeader)| delivered0.contains(x) implies
                        #[trigger] self.delivered@.contains(x) by {
                        let j = choose|j: int| 0 <= j < delivered0.len() && delivered0[j] == x;
                        assert(self.delivered@[j] == x);
                    }
                    assert(self.delivered@[delivered0.len() as int] == entry);
                    lemma_majority_after(ack0, delivered0, self.delivered@, self.how_many_proc, h, forwarder_id);
                }
                remove_message(&mut self.actual_msges, h);
                let stored = self.store_delivered();
                proof {
                    assert(self.delivered@ == old_delivered.push(entry));
                    assert forall|x: (u128, SystemMessageHeader)| old_delivered.contains(x) implies
                        #[trigger] self.delivered@.contains(x) by {
                        let j = choose|j: int| 0 <= j < old_delivered.len() && old_delivered[j] == x;
                        assert(self.delivered@[j] == x);
                    }
                    assert(self.delivered@[old_delivered.len() as int] == entry);
                    let a = if has_key(old_ack, h) { old_ack } else { old_ack.push((h, Seq::empty())) };
                    let st = map_get(a, h);
                    assert(st.push(forwarder_id)[st.len() as int] == forwarder_id);
                }
                let failure = match stored {
                    Ok(()) => None,
                    Err(e) => Some(e),
                };
                return Effects { to_stubborn, acknowledgments, delivered, failure };
            }
        }
        proof {
            assert(delivered@.len() == 0);
            lemma_majority_after(ack0, delivered0, delivered0, self.how_many_proc, h, forwarder_id);
        }
        Effects { to_stubborn, acknowledgments, delivered, failure: None }
    }

    /// Handles an acknowledgment: it is passed on to the stubborn broadcast
    /// as the pair (acknowledging process, header).
    pub fn receive_acknowledgment(&self, msg: SystemAcknowledgmentMessage) -> (r: (u128, SystemMessageHeader))
        ensures
            r == (msg.proc, msg.hdr),
    {
        (msg.proc, msg.hdr)
    }

    /// Broadcasts a payload: it becomes the message numbered with the next
    /// number of this process, which is recorded as pending and stored,
    /// passed to the stubborn broadcast as forwarded by this process, kept
    /// and stored; then the next number goes up by one and is stored. A
    /// storage write that fails stops the step; a failure is reported
    /// exactly where the storage refuses one of these writes.
    pub fn broadcast(&mut self, msg: SystemMessageContent) -> (r: Effects)
        requires
            old(self).wf(),
            old(self).next_number() < u128::MAX,
        ensures
            final(self).wf(),
            final(self).id() == old(self).id(),
            final(self).processes() == old(self).processes(),
            final(self).delivered_v() == old(self).delivered_v(),
            final(self).ack_v() == old(self).ack_v(),
            final(self).received() == old(self).received(),
            final(self).deliveries() == old(self).deliveries(),
            final(self).storage_accepts() == old(self).storage_accepts(),
            r.delivered@.len() == 0,
            r.acknowledgments@.len() == 0,
            ({
                let h = SystemMessageHeader {
                    message_source_id: old(self).id(),
                    message_id: old(self).next_number(),
                };
                let m = (h, msg@);
                let e = (old(self).id(), h);
                let pending = if old(self).pending_v().contains(e) {
                    old(self).pending_v()
                } else {
                    old(self).pending_v().push(e)
                };
                let actual = map_put(old(self).actual_v(), h, m);
                &&& final(self).pending_v() == pending
                &&& r.failure is None <==> broadcast_accepted(
                    old(self).storage_accepts(),
                    pending,
                    actual,
                    (old(self).next_number() + 1) as u128,
                )
                &&& r.failure is None ==> {
                    &&& views(r.to_stubborn@) == seq![(old(self).id(), m)]
                    &&& final(self).actual_v() == actual
                    &&& final(self).next_number() == old(self).next_number() + 1
                    &&& final(self).stored() == with_number(
                        with_msgs(with_entries(old(self).stored(), pending_name(), pending), actual),
                        (old(self).next_number() + 1) as u128,
                    )
                    &&& recovered_number(final(self).stored()) == Ok::<u128, RecoveryError>(
                        final(self).next_number(),
                    )
                }
                &&& r.failure is Some ==> {
                    ||| {
                        &&& r.to_stubborn@.len() == 0
                        &&& final(self).actual_v() == old(self).actual_v()
                        &&& final(self).next_number() == old(self).next_number()
                        &&& partly_stored_schema(
                            old(self).stored(),
                            final(self).stored(),
                            pending_name(),
                            entries_bytes(pending),
                        )
                    }
                    ||| {
                        &&& views(r.to_stubborn@) == seq![(old(self).id(), m)]
                        &&& final(self).actual_v() == actual
                        &&& final(self).next_number() == old(self).next_number()
                        &&& partly_stored_msgs(
                            with_entries(old(self).stored(), pending_name(), pending),
                            final(self).stored(),
                            actual,
                        )
                    }
                    ||| {
                        &&& views(r.to_stubborn@) == seq![(old(self).id(), m)]
                        &&& final(self).actual_v() == actual
                        &&& final(self).next_number() == old(self).next_number() + 1
                        &&& final(self).stored() == with_msgs(
                            with_entries(old(self).stored(), pending_name(), pending),
                            actual,
                        )
                    }
                }
            }),
    {
        let header = SystemMessageHeader { message_source_id: self.id, message_id: self.current_msg_number };
        let system_msg = SystemMessage { header, data: SystemMessageContent { msg: msg.msg } };
        let mut to_stubborn: Vec<SystemBroadcastMessage> = Vec::new();
        let delivered: Vec<SystemMessage> = Vec::new();
        let acknowledgments: Vec<(u128, SystemAcknowledgmentMessage)> = Vec::new();
        insert_entry(&mut self.pending, (self.id, header));
        match self.store_pending() {
            Ok(()) => {},
            Err(e) => {
                return Effects { to_stubborn, acknowledgments, delivered, failure: Some(e) };
            },
        }
        to_stubborn.push(SystemBroadcastMessage { forwarder_id: self.id, message: system_msg.duplicate() });
        proof {
            assert(views(to_stubborn@) =~= seq![(self.id, system_msg@)]);
        }
        put_message(&mut self.actual_msges, header, system_msg);
        match self.store_actual_msges() {
            Ok(()) => {},
            Err(e) => {
                return Effects { to_stubborn, acknowledgments, delivered, failure: Some(e) };
            },
        }
        self.current_msg_number = self.current_msg_number + 1;
        match self.store_current_msg_number() {
            Ok(()) => {},
            Err(e) => {
                return Effects { to_stubborn, acknowledgments, delivered, failure: Some(e) };
            },
        }
        proof {
            lemma_number_stored(self.storage.contents(), self.current_msg_number);
        }
        Effects { to_stubborn, acknowledgments, delivered, failure: None }
    }
}

/// A number stored is read back by recovery.
proof fn lemma_number_stored(m: Map<Seq<char>, Seq<u8>>, n: u128)
    requires
        m.contains_key(number_name()),
        m[number_name()] == be_bytes(n as nat, 16),
    ensures
        recovered_number(m) == Ok::<u128, RecoveryError>(n),
{
    lemma_be_round_trip_u128(n);
    assert(number_bytes(m[number_name()]) =~= be_bytes(n as nat, 16));
}

/// Over every sequence of calls since a process was built: no two messages
/// it delivered have the same header; each message delivered is one that
/// was handed to `deliver_message`, delivered on the receipt of that very
/// message; and by then distinct processes, more than half of them, had
/// been seen forwarding a message with its header.
pub proof fn law_deliveries_are_justified<S: StableStorage>(rb: &MyReliableBroadcast<S>)
    requires
        rb.wf(),
    ensures
        forall|i: int, j: int|
            0 <= i < j < rb.deliveries().len() ==> (#[trigger] rb.deliveries()[i]).0.0 != (
            #[trigger] rb.deliveries()[j]).0.0,
        forall|i: int|
            0 <= i < rb.deliveries().len() ==> {
                let d = #[trigger] rb.deliveries()[i];
                &&& d.1 < rb.received().len()
                &&& rb.received()[d.1 as int].1 == d.0
                &&& quorum_seen(rb.received(), d.1 + 1int, rb.processes(), d.0.0)
            },
{
    assert forall|i: int| 0 <= i < rb.deliveries().len() implies {
        let d = #[trigger] rb.deliveries()[i];
        &&& d.1 < rb.received().len()
        &&& rb.received()[d.1 as int].1 == d.0
        &&& quorum_seen(rb.received(), d.1 + 1int, rb.processes(), d.0.0)
    } by {
        assert(crate::history::delivery_ok(rb.received@, rb.delivered@, rb.how_many_proc, rb.deliveries@[i]));
    }
}

/// A message seen forwarded by more than half of the processes is
/// delivered: in every state that a process reaches from where it was
/// built, where distinct processes `fs`, more than half of them, were seen
/// forwarding messages with header `h` among the messages handed to
/// `deliver_message`, the message of header `h` is among the delivered
/// records.
pub proof fn law_majority_is_delivered<S: StableStorage>(
    rb: &MyReliableBroadcast<S>,
    fs: Seq<u128>,
    h: SystemMessageHeader,
)
    requires
        rb.wf(),
        seen_by_all(rb.received(), rb.received().len() as int, fs, h),
        fs.len() > rb.processes() / 2,
    ensures
        rb.delivered_v().contains((h.message_source_id, h)),
{
    let ack = view_pairs(rb.ack@);
    assert forall|g: SystemMessageHeader| #[trigger] has_key(ack, g) implies map_get(ack, g).no_duplicates() by {
        assert(seen_by_all(rb.received@, rb.received@.len() as int, map_get(ack, g), g));
    }
    lemma_seen_majority_delivered(rb.received@, ack, rb.delivered@, rb.how_many_proc, fs, h);
}

/// Why the state kept in stable storage could not be recovered.
#[derive(Debug, Clone, Copy, PartialEq, Eq, Structural)]
pub enum RecoveryError {
    /// A list of records is not made of whole records.
    UnparsableRecords,
    /// A message named in the list of kept messages is not stored.
    MissingMessage,
    /// A stored message is shorter than a header.
    ShortMessage,
    /// The stored number of the next message has fewer than 15 bytes.
    ShortNumber,
    /// A pending message not delivered yet is not among the kept ones.
    PendingWithoutMessage,
}

/// The records of the schema `name` of `m`: the distinct ones in order of
/// first occurrence, or `None` where its bytes are not whole records.
pub open spec fn recovered_entries(m: Map<Seq<char>, Seq<u8>>, name: Seq<char>) -> Option<
    Seq<(u128, SystemMessageHeader)>,
> {
    let b = schema_read(m, name, 0);
    if b.len() % 48 != 0 {
        None
    } else {
        Some(dedup(entries_from(b)))
    }
}

/// The messages of the headers `hs`, each read from the key of its header
/// and bound to it in order.
pub open spec fn msgs_from(m: Map<Seq<char>, Seq<u8>>, hs: Seq<SystemMessageHeader>) -> Result<
    Seq<(SystemMessageHeader, (SystemMessageHeader, Seq<u8>))>,
    RecoveryError,
>
    decreases hs.len(),
{
    if hs.len() == 0 {
        Ok(Seq::empty())
    } else {
        match msgs_from(m, hs.drop_last()) {
            Err(e) => Err(e),
            Ok(acc) => {
                let k = hdr_text(hs.last());
                if !m.contains_key(k) {
                    Err(RecoveryError::MissingMessage)
                } else if m[k].len() < 32 {
                    Err(RecoveryError::ShortMessage)
                } else {
                    Ok(map_put(acc, hs.last(), msg_from(m[k])))
                }
            },
        }
    }
}

/// The kept messages that `m` holds.
pub open spec fn recovered_msgs(m: Map<Seq<char>, Seq<u8>>) -> Result<
    Seq<(SystemMessageHeader, (SystemMessageHeader, Seq<u8>))>,
    RecoveryError,
> {
    let b = schema_read(m, actual_name(), 0);
    if b.len() % 32 != 0 {
        Err(RecoveryError::UnparsableRecords)
    } else {
        msgs_from(m, hdrs_from(b))
    }
}

/// The 16 bytes that a stored number of at least 15 bytes is read as: its
/// first 16, or its 15 followed by a zero byte.
pub open spec fn number_bytes(b: Seq<u8>) -> Seq<u8> {
    if b.len() >= 16 {
        b.subrange(0, 16)
    } else {
        b + seq![0u8]
    }
}

/// The number of the next message that `m` holds: its stored bytes, taken
/// as 16 by `number_bytes`, read as a big-endian number; 1 where none is
/// stored.
pub open spec fn recovered_number(m: Map<Seq<char>, Seq<u8>>) -> Result<u128, RecoveryError> {
    if !m.contains_key(number_name()) {
        Ok(1)
    } else if m[number_name()].len() < 15 {
        Err(RecoveryError::ShortNumber)
    } else {
        Ok(be_value(number_bytes(m[number_name()])) as u128)
    }
}

/// The messages to send again after recovery: for each pending record not
/// among the delivered records `delivered`, in order, the kept message of
/// its header, as forwarded by `id`; `None` where one is not kept.
pub open spec fn resend(
    pending: Seq<(u128, SystemMessageHeader)>,
    actual: Seq<(SystemMessageHeader, (SystemMessageHeader, Seq<u8>))>,
    delivered: Seq<(u128, SystemMessageHeader)>,
    id: u128,
) -> Option<Seq<(u128, (SystemMessageHeader, Seq<u8>))>>
    decreases pending.len(),
{
    if pending.len() == 0 {
        Some(Seq::empty())
    } else {
        match resend(pending.drop_last(), actual, delivered, id) {
            None => None,
            Some(acc) => if delivered.contains(pending.last()) {
                Some(acc)
            } else if has_key(actual, pending.last().1) {
                Some(acc.push((id, map_get(actual, pending.last().1))))
            } else {
                None
            },
        }
    }
}


/// The records of the schema `name`.
fn retrieve_entries<S: StableStorage>(storage: &S, name: &str) -> (r: Option<Vec<(u128, SystemMessageHeader)>>)
    ensures
        r is None <==> recovered_entries(storage.contents(), name@) is None,
        r matches Some(v) ==> v@ == recovered_entries(storage.contents(), name@)->Some_0
            && v@.no_duplicates(),
{
    let bytes = retrieve_schema(storage, name);
    let r = deserialize_entries(&bytes);
    proof {
        if r is Some {
            lemma_dedup_no_duplicates_result(entries_from(bytes@));
        }
    }
    r
}

/// `dedup` leaves no repetitions.
proof fn lemma_dedup_no_duplicates_result<A>(s: Seq<A>)
    ensures
        dedup(s).no_duplicates(),
    decreases s.len(),
{
    if s.len() > 0 {
        lemma_dedup_no_duplicates_result(s.drop_last());
        let d = dedup(s.drop_last());
        if !d.contains(s.last()) {
            assert forall|i: int, j: int| 0 <= i < j < d.push(s.last()).len() implies d.push(s.last())[i]
                != d.push(s.last())[j] by {
                if j == d.len() {
                    assert(d[i] == d.push(s.last())[i]);
                }
            }
        }
    }
}

/// The kept messages.
fn retrieve_actual_msges<S: StableStorage>(storage: &S) -> (r: Result<Vec<(SystemMessageHeader, SystemMessage)>, RecoveryError>)
    ensures
        match r {
            Ok(v) => recovered_msgs(storage.contents()) == Ok::<_, RecoveryError>(view_pairs(v@))
                && unique_keys(v@),
            Err(e) => recovered_msgs(storage.contents()) == Err::<Seq<(SystemMessageHeader, (SystemMessageHeader, Seq<u8>))>, _>(e),
        },
{
    let ghost m = storage.contents();
    let bytes = retrieve_schema(storage, "keys_actual_msges");
    let hdrs = match deserialize_hdrs(&bytes) {
        Some(h) => h,
        None => {
            return Err(RecoveryError::UnparsableRecords);
        },
    };
    let mut out: Vec<(SystemMessageHeader, SystemMessage)> = Vec::new();
    let mut i: usize = 0;
    proof {
        lemma_view_pairs(out@);
        assert(hdrs@.subrange(0, 0) =~= Seq::<SystemMessageHeader>::empty());
        assert(view_pairs(out@) =~= Seq::<(SystemMessageHeader, (SystemMessageHeader, Seq<u8>))>::empty());
    }
    while i < hdrs.len()
        invariant
            i <= hdrs@.len(),
            m == storage.contents(),
            msgs_from(m, hdrs@.subrange(0, i as int)) == Ok::<_, RecoveryError>(view_pairs(out@)),
            unique_keys(out@),
            hdrs@ == hdrs_from(bytes@),
            bytes@ == schema_read(m, actual_name(), 0),
            bytes@.len() % 32 == 0,
        decreases hdrs@.len() - i,
    {
        let h = hdrs[i];
        let ghost next = hdrs@.subrange(0, i + 1);
        proof {
            assert(next.drop_last() =~= hdrs@.subrange(0, i as int));
            assert(next.last() == h);
        }
        let key = hdr_to_string(h);
        let stored = match storage.get(key.as_str()) {
            Some(b) => b,
            None => {
                proof {
                    lemma_msgs_from_err_extends(m, hdrs@, i + 1);
                    assert(hdrs@.subrange(0, hdrs@.len() as int) =~= hdrs@);
                }
                return Err(RecoveryError::MissingMessage);
            },
        };
        if stored.len() < 32 {
            proof {
                lemma_msgs_from_err_extends(m, hdrs@, i + 1);
                assert(hdrs@.subrange(0, hdrs@.len() as int) =~= hdrs@);
            }
            return Err(RecoveryError::ShortMessage);
        }
        let msg = deserialize_msg(stored.as_slice());
        put_message(&mut out, h, msg);
        i = i + 1;
    }
    proof {
        assert(hdrs@.subrange(0, i as int) =~= hdrs@);
    }
    Ok(out)
}

/// The number of the next message.
fn retrieve_current_msg_number<S: StableStorage>(storage: &S) -> (r: Result<u128, RecoveryError>)
    ensures
        r == recovered_number(storage.contents()),
{
    match storage.get("current_msg_number") {
        Some(msg_bytes) => {
            if msg_bytes.len() < 15 {
                return Err(RecoveryError::ShortNumber);
            }
            let count: usize = if msg_bytes.len() >= 16 { 16 } else { 15 };
            let mut arr = [0u8; 16];
            let mut i: usize = 0;
            while i < count
                invariant
                    i <= count,
                    count <= 16,
                    count <= msg_bytes@.len(),
                    arr@.len() == 16,
                    forall|j: int| 0 <= j < i ==> arr@[j] == msg_bytes@[j],
                    forall|j: int| i <= j < 16 ==> arr@[j] == 0u8,
                decreases count - i,
            {
                arr[i] = msg_bytes[i];
                i = i + 1;
            }
            assert(arr@ =~= number_bytes(msg_bytes@));
            Ok(u128_from_be_bytes(arr))
        },
        None => Ok(1),
    }
}

/// Builds the process `id` among `processes_number` processes over
/// `storage`, recovering what the storage holds: the delivered and the
/// pending records, the kept messages and the next number (1 where none
/// is stored). Also gives the messages to pass to the stubborn
/// broadcast again: the kept message of each pending record not delivered
/// yet, as forwarded by this process.
pub fn build_reliable_broadcast<S: StableStorage>(storage: S, id: u128, processes_number: usize) -> (r: Result<
    (MyReliableBroadcast<S>, Vec<SystemBroadcastMessage>),
    RecoveryError,
>)
    ensures
        ({
            let m = storage.contents();
            let delivered = recovered_entries(m, delivered_name());
            let pending = recovered_entries(m, pending_name());
            let actual = recovered_msgs(m);
            let number = recovered_number(m);
            match r {
                Ok((b, sends)) => {
                    &&& b.wf()
                    &&& delivered == Some(b.delivered_v())
                    &&& pending == Some(b.pending_v())
                    &&& actual == Ok::<_, RecoveryError>(b.actual_v())
                    &&& number == Ok::<u128, RecoveryError>(b.next_number())
                    &&& b.ack_v().len() == 0
                    &&& b.received().len() == 0
                    &&& b.deliveries().len() == 0
                    &&& b.id() == id
                    &&& b.processes() == processes_number
                    &&& b.stored() == m
                    &&& b.storage_accepts() == storage.accepts()
                    &&& resend(b.pending_v(), b.actual_v(), b.delivered_v(), id) == Some(views(sends@))
                    &&& forall|e: (u128, SystemMessageHeader)|
                        b.pending_v().contains(e) && !b.delivered_v().contains(e) ==> #[trigger] views(
                            sends@,
                        ).contains((id, map_get(b.actual_v(), e.1)))
                    &&& views(sends@).len() == undelivered(b.pending_v(), b.delivered_v()).len()
                },
                Err(e) => {
                    ||| delivered is None && e == RecoveryError::UnparsableRecords
                    ||| delivered is Some && pending is None && e
                        == RecoveryError::UnparsableRecords
                    ||| delivered is Some && pending is Some && actual == Err::<
                        Seq<(SystemMessageHeader, (SystemMessageHeader, Seq<u8>))>,
                        RecoveryError,
                    >(e)
                    ||| delivered is Some && pending is Some && actual is Ok && number
                        == Err::<u128, RecoveryError>(e)
                    ||| delivered is Some && pending is Some && actual is Ok && number is Ok
                        && resend(pending->Some_0, actual->Ok_0, delivered->Some_0, id) is None && e
                        == RecoveryError::PendingWithoutMessage
                },
            }
        }),
{
    let delivered = match retrieve_entries(&storage, "keys_delivered") {
        Some(v) => v,
        None => {
            return Err(RecoveryError::UnparsableRecords);
        },
    };
    let pending = match retrieve_entries(&storage, "keys_pending") {
        Some(v) => v,
        None => {
            return Err(RecoveryError::UnparsableRecords);
        },
    };
    let actual_msges = match retrieve_actual_msges(&storage) {
        Ok(v) => v,
        Err(e) => {
            return Err(e);
        },
    };
    let current_msg_number = match retrieve_current_msg_number(&storage) {
        Ok(n) => n,
        Err(e) => {
            return Err(e);
        },
    };
    let mut sends: Vec<SystemBroadcastMessage> = Vec::new();
    let mut i: usize = 0;
    proof {
        lemma_view_pairs(actual_msges@);
        assert(pending@.subrange(0, 0) =~= Seq::<(u128, SystemMessageHeader)>::empty());
        assert(views(sends@) =~= Seq::<(u128, (SystemMessageHeader, Seq<u8>))>::empty());
    }
    while i < pending.len()
        invariant
            i <= pending@.len(),
            unique_keys(actual_msges@),
            resend(pending@.subrange(0, i as int), view_pairs(actual_msges@), delivered@, id) == Some(views(sends@)),
            recovered_entries(storage.contents(), delivered_name()) == Some(delivered@),
            recovered_entries(storage.contents(), pending_name()) == Some(pending@),
            recovered_msgs(storage.contents()) == Ok::<_, RecoveryError>(view_pairs(actual_msges@)),
            recovered_number(storage.contents()) == Ok::<u128, RecoveryError>(current_msg_number),
            delivered@.no_duplicates(),
            pending@.no_duplicates(),
        decreases pending@.len() - i,
    {
        let val = pending[i].1;
        let ghost next = pending@.subrange(0, i + 1);
        proof {
            assert(next.drop_last() =~= pending@.subrange(0, i as int));
            assert(next.last() == pending@[i as int]);
            lemma_view_pairs(actual_msges@);
        }
        if contains_entry(&delivered, pending[i]) {
            i = i + 1;
            continue;
        }
        match find_key(&actual_msges, val) {
            Some(j) => {
                proof {
                    lemma_key_pos(view_pairs(actual_msges@), val, j as int);
                }
                let ghost before = views(sends@);
                sends.push(SystemBroadcastMessage { forwarder_id: id, message: actual_msges[j].1.duplicate() });
                proof {
                    assert(views(sends@) =~= before.push((id, actual_msges@[j as int].1@)));
                }
            },
            None => {
                proof {
                    assert(resend(next, view_pairs(actual_msges@), delivered@, id) is None);
                    lemma_resend_none_extends(pending@, view_pairs(actual_msges@), delivered@, id, i + 1);
                    assert(pending@.subrange(0, pending@.len() as int) =~= pending@);
                    assert(recovered_entries(storage.contents(), pending_name()) == Some(pending@));
                    assert(recovered_msgs(storage.contents()) == Ok::<_, RecoveryError>(view_pairs(actual_msges@)));
                    assert(resend(pending@, view_pairs(actual_msges@), delivered@, id) is None);
                }
                return Err(RecoveryError::PendingWithoutMessage);
            },
        }
        i = i + 1;
    }
    proof {
        assert(pending@.subrange(0, i as int) =~= pending@);
    }
    let b = MyReliableBroadcast {
        storage,
        how_many_proc: processes_number,
        ack: Vec::new(),
        id,
        current_msg_number,
        pending,
        delivered,
        actual_msges,
        received: Ghost(Seq::empty()),
        deliveries: Ghost(Seq::empty()),
    };
    proof {
        lemma_view_pairs(b.ack@);
        law_recovery_resends_every_undelivered_pending(pending@, view_pairs(actual_msges@), delivered@, id);
    }
    Ok((b, sends))
}

/// The pending records of `pending` that are not among `delivered`, in
/// order.
pub open spec fn undelivered(
    pending: Seq<(u128, SystemMessageHeader)>,
    delivered: Seq<(u128, SystemMessageHeader)>,
) -> Seq<(u128, SystemMessageHeader)> {
    pending.filter(|e: (u128, SystemMessageHeader)| !delivered.contains(e))
}

/// Recovery sends again every pending message not delivered, whoever
/// issued it, and nothing else: it gives a result exactly where each of
/// them is kept, and then the result is, in order, the kept message of each
/// pending record not among the delivered ones, as forwarded by `id`; so
/// each such message is among those sent, each one sent is one of them, and
/// as many are sent as there are such records.
pub proof fn law_recovery_resends_every_undelivered_pending(
    pending: Seq<(u128, SystemMessageHeader)>,
    actual: Seq<(SystemMessageHeader, (SystemMessageHeader, Seq<u8>))>,
    delivered: Seq<(u128, SystemMessageHeader)>,
    id: u128,
)
    ensures
        resend(pending, actual, delivered, id) is Some <==> forall|j: int|
            0 <= j < pending.len() && !delivered.contains(#[trigger] pending[j]) ==> has_key(actual, pending[j].1),
        resend(pending, actual, delivered, id) matches Some(s) ==> {
            &&& s == undelivered(pending, delivered).map_values(
                |e: (u128, SystemMessageHeader)| (id, map_get(actual, e.1)),
            )
            &&& s.len() == undelivered(pending, delivered).len()
            &&& forall|e: (u128, SystemMessageHeader)|
                pending.contains(e) && !delivered.contains(e) ==> #[trigger] s.contains((id, map_get(actual, e.1)))
            &&& forall|x: (u128, (SystemMessageHeader, Seq<u8>))|
                #[trigger] s.contains(x) ==> x.0 == id && exists|e: (u128, SystemMessageHeader)|
                    pending.contains(e) && !delivered.contains(e) && x.1 == map_get(actual, e.1)
        },
{
    lemma_resend_filter(pending, actual, delivered, id);
    let pred = |e: (u128, SystemMessageHeader)| !delivered.contains(e);
    let f = |e: (u128, SystemMessageHeader)| (id, map_get(actual, e.1));
    let u = pending.filter(pred);
    if resend(pending, actual, delivered, id) is Some {
        let s = resend(pending, actual, delivered, id)->Some_0;
        assert(u == undelivered(pending, delivered));
        assert forall|e: (u128, SystemMessageHeader)| pending.contains(e) && !delivered.contains(e) implies #[trigger] s.contains(
            (id, map_get(actual, e.1)),
        ) by {
            let j = choose|j: int| 0 <= j < pending.len() && pending[j] == e;
            pending.lemma_filter_contains(pred, j);
            let k = choose|k: int| 0 <= k < u.len() && u[k] == e;
            assert(s[k] == f(u[k]));
        }
        assert forall|x: (u128, (SystemMessageHeader, Seq<u8>))| #[trigger] s.contains(x) implies x.0 == id && exists|
            e: (u128, SystemMessageHeader),
        | pending.contains(e) && !delivered.contains(e) && x.1 == map_get(actual, e.1) by {
            let k = choose|k: int| 0 <= k < s.len() && s[k] == x;
            let e = u[k];
            assert(s[k] == f(e));
            broadcast use vstd::seq_lib::group_filter_ensures;
            assert(u.contains(e));
            pending.lemma_filter_contains_rev(pred, e);
            assert(pred(e));
        }
    }
}

/// `resend` is the kept messages of the filtered records.
proof fn lemma_resend_filter(
    pending: Seq<(u128, SystemMessageHeader)>,
    actual: Seq<(SystemMessageHeader, (SystemMessageHeader, Seq<u8>))>,
    delivered: Seq<(u128, SystemMessageHeader)>,
    id: u128,
)
    ensures
        resend(pending, actual, delivered, id) is Some <==> forall|j: int|
            0 <= j < pending.len() && !delivered.contains(#[trigger] pending[j]) ==> has_key(actual, pending[j].1),
        resend(pending, actual, delivered, id) matches Some(s) ==> s == pending.filter(
            |e: (u128, SystemMessageHeader)| !delivered.contains(e),
        ).map_values(|e: (u128, SystemMessageHeader)| (id, map_get(actual, e.1))),
    decreases pending.len(),
{
    reveal(Seq::filter);
    let pred = |e: (u128, SystemMessageHeader)| !delivered.contains(e);
    let f = |e: (u128, SystemMessageHeader)| (id, map_get(actual, e.1));
    if pending.len() == 0 {
        assert(pending.filter(pred).map_values(f) =~= Seq::<(u128, (SystemMessageHeader, Seq<u8>))>::empty());
    } else {
        let init = pending.drop_last();
        let last = pending.last();
        lemma_resend_filter(init, actual, delivered, id);
        assert(pending.filter(pred) == if pred(last) {
            init.filter(pred).push(last)
        } else {
            init.filter(pred)
        });
        assert forall|j: int| 0 <= j < init.len() implies #[trigger] init[j] == pending[j] by {}
        if resend(init, actual, delivered, id) is Some {
            if pred(last) {
                assert(init.filter(pred).push(last).map_values(f) =~= init.filter(pred).map_values(f).push(f(last)));
            }
        } else {
            let j = choose|j: int| 0 <= j < init.len() && !delivered.contains(#[trigger] init[j]) && !has_key(actual, init[j].1);
            assert(pending[j] == init[j]);
        }
        let all_p = forall|j: int|
            0 <= j < pending.len() && !delivered.contains(#[trigger] pending[j]) ==> has_key(actual, pending[j].1);
        let all_i = forall|j: int|
            0 <= j < init.len() && !delivered.contains(#[trigger] init[j]) ==> has_key(actual, init[j].1);
        assert(pending[pending.len() - 1] == last);
        if all_p {
            assert forall|j: int| 0 <= j < init.len() && !delivered.contains(#[trigger] init[j]) implies has_key(
                actual,
                init[j].1,
            ) by {
                assert(pending[j] == init[j]);
            }
            assert(all_i);
            if !delivered.contains(last) {
                assert(has_key(actual, pending[pending.len() - 1].1));
            }
        }
        if resend(pending, actual, delivered, id) is Some {
            assert(all_i);
            assert forall|j: int| 0 <= j < pending.len() && !delivered.contains(#[trigger] pending[j]) implies has_key(
                actual,
                pending[j].1,
            ) by {
                if j < init.len() {
                    assert(pending[j] == init[j]);
                }
            }
        }
    }
}

/// Once the messages to resend cannot be found for a prefix of the
/// records, they cannot be for any longer prefix.
proof fn lemma_resend_none_extends(
    pending: Seq<(u128, SystemMessageHeader)>,
    actual: Seq<(SystemMessageHeader, (SystemMessageHeader, Seq<u8>))>,
    delivered: Seq<(u128, SystemMessageHeader)>,
    id: u128,
    k: int,
)
    requires
        0 <= k <= pending.len(),
        resend(pending.subrange(0, k), actual, delivered, id) is None,
    ensures
        resend(pending, actual, delivered, id) is None,
    decreases pending.len() - k,
{
    if k < pending.len() {
        let next = pending.subrange(0, k + 1);
        assert(next.drop_last() =~= pending.subrange(0, k));
        lemma_resend_none_extends(pending, actual, delivered, id, k + 1);
    } else {
        assert(pending.subrange(0, k) =~= pending);
    }
}

/// Once the messages of a prefix of the headers cannot be read, those of
/// the whole cannot either, for the same reason.
proof fn lemma_msgs_from_err_extends(m: Map<Seq<char>, Seq<u8>>, hs: Seq<SystemMessageHeader>, k: int)
    requires
        0 <= k <= hs.len(),
        msgs_from(m, hs.subrange(0, k)) is Err,
    ensures
        msgs_from(m, hs) == msgs_from(m, hs.subrange(0, k)),
    decreases hs.len() - k,
{
    if k < hs.len() {
        let next = hs.subrange(0, k + 1);
        assert(next.drop_last() =~= hs.subrange(0, k));
        lemma_msgs_from_err_extends(m, hs, k + 1);
    } else {
        assert(hs.subrange(0, k) =~= hs);
    }
}

/// Helper facts on binding a key in the table of forwarders.
proof fn lemma_map_put_ack(a: Seq<(SystemMessageHeader, Seq<u128>)>, h: SystemMessageHeader, s: Seq<u128>)
    requires
        unique_keys(a),
    ensures
        has_key(map_put(a, h, s), h),
        map_get(map_put(a, h, s), h) == s,
{
    lemma_map_put_remove_unique(a, h, s);
}

} // verus!
