//! What a reliable broadcast process has been handed and what it has
//! delivered since it was built, and the facts that tie the two together.
use crate::assoc::{has_key, lemma_map_put_other, lemma_map_put_remove_unique, map_get, map_put, unique_keys};
use crate::domain::SystemMessageHeader;
use vstd::prelude::*;

verus! {

/// A received message taken by its view: its forwarder and the message.
pub type Received = (u128, (SystemMessageHeader, Seq<u8>));

/// A delivery: the message delivered, and the place in the received
/// messages of the one whose receipt delivered it.
pub type Delivery = ((SystemMessageHeader, Seq<u8>), nat);

/// One of the first `upto` messages of `received` is a message with header
/// `h` forwarded by `f`.
pub open spec fn forwarded_before(received: Seq<Received>, upto: int, f: u128, h: SystemMessageHeader) -> bool {
    exists|j: int|
        #![trigger received[j]]
        0 <= j < upto && j < received.len() && received[j].0 == f && received[j].1.0 == h
}

/// The processes `fs` are distinct, and each was seen forwarding a message
/// with header `h` among the first `upto` messages of `received`.
pub open spec fn seen_by_all(received: Seq<Received>, upto: int, fs: Seq<u128>, h: SystemMessageHeader) -> bool {
    &&& fs.no_duplicates()
    &&& forall|t: int| 0 <= t < fs.len() ==> #[trigger] forwarded_before(received, upto, fs[t], h)
}

/// Distinct processes, more than half of the `n` processes, were seen
/// forwarding a message with header `h` among the first `upto` messages of
/// `received`.
pub open spec fn quorum_seen(received: Seq<Received>, upto: int, n: usize, h: SystemMessageHeader) -> bool {
    exists|fs: Seq<u128>| #[trigger] seen_by_all(received, upto, fs, h) && fs.len() > n / 2
}

/// The delivery `d` is justified by `received`: the message delivered is
/// the one received at its place, more than half of the processes had been
/// seen forwarding its header by then, and it is among the delivered
/// records `delivered`.
pub open spec fn delivery_ok(
    received: Seq<Received>,
    delivered: Seq<(u128, SystemMessageHeader)>,
    n: usize,
    d: Delivery,
) -> bool {
    &&& d.1 < received.len()
    &&& received[d.1 as int].1 == d.0
    &&& quorum_seen(received, d.1 + 1int, n, d.0.0)
    &&& delivered.contains((d.0.0.message_source_id, d.0.0))
}

/// What ties the history of a process to its state: every delivery is
/// justified, no two deliveries share a header, and each forwarder recorded
/// for a header, none twice, was seen forwarding it.
pub open spec fn history_ok(
    received: Seq<Received>,
    deliveries: Seq<Delivery>,
    delivered: Seq<(u128, SystemMessageHeader)>,
    ack: Seq<(SystemMessageHeader, Seq<u128>)>,
    n: usize,
) -> bool {
    &&& forall|i: int| 0 <= i < deliveries.len() ==> delivery_ok(received, delivered, n, #[trigger] deliveries[i])
    &&& forall|i: int, j: int|
        0 <= i < j < deliveries.len() ==> (#[trigger] deliveries[i]).0.0 != (#[trigger] deliveries[j]).0.0
    &&& forall|h: SystemMessageHeader|
        #[trigger] has_key(ack, h) ==> seen_by_all(received, received.len() as int, map_get(ack, h), h)
}

/// The forwarders seen per message after `f` is seen forwarding `h`: the
/// message gets an empty set where it had none, and `f` joins its set.
pub open spec fn ack_after(
    ack: Seq<(SystemMessageHeader, Seq<u128>)>,
    h: SystemMessageHeader,
    f: u128,
) -> Seq<(SystemMessageHeader, Seq<u128>)> {
    let a = if has_key(ack, h) {
        ack
    } else {
        ack.push((h, Seq::empty()))
    };
    let s = map_get(a, h);
    if s.contains(f) {
        a
    } else {
        map_put(a, h, s.push(f))
    }
}

/// Whether seeing `f` forward `h` delivers it: `f` is new among its
/// forwarders, the message was not delivered before, and its forwarders,
/// `f` included, are more than half of the `n` processes.
pub open spec fn delivers(
    ack: Seq<(SystemMessageHeader, Seq<u128>)>,
    delivered: Seq<(u128, SystemMessageHeader)>,
    n: usize,
    h: SystemMessageHeader,
    f: u128,
) -> bool {
    let a = if has_key(ack, h) {
        ack
    } else {
        ack.push((h, Seq::empty()))
    };
    let s = map_get(a, h);
    &&& !s.contains(f)
    &&& !delivered.contains((h.message_source_id, h))
    &&& s.len() + 1 > n / 2
}

/// Every forwarder of every received message is recorded among the
/// forwarders of its header.
pub open spec fn all_recorded(received: Seq<Received>, ack: Seq<(SystemMessageHeader, Seq<u128>)>) -> bool {
    forall|j: int|
        0 <= j < received.len() ==> {
            let x = #[trigger] received[j];
            &&& has_key(ack, x.1.0)
            &&& map_get(ack, x.1.0).contains(x.0)
        }
}

/// Every header recorded with more than half of the `n` processes as its
/// forwarders is among the delivered records.
pub open spec fn majority_delivered(
    ack: Seq<(SystemMessageHeader, Seq<u128>)>,
    delivered: Seq<(u128, SystemMessageHeader)>,
    n: usize,
) -> bool {
    forall|h: SystemMessageHeader|
        #[trigger] has_key(ack, h) && map_get(ack, h).len() > n / 2 ==> delivered.contains(
            (h.message_source_id, h),
        )
}

/// What recording `f` as a forwarder of `h` keeps: every header keeps its
/// forwarders, and `h` has `f` among them.
pub proof fn lemma_ack_after_grows(ack: Seq<(SystemMessageHeader, Seq<u128>)>, h: SystemMessageHeader, f: u128)
    requires
        unique_keys(ack),
    ensures
        unique_keys(ack_after(ack, h, f)),
        has_key(ack_after(ack, h, f), h),
        map_get(ack_after(ack, h, f), h).contains(f),
        forall|h2: SystemMessageHeader| has_key(ack, h2) ==> #[trigger] has_key(ack_after(ack, h, f), h2),
        forall|h2: SystemMessageHeader, g: u128|
            has_key(ack, h2) && map_get(ack, h2).contains(g) ==> #[trigger] map_get(ack_after(ack, h, f), h2).contains(g),
{
    let a = if has_key(ack, h) {
        ack
    } else {
        ack.push((h, Seq::empty()))
    };
    if !has_key(ack, h) {
        assert(a == map_put(ack, h, Seq::<u128>::empty()));
        lemma_map_put_remove_unique(ack, h, Seq::<u128>::empty());
    }
    let s = map_get(a, h);
    let a2 = ack_after(ack, h, f);
    if !s.contains(f) {
        lemma_map_put_remove_unique(a, h, s.push(f));
        assert(s.push(f)[s.len() as int] == f);
    }
    assert forall|h2: SystemMessageHeader| has_key(ack, h2) implies #[trigger] has_key(a2, h2) by {
        if h2 != h {
            if !s.contains(f) {
                lemma_map_put_other(a, h, s.push(f), h2);
            }
            if !has_key(ack, h) {
                lemma_map_put_other(ack, h, Seq::<u128>::empty(), h2);
            }
        }
    }
    assert forall|h2: SystemMessageHeader, g: u128| has_key(ack, h2) && map_get(ack, h2).contains(g) implies
        #[trigger] map_get(a2, h2).contains(g) by {
        if h2 == h {
            if !s.contains(f) {
                let k = choose|k: int| 0 <= k < s.len() && s[k] == g;
                assert(s.push(f)[k] == g);
            }
        } else {
            if !s.contains(f) {
                lemma_map_put_other(a, h, s.push(f), h2);
            }
            if !has_key(ack, h) {
                lemma_map_put_other(ack, h, Seq::<u128>::empty(), h2);
            }
        }
    }
}

/// Receiving `m` from `f` and recording `f` keeps every forwarder recorded.
pub proof fn lemma_all_recorded_after(
    r: Seq<Received>,
    ack: Seq<(SystemMessageHeader, Seq<u128>)>,
    f: u128,
    m: (SystemMessageHeader, Seq<u8>),
)
    requires
        all_recorded(r, ack),
        unique_keys(ack),
    ensures
        all_recorded(r.push((f, m)), ack_after(ack, m.0, f)),
{
    lemma_ack_after_grows(ack, m.0, f);
    let r2 = r.push((f, m));
    assert forall|j: int| 0 <= j < r2.len() implies {
        let x = #[trigger] r2[j];
        &&& has_key(ack_after(ack, m.0, f), x.1.0)
        &&& map_get(ack_after(ack, m.0, f), x.1.0).contains(x.0)
    } by {
        if j < r.len() {
            assert(r2[j] == r[j]);
            assert(has_key(ack, r[j].1.0) && map_get(ack, r[j].1.0).contains(r[j].0));
        } else {
            assert(r2[j] == (f, m));
        }
    }
}

/// Recording `f` as a forwarder of `h`, and delivering `h` where that
/// delivers it, keeps every majority delivered.
pub proof fn lemma_majority_after(
    ack: Seq<(SystemMessageHeader, Seq<u128>)>,
    del: Seq<(u128, SystemMessageHeader)>,
    del2: Seq<(u128, SystemMessageHeader)>,
    n: usize,
    h: SystemMessageHeader,
    f: u128,
)
    requires
        majority_delivered(ack, del, n),
        unique_keys(ack),
        forall|x: (u128, SystemMessageHeader)| del.contains(x) ==> #[trigger] del2.contains(x),
        delivers(ack, del, n, h, f) ==> del2.contains((h.message_source_id, h)),
    ensures
        majority_delivered(ack_after(ack, h, f), del2, n),
{
    let a = if has_key(ack, h) {
        ack
    } else {
        ack.push((h, Seq::empty()))
    };
    if !has_key(ack, h) {
        assert(a == map_put(ack, h, Seq::<u128>::empty()));
        lemma_map_put_remove_unique(ack, h, Seq::<u128>::empty());
    }
    let s = map_get(a, h);
    let a2 = ack_after(ack, h, f);
    assert forall|h2: SystemMessageHeader| #[trigger] has_key(a2, h2) && map_get(a2, h2).len() > n / 2 implies del2.contains(
        (h2.message_source_id, h2),
    ) by {
        if h2 == h {
            if s.contains(f) {
                if has_key(ack, h) {
                    assert(del.contains((h.message_source_id, h)));
                } else {
                    assert(!Seq::<u128>::empty().contains(f));
                }
            } else {
                lemma_map_put_remove_unique(a, h, s.push(f));
                if !del.contains((h.message_source_id, h)) {
                    assert(delivers(ack, del, n, h, f));
                }
            }
        } else {
            if !s.contains(f) {
                lemma_map_put_other(a, h, s.push(f), h2);
            }
            if !has_key(ack, h) {
                lemma_map_put_other(ack, h, Seq::<u128>::empty(), h2);
            }
            assert(has_key(ack, h2));
            assert(del.contains((h2.message_source_id, h2)));
        }
    }
}

/// Where every forwarder is recorded and every recorded majority is
/// delivered, a header seen forwarded by distinct processes, more than half
/// of the `n`, is delivered.
pub proof fn lemma_seen_majority_delivered(
    received: Seq<Received>,
    ack: Seq<(SystemMessageHeader, Seq<u128>)>,
    delivered: Seq<(u128, SystemMessageHeader)>,
    n: usize,
    fs: Seq<u128>,
    h: SystemMessageHeader,
)
    requires
        all_recorded(received, ack),
        majority_delivered(ack, delivered, n),
        forall|g: SystemMessageHeader| #[trigger] has_key(ack, g) ==> map_get(ack, g).no_duplicates(),
        seen_by_all(received, received.len() as int, fs, h),
        fs.len() > n / 2,
    ensures
        delivered.contains((h.message_source_id, h)),
{
    assert(forwarded_before(received, received.len() as int, fs[0], h));
    let j0 = choose|j: int| 0 <= j < received.len() && received[j].0 == fs[0] && received[j].1.0 == h;
    assert(has_key(ack, received[j0].1.0));
    let s = map_get(ack, h);
    assert forall|g: u128| fs.to_set().contains(g) implies s.to_set().contains(g) by {
        let t = choose|t: int| 0 <= t < fs.len() && fs[t] == g;
        assert(forwarded_before(received, received.len() as int, fs[t], h));
        let j = choose|j: int| 0 <= j < received.len() && received[j].0 == fs[t] && received[j].1.0 == h;
        assert(map_get(ack, received[j].1.0).contains(received[j].0));
    }
    fs.unique_seq_to_set();
    s.unique_seq_to_set();
    vstd::set_lib::lemma_len_subset(fs.to_set(), s.to_set());
    assert(s.len() > n / 2);
}

proof fn lemma_forwarded_extends(r: Seq<Received>, upto: int, f: u128, h: SystemMessageHeader, x: Received, upto2: int)
    requires
        forwarded_before(r, upto, f, h),
        upto <= upto2,
    ensures
        forwarded_before(r.push(x), upto2, f, h),
{
    let j = choose|j: int| 0 <= j < upto && j < r.len() && r[j].0 == f && r[j].1.0 == h;
    assert(r.push(x)[j] == r[j]);
}

proof fn lemma_seen_extends(r: Seq<Received>, upto: int, fs: Seq<u128>, h: SystemMessageHeader, x: Received, upto2: int)
    requires
        seen_by_all(r, upto, fs, h),
        upto <= upto2,
    ensures
        seen_by_all(r.push(x), upto2, fs, h),
{
    assert forall|t: int| 0 <= t < fs.len() implies #[trigger] forwarded_before(r.push(x), upto2, fs[t], h) by {
        lemma_forwarded_extends(r, upto, fs[t], h, x, upto2);
    }
}

proof fn lemma_quorum_extends(r: Seq<Received>, upto: int, n: usize, h: SystemMessageHeader, x: Received)
    requires
        quorum_seen(r, upto, n, h),
    ensures
        quorum_seen(r.push(x), upto, n, h),
{
    let fs = choose|fs: Seq<u128>| seen_by_all(r, upto, fs, h) && fs.len() > n / 2;
    lemma_seen_extends(r, upto, fs, h, x, upto);
}

/// Receiving a message keeps the history tied to a state that it does not
/// change.
pub proof fn lemma_history_receipt(
    r: Seq<Received>,
    d: Seq<Delivery>,
    del: Seq<(u128, SystemMessageHeader)>,
    ack: Seq<(SystemMessageHeader, Seq<u128>)>,
    n: usize,
    x: Received,
)
    requires
        history_ok(r, d, del, ack, n),
    ensures
        history_ok(r.push(x), d, del, ack, n),
{
    let r2 = r.push(x);
    assert forall|i: int| 0 <= i < d.len() implies delivery_ok(r2, del, n, #[trigger] d[i]) by {
        assert(delivery_ok(r, del, n, d[i]));
        assert(r2[d[i].1 as int] == r[d[i].1 as int]);
        lemma_quorum_extends(r, d[i].1 + 1int, n, d[i].0.0, x);
    }
    assert forall|h: SystemMessageHeader| #[trigger] has_key(ack, h) implies seen_by_all(
        r2,
        r2.len() as int,
        map_get(ack, h),
        h,
    ) by {
        lemma_seen_extends(r, r.len() as int, map_get(ack, h), h, x, r2.len() as int);
    }
}

/// Receiving a message from `f` with header `m.0`, and recording `f` as one
/// of its forwarders, keeps the history tied to the state.
pub proof fn lemma_history_new_forwarder(
    r: Seq<Received>,
    d: Seq<Delivery>,
    del: Seq<(u128, SystemMessageHeader)>,
    ack: Seq<(SystemMessageHeader, Seq<u128>)>,
    n: usize,
    f: u128,
    m: (SystemMessageHeader, Seq<u8>),
)
    requires
        history_ok(r, d, del, ack, n),
        unique_keys(ack),
    ensures
        history_ok(r.push((f, m)), d, del, ack_after(ack, m.0, f), n),
{
    let x = (f, m);
    let h = m.0;
    lemma_history_receipt(r, d, del, ack, n, x);
    let r2 = r.push(x);
    let a = if has_key(ack, h) {
        ack
    } else {
        ack.push((h, Seq::empty()))
    };
    if !has_key(ack, h) {
        assert(a == map_put(ack, h, Seq::<u128>::empty()));
        lemma_map_put_remove_unique(ack, h, Seq::<u128>::empty());
    }
    let s = map_get(a, h);
    let a2 = ack_after(ack, h, f);
    assert(r2[r.len() as int] == x);
    assert(forwarded_before(r2, r2.len() as int, f, h));
    assert(seen_by_all(r2, r2.len() as int, s, h)) by {
        if !has_key(ack, h) {
            assert(s =~= Seq::<u128>::empty());
        }
    }
    assert forall|h2: SystemMessageHeader| #[trigger] has_key(a2, h2) implies seen_by_all(
        r2,
        r2.len() as int,
        map_get(a2, h2),
        h2,
    ) by {
        if h2 == h {
            if !s.contains(f) {
                lemma_map_put_remove_unique(a, h, s.push(f));
                let t = s.push(f);
                assert forall|i: int, j: int| 0 <= i < j < t.len() implies t[i] != t[j] by {
                    if j == s.len() {
                        assert(t[i] == s[i]);
                        assert(s.contains(s[i]));
                    } else {
                        assert(t[i] == s[i]);
                        assert(t[j] == s[j]);
                    }
                }
                assert forall|k: int| 0 <= k < t.len() implies #[trigger] forwarded_before(
                    r2,
                    r2.len() as int,
                    t[k],
                    h,
                ) by {
                    if k < s.len() {
                        assert(t[k] == s[k]);
                    }
                }
            }
        } else {
            if !s.contains(f) {
                lemma_map_put_other(a, h, s.push(f), h2);
            }
            if !has_key(ack, h) {
                lemma_map_put_other(ack, h, Seq::<u128>::empty(), h2);
            }
            assert(has_key(ack, h2));
        }
    }
}

/// Delivering the last received message, `m` forwarded by `f`, where more
/// than half of the processes are recorded as its forwarders and it was not
/// delivered before, keeps the history tied to the state.
pub proof fn lemma_history_delivery(
    r: Seq<Received>,
    d: Seq<Delivery>,
    del: Seq<(u128, SystemMessageHeader)>,
    ack: Seq<(SystemMessageHeader, Seq<u128>)>,
    n: usize,
    f: u128,
    m: (SystemMessageHeader, Seq<u8>),
)
    requires
        history_ok(r, d, del, ack, n),
        r.len() >= 1,
        r.last() == (f, m),
        has_key(ack, m.0),
        map_get(ack, m.0).len() > n / 2,
        !del.contains((m.0.message_source_id, m.0)),
    ensures
        history_ok(
            r,
            d.push((m, (r.len() - 1) as nat)),
            del.push((m.0.message_source_id, m.0)),
            ack,
            n,
        ),
{
    let h = m.0;
    let e = (h.message_source_id, h);
    let del2 = del.push(e);
    let k = (r.len() - 1) as nat;
    let d2 = d.push((m, k));
    assert forall|i: int| 0 <= i < d2.len() implies delivery_ok(r, del2, n, #[trigger] d2[i]) by {
        if i < d.len() {
            assert(d2[i] == d[i]);
            assert(delivery_ok(r, del, n, d[i]));
            let j = choose|j: int| 0 <= j < del.len() && del[j] == (d[i].0.0.message_source_id, d[i].0.0);
            assert(del2[j] == del[j]);
        } else {
            assert(d2[i] == (m, k));
            let fs = map_get(ack, h);
            assert(seen_by_all(r, r.len() as int, fs, h));
            assert(seen_by_all(r, k + 1int, fs, h));
            assert(del2[del.len() as int] == e);
        }
    }
    assert forall|i: int, j: int| 0 <= i < j < d2.len() implies (#[trigger] d2[i]).0.0 != (#[trigger] d2[j]).0.0 by {
        assert(d2[i] == d[i]);
        if j == d.len() {
            assert(delivery_ok(r, del, n, d[i]));
        } else {
            assert(d2[j] == d[j]);
        }
    }
}

} // verus!
