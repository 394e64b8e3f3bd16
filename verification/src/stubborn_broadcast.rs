//! Stubborn broadcast: a message is sent to every process, and sent again
//! on every tick to each process that has not acknowledged it yet.
use crate::assoc::{find_key, has_key, lemma_key_pos, lemma_map_put_remove_unique, lemma_view_pairs, map_get, map_put, unique_keys, view_pairs};
use crate::domain::{
    PlainSenderMessage, PlainSenderMessageView, SystemAcknowledgmentMessage, SystemBroadcastMessage,
    SystemMessageHeader,
};
use vstd::prelude::*;

verus! {

/// Messages to send, each with the process it goes to, taken by their views.
pub open spec fn sends_view(v: Seq<(u128, PlainSenderMessage)>) -> Seq<(u128, PlainSenderMessageView)> {
    v.map_values(|p: (u128, PlainSenderMessage)| (p.0, p.1@))
}

/// `s` with the pair (`id`, `p`) added for each process `p` of `others`, in
/// order, where it is not there yet.
pub open spec fn add_pairs(
    s: Seq<(SystemMessageHeader, u128)>,
    id: SystemMessageHeader,
    others: Seq<u128>,
) -> Seq<(SystemMessageHeader, u128)>
    decreases others.len(),
{
    if others.len() == 0 {
        s
    } else {
        let t = add_pairs(s, id, others.drop_last());
        if t.contains((id, others.last())) {
            t
        } else {
            t.push((id, others.last()))
        }
    }
}

/// `s` without `x`.
pub open spec fn remove_value<A>(s: Seq<A>, x: A) -> Seq<A> {
    if s.contains(x) {
        s.remove(s.index_of(x))
    } else {
        s
    }
}

/// `s` after the processes `acks`, in order, acknowledged the message with
/// header `h`.
pub open spec fn after_acks(
    s: Seq<(SystemMessageHeader, u128)>,
    h: SystemMessageHeader,
    acks: Seq<u128>,
) -> Seq<(SystemMessageHeader, u128)>
    decreases acks.len(),
{
    if acks.len() == 0 {
        s
    } else {
        remove_value(after_acks(s, h, acks.drop_last()), (h, acks.last()))
    }
}

/// A message is sent again until acknowledged: after a broadcast of a
/// message with header `h` to the processes `processes` from the pairs
/// `s` not acknowledged yet, followed by the acknowledgments of the
/// processes `acks` for it, each pair is left at most once; a pair of
/// header `h` is left exactly for the processes, of `processes` or already
/// left for `h`, that are not in `acks`; the pairs of other headers are
/// those of `s`. Each tick sends the message once over each pair left.
pub proof fn law_resent_until_acknowledged(
    s: Seq<(SystemMessageHeader, u128)>,
    h: SystemMessageHeader,
    processes: Seq<u128>,
    acks: Seq<u128>,
)
    requires
        s.no_duplicates(),
    ensures
        after_acks(add_pairs(s, h, processes), h, acks).no_duplicates(),
        forall|p: u128|
            #[trigger] after_acks(add_pairs(s, h, processes), h, acks).contains((h, p)) <==> (processes.contains(p)
                || s.contains((h, p))) && !acks.contains(p),
        forall|x: (SystemMessageHeader, u128)|
            x.0 != h ==> (#[trigger] after_acks(add_pairs(s, h, processes), h, acks).contains(x) <==> s.contains(x)),
{
    lemma_add_pairs_exact(s, h, processes);
    lemma_after_acks(add_pairs(s, h, processes), h, acks);
}

/// The pairs added are exactly those of `id` with each of `others`, and
/// none is added twice.
proof fn lemma_add_pairs_exact(s: Seq<(SystemMessageHeader, u128)>, id: SystemMessageHeader, others: Seq<u128>)
    requires
        s.no_duplicates(),
    ensures
        add_pairs(s, id, others).no_duplicates(),
        forall|x: (SystemMessageHeader, u128)|
            #[trigger] add_pairs(s, id, others).contains(x) <==> s.contains(x) || (x.0 == id && others.contains(x.1)),
    decreases others.len(),
{
    if others.len() > 0 {
        let init = others.drop_last();
        lemma_add_pairs_exact(s, id, init);
        let t = add_pairs(s, id, init);
        let y = (id, others.last());
        let u = add_pairs(s, id, others);
        if !t.contains(y) {
            assert forall|a: int, b: int| 0 <= a < b < u.len() implies u[a] != u[b] by {
                if b == t.len() {
                    assert(u[a] == t[a]);
                    assert(t.contains(t[a]));
                } else {
                    assert(u[a] == t[a]);
                    assert(u[b] == t[b]);
                }
            }
        }
        assert forall|x: (SystemMessageHeader, u128)| #[trigger] u.contains(x) <==> s.contains(x) || (x.0 == id
            && others.contains(x.1)) by {
            if u.contains(x) {
                let k = choose|k: int| 0 <= k < u.len() && u[k] == x;
                if !t.contains(y) && k == t.len() {
                    assert(others[others.len() - 1] == x.1);
                } else {
                    assert(t[k] == x);
                    assert(t.contains(x));
                    if !s.contains(x) {
                        let j = choose|j: int| 0 <= j < init.len() && init[j] == x.1;
                        assert(others[j] == x.1);
                    }
                }
            }
            if s.contains(x) || (x.0 == id && others.contains(x.1)) {
                if !s.contains(x) {
                    let j = choose|j: int| 0 <= j < others.len() && others[j] == x.1;
                    if j < init.len() {
                        assert(init[j] == x.1);
                    } else {
                        assert(x == y);
                    }
                }
                if t.contains(x) && !t.contains(y) {
                    let k = choose|k: int| 0 <= k < t.len() && t[k] == x;
                    assert(u[k] == x);
                }
                if !t.contains(y) && x == y {
                    assert(u[t.len() as int] == y);
                }
            }
        }
    }
}

/// Removing `x` from a sequence without repetitions removes it and nothing
/// else.
proof fn lemma_remove_value<A>(s: Seq<A>, x: A)
    requires
        s.no_duplicates(),
    ensures
        remove_value(s, x).no_duplicates(),
        forall|y: A| #[trigger] remove_value(s, x).contains(y) <==> s.contains(y) && y != x,
{
    if s.contains(x) {
        let i = s.index_of(x);
        let r = s.remove(i);
        assert(s[i] == x);
        assert forall|a: int, b: int| 0 <= a < b < r.len() implies r[a] != r[b] by {
            let a1 = if a < i { a } else { a + 1 };
            let b1 = if b < i { b } else { b + 1 };
            assert(r[a] == s[a1]);
            assert(r[b] == s[b1]);
        }
        assert forall|y: A| #[trigger] r.contains(y) <==> s.contains(y) && y != x by {
            if r.contains(y) {
                let k = choose|k: int| 0 <= k < r.len() && r[k] == y;
                let k1 = if k < i { k } else { k + 1 };
                assert(r[k] == s[k1]);
                assert(k1 != i);
            }
            if s.contains(y) && y != x {
                let k = choose|k: int| 0 <= k < s.len() && s[k] == y;
                assert(k != i);
                let k1 = if k < i { k } else { k - 1 };
                assert(r[k1] == s[k]);
            }
        }
    }
}

/// After the acknowledgments `acks` for `h`, the pairs left are those of
/// `s` but those of `h` with a process of `acks`.
proof fn lemma_after_acks(s: Seq<(SystemMessageHeader, u128)>, h: SystemMessageHeader, acks: Seq<u128>)
    requires
        s.no_duplicates(),
    ensures
        after_acks(s, h, acks).no_duplicates(),
        forall|x: (SystemMessageHeader, u128)|
            #[trigger] after_acks(s, h, acks).contains(x) <==> s.contains(x) && !(x.0 == h && acks.contains(
                x.1,
            )),
    decreases acks.len(),
{
    if acks.len() > 0 {
        let init = acks.drop_last();
        lemma_after_acks(s, h, init);
        lemma_remove_value(after_acks(s, h, init), (h, acks.last()));
        assert forall|x: (SystemMessageHeader, u128)| #[trigger] after_acks(s, h, acks).contains(x) <==> s.contains(x)
            && !(x.0 == h && acks.contains(x.1)) by {
            if acks.contains(x.1) {
                let j = choose|j: int| 0 <= j < acks.len() && acks[j] == x.1;
                if j < init.len() {
                    assert(init[j] == x.1);
                }
            }
            if init.contains(x.1) {
                let j = choose|j: int| 0 <= j < init.len() && init[j] == x.1;
                assert(acks[j] == x.1);
            }
        }
    }
}

/// The state of a stubborn broadcast process.
pub struct MyStubbornBroadcast {
    all_others: Vec<u128>,
    still_left: Vec<(SystemMessageHeader, u128)>,
    messages: Vec<(SystemMessageHeader, SystemBroadcastMessage)>,
}

impl MyStubbornBroadcast {
    /// The processes that messages go to.
    pub closed spec fn processes(&self) -> Seq<u128> {
        self.all_others@
    }

    /// The (message header, process) pairs not acknowledged yet, in order.
    pub closed spec fn still_left_v(&self) -> Seq<(SystemMessageHeader, u128)> {
        self.still_left@
    }

    /// The last message broadcast with each message header.
    pub closed spec fn messages_v(&self) -> Seq<(SystemMessageHeader, (u128, (SystemMessageHeader, Seq<u8>)))> {
        view_pairs(self.messages@)
    }

    /// Nothing is there twice, and every pair not acknowledged yet names a
    /// message that is held.
    pub closed spec fn wf(&self) -> bool {
        &&& self.all_others@.no_duplicates()
        &&& self.still_left@.no_duplicates()
        &&& unique_keys(self.messages@)
        &&& forall|i: int|
            0 <= i < self.still_left@.len() ==> has_key(self.messages@, #[trigger] self.still_left@[i].0)
    }

    /// Sends `msg` to every process, and keeps it to send again to each of
    /// them until it acknowledges it.
    pub fn broadcast(&mut self, msg: SystemBroadcastMessage) -> (r: Vec<(u128, PlainSenderMessage)>)
        requires
            old(self).wf(),
        ensures
            final(self).wf(),
            final(self).processes() == old(self).processes(),
            final(self).messages_v() == map_put(old(self).messages_v(), msg.message.header, msg@),
            final(self).still_left_v() == add_pairs(
                old(self).still_left_v(),
                msg.message.header,
                old(self).processes(),
            ),
            sends_view(r@) == old(self).processes().map_values(
                |p: u128| (p, PlainSenderMessageView::Broadcast(msg@)),
            ),
            forall|p: u128|
                old(self).processes().contains(p) ==> #[trigger] final(self).still_left_v().contains(
                    (msg.message.header, p),
                ),
    {
        let id = msg.message.header;
        let ghost old_messages = self.messages@;
        proof {
            lemma_view_pairs(old_messages);
        }
        match find_key(&self.messages, id) {
            Some(i) => {
                self.messages.set(i, (id, msg.duplicate()));
                proof {
                    lemma_key_pos(view_pairs(old_messages), id, i as int);
                    lemma_view_pairs(self.messages@);
                    assert(view_pairs(self.messages@) =~= view_pairs(old_messages).update(i as int, (id, msg@)));
                    lemma_map_put_remove_unique(view_pairs(old_messages), id, msg@);
                }
            },
            None => {
                self.messages.push((id, msg.duplicate()));
                proof {
                    lemma_view_pairs(self.messages@);
                    assert(view_pairs(self.messages@) =~= view_pairs(old_messages).push((id, msg@)));
                    lemma_map_put_remove_unique(view_pairs(old_messages), id, msg@);
                }
            },
        }
        proof {
            lemma_view_pairs(self.messages@);
            assert(has_key(self.messages@, id)) by {
                assert(has_key(view_pairs(self.messages@), id));
            }
            assert forall|k: SystemMessageHeader| has_key(old_messages, k) implies has_key(self.messages@, k) by {
                assert(has_key(view_pairs(old_messages), k));
                lemma_map_put_remove_unique(view_pairs(old_messages), id, msg@);
                if k != id {
                    let j = choose|j: int| 0 <= j < old_messages.len() && old_messages[j].0 == k;
                    let vp = view_pairs(old_messages);
                    let np = map_put(vp, id, msg@);
                    if has_key(vp, id) {
                        assert(np[j].0 == k);
                    } else {
                        assert(np[j].0 == k);
                    }
                    assert(has_key(view_pairs(self.messages@), k));
                }
            }
        }
        let mut sends: Vec<(u128, PlainSenderMessage)> = Vec::new();
        let ghost start = self.still_left@;
        let mut i: usize = 0;
        while i < self.all_others.len()
            invariant
                i <= self.all_others@.len(),
                self.all_others@ == old(self).all_others@,
                self.all_others@.no_duplicates(),
                unique_keys(self.messages@),
                has_key(self.messages@, id),
                view_pairs(self.messages@) == map_put(view_pairs(old_messages), id, msg@),
                self.still_left@.no_duplicates(),
                forall|j: int|
                    0 <= j < self.still_left@.len() ==> has_key(self.messages@, #[trigger] self.still_left@[j].0),
                self.still_left@ == add_pairs(start, id, self.all_others@.subrange(0, i as int)),
                sends_view(sends@) == self.all_others@.subrange(0, i as int).map_values(
                    |p: u128| (p, PlainSenderMessageView::Broadcast(msg@)),
                ),
            decreases self.all_others@.len() - i,
        {
            let other = self.all_others[i];
            let ghost next = self.all_others@.subrange(0, i + 1);
            proof {
                assert(next.drop_last() =~= self.all_others@.subrange(0, i as int));
                assert(next.last() == other);
            }
            if !contains_pair(&self.still_left, (id, other)) {
                let ghost before = self.still_left@;
                self.still_left.push((id, other));
                proof {
                    assert forall|a: int, b: int| 0 <= a < b < self.still_left@.len() implies self.still_left@[a]
                        != self.still_left@[b] by {
                        if b == before.len() {
                            assert(before[a] == self.still_left@[a]);
                        }
                    }
                    assert forall|j: int| 0 <= j < self.still_left@.len() implies has_key(
                        self.messages@,
                        #[trigger] self.still_left@[j].0,
                    ) by {
                        if j < before.len() {
                            assert(before[j] == self.still_left@[j]);
                        }
                    }
                }
            }
            let ghost before_sends = sends_view(sends@);
            sends.push((other, PlainSenderMessage::Broadcast(msg.duplicate())));
            proof {
                assert(sends_view(sends@) =~= before_sends.push((other, PlainSenderMessageView::Broadcast(msg@))));
                assert(next.map_values(|p: u128| (p, PlainSenderMessageView::Broadcast(msg@))) =~= self.all_others@.subrange(0, i as int).map_values(|p: u128| (p, PlainSenderMessageView::Broadcast(msg@))).push((other, PlainSenderMessageView::Broadcast(msg@))));
            }
            i = i + 1;
        }
        proof {
            assert(self.all_others@.subrange(0, i as int) =~= self.all_others@);
            lemma_add_pairs_contains(start, id, self.all_others@);
        }
        sends
    }

    /// Records that `proc` acknowledged the message with header `msg`: it is
    /// no longer sent to it again.
    pub fn receive_acknowledgment(&mut self, proc: u128, msg: SystemMessageHeader)
        requires
            old(self).wf(),
        ensures
            final(self).wf(),
            final(self).processes() == old(self).processes(),
            final(self).messages_v() == old(self).messages_v(),
            final(self).still_left_v() == remove_value(old(self).still_left_v(), (msg, proc)),
            !final(self).still_left_v().contains((msg, proc)),
    {
        let x = (msg, proc);
        let ghost before = self.still_left@;
        match index_of_pair(&self.still_left, x) {
            Some(i) => {
                self.still_left.remove(i);
                proof {
                    assert(before.index_of(x) == i) by {
                        assert(before[i as int] == x);
                        assert(before.contains(x));
                        let f = before.index_of(x);
                        assert(before[f] == x);
                    }
                    assert forall|a: int, b: int| 0 <= a < b < self.still_left@.len() implies self.still_left@[a]
                        != self.still_left@[b] by {
                        let a1 = if a < i { a } else { a + 1 };
                        let b1 = if b < i { b } else { b + 1 };
                        assert(self.still_left@[a] == before[a1]);
                        assert(self.still_left@[b] == before[b1]);
                    }
                    assert forall|j: int| 0 <= j < self.still_left@.len() implies has_key(
                        self.messages@,
                        #[trigger] self.still_left@[j].0,
                    ) by {
                        let j1 = if j < i { j } else { j + 1 };
                        assert(self.still_left@[j] == before[j1]);
                    }
                    if self.still_left@.contains(x) {
                        let j = choose|j: int| 0 <= j < self.still_left@.len() && self.still_left@[j] == x;
                        let j1 = if j < i { j } else { j + 1 };
                        assert(self.still_left@[j] == before[j1]);
                    }
                }
            },
            None => {},
        }
    }

    /// The acknowledgment `msg` to send to `proc`.
    pub fn send_acknowledgment(&self, proc: u128, msg: SystemAcknowledgmentMessage) -> (r: (u128, PlainSenderMessage))
        ensures
            r.0 == proc,
            r.1@ == PlainSenderMessageView::Acknowledge(msg),
    {
        (proc, PlainSenderMessage::Acknowledge(msg))
    }

    /// Sends again every message not acknowledged yet: for each pair
    /// (message header, process) not acknowledged, in order, the message
    /// held under that header, to that process.
    pub fn tick(&self) -> (r: Vec<(u128, PlainSenderMessage)>)
        requires
            self.wf(),
        ensures
            sends_view(r@) == self.still_left_v().map_values(
                |p: (SystemMessageHeader, u128)| (p.1, PlainSenderMessageView::Broadcast(map_get(self.messages_v(), p.0))),
            ),
    {
        let mut sends: Vec<(u128, PlainSenderMessage)> = Vec::new();
        let mut i: usize = 0;
        proof {
            lemma_view_pairs(self.messages@);
        }
        while i < self.still_left.len()
            invariant
                i <= self.still_left@.len(),
                self.wf(),
                sends_view(sends@) == self.still_left@.subrange(0, i as int).map_values(
                    |p: (SystemMessageHeader, u128)| (p.1, PlainSenderMessageView::Broadcast(map_get(view_pairs(self.messages@), p.0))),
                ),
            decreases self.still_left@.len() - i,
        {
            let (hdr, proc) = self.still_left[i];
            assert(has_key(self.messages@, self.still_left@[i as int].0));
            let j = match find_key(&self.messages, hdr) {
                Some(j) => j,
                None => {
                    assert(false);
                    0
                },
            };
            proof {
                lemma_view_pairs(self.messages@);
                lemma_key_pos(view_pairs(self.messages@), hdr, j as int);
            }
            let ghost before = sends_view(sends@);
            sends.push((proc, PlainSenderMessage::Broadcast(self.messages[j].1.duplicate())));
            proof {
                let f = |p: (SystemMessageHeader, u128)| (p.1, PlainSenderMessageView::Broadcast(map_get(view_pairs(self.messages@), p.0)));
                assert(sends_view(sends@) =~= before.push(f(self.still_left@[i as int])));
                assert(self.still_left@.subrange(0, i + 1).map_values(f) =~= self.still_left@.subrange(0, i as int).map_values(f).push(f(self.still_left@[i as int])));
            }
            i = i + 1;
        }
        proof {
            assert(self.still_left@.subrange(0, i as int) =~= self.still_left@);
        }
        sends
    }
}

/// A stubborn broadcast to the processes `processes`, with nothing sent yet.
pub fn build_stubborn_broadcast(processes: Vec<u128>) -> (r: MyStubbornBroadcast)
    requires
        processes@.no_duplicates(),
    ensures
        r.wf(),
        r.processes() == processes@,
        r.still_left_v().len() == 0,
        r.messages_v().len() == 0,
{
    let r = MyStubbornBroadcast { all_others: processes, still_left: Vec::new(), messages: Vec::new() };
    proof {
        lemma_view_pairs(r.messages@);
    }
    r
}

/// Whether `v` holds `x`.
fn contains_pair(v: &Vec<(SystemMessageHeader, u128)>, x: (SystemMessageHeader, u128)) -> (r: bool)
    ensures
        r == v@.contains(x),
{
    match index_of_pair(v, x) {
        Some(i) => {
            assert(v@[i as int] == x);
            true
        },
        None => false,
    }
}

/// The first place of `x` in `v`, if any.
fn index_of_pair(v: &Vec<(SystemMessageHeader, u128)>, x: (SystemMessageHeader, u128)) -> (r: Option<usize>)
    ensures
        r is None <==> !v@.contains(x),
        r matches Some(i) ==> i < v@.len() && v@[i as int] == x,
{
    let mut i: usize = 0;
    while i < v.len()
        invariant
            i <= v@.len(),
            forall|j: int| 0 <= j < i ==> v@[j] != x,
        decreases v@.len() - i,
    {
        let y = v[i];
        if y.0 == x.0 && y.1 == x.1 {
            return Some(i);
        }
        i = i + 1;
    }
    None
}

/// After the pairs are added, each process is paired with the message.
proof fn lemma_add_pairs_contains(s: Seq<(SystemMessageHeader, u128)>, id: SystemMessageHeader, others: Seq<u128>)
    ensures
        forall|p: u128| others.contains(p) ==> #[trigger] add_pairs(s, id, others).contains((id, p)),
        forall|x: (SystemMessageHeader, u128)| s.contains(x) ==> #[trigger] add_pairs(s, id, others).contains(x),
    decreases others.len(),
{
    if others.len() > 0 {
        let init = others.drop_last();
        lemma_add_pairs_contains(s, id, init);
        let t = add_pairs(s, id, init);
        assert forall|p: u128| others.contains(p) implies #[trigger] add_pairs(s, id, others).contains((id, p)) by {
            let j = choose|j: int| 0 <= j < others.len() && others[j] == p;
            if j < init.len() {
                assert(init[j] == p);
                assert(init.contains(p));
                assert(t.contains((id, p)));
                if !t.contains((id, others.last())) {
                    let k = choose|k: int| 0 <= k < t.len() && t[k] == (id, p);
                    assert(t.push((id, others.last()))[k] == (id, p));
                }
            } else {
                if !t.contains((id, others.last())) {
                    assert(t.push((id, others.last()))[t.len() as int] == (id, p));
                }
            }
        }
        assert forall|x: (SystemMessageHeader, u128)| s.contains(x) implies #[trigger] add_pairs(s, id, others).contains(x) by {
            assert(t.contains(x));
            if !t.contains((id, others.last())) {
                let k = choose|k: int| 0 <= k < t.len() && t[k] == x;
                assert(t.push((id, others.last()))[k] == x);
            }
        }
    }
}

} // verus!
