//! Byte encodings of headers, messages and the records kept in stable
//! storage.
use crate::bytes::{be_value, lemma_be_round_trip_u128, lemma_be_value_bound, lemma_pow256_16};
use crate::domain::{SystemMessage, SystemMessageContent, SystemMessageHeader};
use crate::ids::{id_bytes, uuid_as_bytes, uuid_from_bytes, uuid_text, uuid_to_text};
use vstd::prelude::*;

verus! {

/// Bytes that an identifier takes.
pub const TRANSFORM_BYTES_SIZE: usize = 16;

/// The bytes of a header: the source's identifier, then the message's.
pub open spec fn hdr_bytes(h: SystemMessageHeader) -> Seq<u8> {
    id_bytes(h.message_source_id) + id_bytes(h.message_id)
}

/// The identifier whose bytes start at `start`.
pub open spec fn id_at(b: Seq<u8>, start: int) -> u128 {
    be_value(b.subrange(start, start + 16)) as u128
}

/// The header whose bytes start at `start`.
pub open spec fn hdr_at(b: Seq<u8>, start: int) -> SystemMessageHeader {
    SystemMessageHeader { message_source_id: id_at(b, start), message_id: id_at(b, start + 16) }
}

/// The bytes of a message: its header, then its payload.
pub open spec fn msg_bytes(m: (SystemMessageHeader, Seq<u8>)) -> Seq<u8> {
    hdr_bytes(m.0) + m.1
}

/// The message that bytes of at least a header's length denote.
pub open spec fn msg_from(b: Seq<u8>) -> (SystemMessageHeader, Seq<u8>) {
    (hdr_at(b, 0), b.subrange(32, b.len() as int))
}

/// The bytes of a (process, header) record.
pub open spec fn entry_bytes(e: (u128, SystemMessageHeader)) -> Seq<u8> {
    id_bytes(e.0) + hdr_bytes(e.1)
}

/// The record whose bytes start at `start`.
pub open spec fn entry_at(b: Seq<u8>, start: int) -> (u128, SystemMessageHeader) {
    (id_at(b, start), hdr_at(b, start + 16))
}

/// The text key under which a message is stored: the hyphenated texts of
/// its source and of its identifier.
pub open spec fn hdr_text(h: SystemMessageHeader) -> Seq<char> {
    uuid_text(h.message_source_id) + uuid_text(h.message_id)
}

proof fn lemma_id_bytes(id: u128)
    ensures
        id_bytes(id).len() == 16,
        be_value(id_bytes(id)) == id,
{
    lemma_be_round_trip_u128(id);
}

/// Sixteen bytes denote a `u128`.
proof fn lemma_id_fits(b: Seq<u8>)
    requires
        b.len() == 16,
    ensures
        be_value(b) <= u128::MAX,
{
    lemma_be_value_bound(b);
    lemma_pow256_16();
}

/// The identifier is read back from its bytes wherever they stand.
pub proof fn lemma_id_at(b: Seq<u8>, start: int, id: u128)
    requires
        0 <= start,
        start + 16 <= b.len(),
        b.subrange(start, start + 16) == id_bytes(id),
    ensures
        id_at(b, start) == id,
{
    lemma_id_bytes(id);
}

/// A header is read back from its bytes wherever they stand.
pub proof fn lemma_hdr_at(b: Seq<u8>, start: int, h: SystemMessageHeader)
    requires
        0 <= start,
        start + 32 <= b.len(),
        b.subrange(start, start + 32) == hdr_bytes(h),
    ensures
        hdr_at(b, start) == h,
{
    lemma_id_bytes(h.message_source_id);
    lemma_id_bytes(h.message_id);
    assert(b.subrange(start, start + 16) =~= b.subrange(start, start + 32).subrange(0, 16));
    assert(b.subrange(start + 16, start + 32) =~= b.subrange(start, start + 32).subrange(16, 32));
    assert(hdr_bytes(h).subrange(0, 16) =~= id_bytes(h.message_source_id));
    assert(hdr_bytes(h).subrange(16, 32) =~= id_bytes(h.message_id));
    lemma_id_at(b, start, h.message_source_id);
    lemma_id_at(b, start + 16, h.message_id);
}

pub proof fn lemma_hdr_bytes_len(h: SystemMessageHeader)
    ensures
        hdr_bytes(h).len() == 32,
{
    lemma_id_bytes(h.message_source_id);
    lemma_id_bytes(h.message_id);
}

pub proof fn lemma_entry_bytes_len(e: (u128, SystemMessageHeader))
    ensures
        entry_bytes(e).len() == 48,
{
    lemma_id_bytes(e.0);
    lemma_hdr_bytes_len(e.1);
}

/// A record is read back from its bytes wherever they stand.
pub proof fn lemma_entry_at(b: Seq<u8>, start: int, e: (u128, SystemMessageHeader))
    requires
        0 <= start,
        start + 48 <= b.len(),
        b.subrange(start, start + 48) == entry_bytes(e),
    ensures
        entry_at(b, start) == e,
{
    lemma_id_bytes(e.0);
    lemma_hdr_bytes_len(e.1);
    assert(b.subrange(start, start + 16) =~= b.subrange(start, start + 48).subrange(0, 16));
    assert(b.subrange(start + 16, start + 48) =~= b.subrange(start, start + 48).subrange(16, 48));
    assert(entry_bytes(e).subrange(0, 16) =~= id_bytes(e.0));
    assert(entry_bytes(e).subrange(16, 48) =~= hdr_bytes(e.1));
    lemma_id_at(b, start, e.0);
    lemma_hdr_at(b, start + 16, e.1);
}

/// Appends `bytes` to `v`.
pub(crate) fn push_all(v: &mut Vec<u8>, bytes: &[u8])
    ensures
        final(v)@ == old(v)@ + bytes@,
{
    let mut i: usize = 0;
    while i < bytes.len()
        invariant
            i <= bytes@.len(),
            v@ == old(v)@ + bytes@.subrange(0, i as int),
        decreases bytes@.len() - i,
    {
        v.push(bytes[i]);
        i = i + 1;
        assert(v@ =~= old(v)@ + bytes@.subrange(0, i as int));
    }
    assert(bytes@.subrange(0, i as int) =~= bytes@);
}

/// The sixteen bytes of `bytes` that start at `start`.
fn take_16(bytes: &[u8], start: usize) -> (a: [u8; 16])
    requires
        start + 16 <= bytes@.len(),
    ensures
        a@ == bytes@.subrange(start as int, start + 16),
{
    let mut a = [0u8; 16];
    let n = bytes.len();
    let mut i: usize = 0;
    while i < 16
        invariant
            i <= 16,
            n == bytes@.len(),
            start + 16 <= bytes@.len(),
            forall|j: int| 0 <= j < i ==> a@[j] == bytes@[start + j],
        decreases 16 - i,
    {
        a[i] = bytes[start + i];
        i = i + 1;
    }
    assert(a@ =~= bytes@.subrange(start as int, start + 16));
    a
}

/// The identifier whose bytes start at `start`.
fn read_id(bytes: &[u8], start: usize) -> (id: u128)
    requires
        start + 16 <= bytes@.len(),
    ensures
        id == id_at(bytes@, start as int),
{
    let a = take_16(bytes, start);
    proof {
        lemma_id_fits(a@);
    }
    uuid_from_bytes(a)
}

/// The bytes of a header.
pub fn serialize_hdr(header: SystemMessageHeader) -> (r: Vec<u8>)
    ensures
        r@ == hdr_bytes(header),
{
    let mut v: Vec<u8> = Vec::new();
    let a = uuid_as_bytes(header.message_source_id);
    push_all(&mut v, &a);
    let b = uuid_as_bytes(header.message_id);
    push_all(&mut v, &b);
    assert(v@ =~= hdr_bytes(header));
    v
}

/// The text key of a header.
pub fn hdr_to_string(header: SystemMessageHeader) -> (r: String)
    ensures
        r@ == hdr_text(header),
{
    let source = uuid_to_text(header.message_source_id);
    let id = uuid_to_text(header.message_id);
    source.concat(id.as_str())
}

/// The header whose bytes open `bytes`.
pub fn deserialize_hdr(bytes: &[u8]) -> (h: SystemMessageHeader)
    requires
        bytes@.len() >= 2 * TRANSFORM_BYTES_SIZE,
    ensures
        h == hdr_at(bytes@, 0),
{
    let source = read_id(bytes, 0);
    let id = read_id(bytes, TRANSFORM_BYTES_SIZE);
    SystemMessageHeader { message_source_id: source, message_id: id }
}

/// The bytes of a (process, header) record.
pub fn serialize_hdr_with_uuid(uuid: u128, hdr: SystemMessageHeader) -> (r: Vec<u8>)
    ensures
        r@ == entry_bytes((uuid, hdr)),
{
    let mut v: Vec<u8> = Vec::new();
    let a = uuid_as_bytes(uuid);
    push_all(&mut v, &a);
    let h = serialize_hdr(hdr);
    push_all(&mut v, h.as_slice());
    v
}

/// The (process, header) record whose bytes open `bytes`.
pub fn deserialize_hdr_with_uuid(bytes: &[u8]) -> (r: (u128, SystemMessageHeader))
    requires
        bytes@.len() >= 3 * TRANSFORM_BYTES_SIZE,
    ensures
        r == entry_at(bytes@, 0),
{
    let id = read_id(bytes, 0);
    let source = read_id(bytes, TRANSFORM_BYTES_SIZE);
    let mid = read_id(bytes, 2 * TRANSFORM_BYTES_SIZE);
    (id, SystemMessageHeader { message_source_id: source, message_id: mid })
}

/// The bytes of a message.
pub fn serialize_msg(msg: &SystemMessage) -> (r: Vec<u8>)
    ensures
        r@ == msg_bytes(msg@),
{
    let mut v = serialize_hdr(msg.header);
    push_all(&mut v, msg.data.msg.as_slice());
    v
}

/// The message that `bytes` denote: a header, then the payload.
pub fn deserialize_msg(bytes: &[u8]) -> (m: SystemMessage)
    requires
        bytes@.len() >= 2 * TRANSFORM_BYTES_SIZE,
    ensures
        m@ == msg_from(bytes@),
{
    let header = deserialize_hdr(bytes);
    let mut msg: Vec<u8> = Vec::new();
    let mut i: usize = 2 * TRANSFORM_BYTES_SIZE;
    while i < bytes.len()
        invariant
            32 <= i <= bytes@.len(),
            msg@ == bytes@.subrange(32, i as int),
        decreases bytes@.len() - i,
    {
        msg.push(bytes[i]);
        i = i + 1;
        assert(msg@ =~= bytes@.subrange(32, i as int));
    }
    SystemMessage { header, data: SystemMessageContent { msg } }
}

/// A message is read back from its bytes.
pub proof fn law_message_round_trip(m: (SystemMessageHeader, Seq<u8>))
    ensures
        msg_from(msg_bytes(m)) == m,
{
    let b = msg_bytes(m);
    lemma_hdr_bytes_len(m.0);
    assert(b.subrange(0, 32) =~= hdr_bytes(m.0));
    lemma_hdr_at(b, 0, m.0);
    assert(b.subrange(32, b.len() as int) =~= m.1);
}


/// The encodings of the records of `s`, one after another.
pub open spec fn concat_records<A>(s: Seq<A>, enc: spec_fn(A) -> Seq<u8>) -> Seq<u8>
    decreases s.len(),
{
    if s.len() == 0 {
        Seq::empty()
    } else {
        concat_records(s.drop_last(), enc) + enc(s.last())
    }
}

/// Records of a fixed width `w` stand one after another.
pub proof fn lemma_concat_records<A>(s: Seq<A>, enc: spec_fn(A) -> Seq<u8>, w: nat)
    requires
        forall|a: A| #[trigger] enc(a).len() == w,
    ensures
        concat_records(s, enc).len() == w * s.len(),
        forall|i: int|
            0 <= i < s.len() ==> #[trigger] concat_records(s, enc).subrange(w * i, w * i + w)
                == enc(s[i]),
    decreases s.len(),
{
    if s.len() > 0 {
        let init = s.drop_last();
        lemma_concat_records(init, enc, w);
        let c = concat_records(s, enc);
        let ci = concat_records(init, enc);
        assert(c == ci + enc(s.last()));
        assert(w * s.len() == w * init.len() + w) by (nonlinear_arith)
            requires
                s.len() == init.len() + 1,
        ;
        assert forall|i: int| 0 <= i < s.len() implies #[trigger] c.subrange(w * i, w * i + w)
            == enc(s[i]) by {
            if i < init.len() {
                assert(w * i + w <= w * init.len()) by (nonlinear_arith)
                    requires
                        i < init.len(),
                        i >= 0,
                ;
                assert(0 <= w * i) by (nonlinear_arith)
                    requires
                        i >= 0,
                ;
                assert(c.subrange(w * i, w * i + w) =~= ci.subrange(w * i, w * i + w));
                assert(init[i] == s[i]);
            } else {
                assert(i == init.len());
                assert(w * i == w * init.len());
                assert(c.subrange(w * i, w * i + w) =~= enc(s.last()));
            }
        }
    }
}

/// The bytes of a sequence of (process, header) records.
pub open spec fn entries_bytes(es: Seq<(u128, SystemMessageHeader)>) -> Seq<u8> {
    concat_records(es, |e: (u128, SystemMessageHeader)| entry_bytes(e))
}

/// The (process, header) records that whole 48-byte groups of `b` denote.
pub open spec fn entries_from(b: Seq<u8>) -> Seq<(u128, SystemMessageHeader)> {
    Seq::new(b.len() / 48, |i: int| entry_at(b, 48 * i))
}

/// The bytes of a sequence of headers.
pub open spec fn hdrs_bytes(hs: Seq<SystemMessageHeader>) -> Seq<u8> {
    concat_records(hs, |h: SystemMessageHeader| hdr_bytes(h))
}

/// The headers that whole 32-byte groups of `b` denote.
pub open spec fn hdrs_from(b: Seq<u8>) -> Seq<SystemMessageHeader> {
    Seq::new(b.len() / 32, |i: int| hdr_at(b, 32 * i))
}

/// `s` with every element after its first occurrence left out.
pub open spec fn dedup<A>(s: Seq<A>) -> Seq<A>
    decreases s.len(),
{
    if s.len() == 0 {
        s
    } else {
        let d = dedup(s.drop_last());
        if d.contains(s.last()) {
            d
        } else {
            d.push(s.last())
        }
    }
}

/// Records are read back from their bytes.
pub proof fn law_records_round_trip(es: Seq<(u128, SystemMessageHeader)>)
    ensures
        entries_bytes(es).len() == 48 * es.len(),
        entries_from(entries_bytes(es)) == es,
{
    let enc = |e: (u128, SystemMessageHeader)| entry_bytes(e);
    assert forall|e: (u128, SystemMessageHeader)| #[trigger] enc(e).len() == 48 by {
        lemma_entry_bytes_len(e);
    }
    lemma_concat_records(es, enc, 48);
    let b = entries_bytes(es);
    assert(b.len() / 48 == es.len()) by (nonlinear_arith)
        requires
            b.len() == 48 * es.len(),
    ;
    assert forall|i: int| 0 <= i < es.len() implies #[trigger] entries_from(b)[i] == es[i] by {
        assert(b.subrange(48 * i, 48 * i + 48) == enc(es[i]));
        assert(48 * i + 48 <= b.len()) by (nonlinear_arith)
            requires
                i < es.len(),
                b.len() == 48 * es.len(),
        ;
        lemma_entry_at(b, 48 * i, es[i]);
    }
    assert(entries_from(b) =~= es);
}

/// Headers are read back from their bytes.
pub proof fn law_headers_round_trip(hs: Seq<SystemMessageHeader>)
    ensures
        hdrs_bytes(hs).len() == 32 * hs.len(),
        hdrs_from(hdrs_bytes(hs)) == hs,
{
    let enc = |h: SystemMessageHeader| hdr_bytes(h);
    assert forall|h: SystemMessageHeader| #[trigger] enc(h).len() == 32 by {
        lemma_hdr_bytes_len(h);
    }
    lemma_concat_records(hs, enc, 32);
    let b = hdrs_bytes(hs);
    assert(b.len() / 32 == hs.len()) by (nonlinear_arith)
        requires
            b.len() == 32 * hs.len(),
    ;
    assert forall|i: int| 0 <= i < hs.len() implies #[trigger] hdrs_from(b)[i] == hs[i] by {
        assert(b.subrange(32 * i, 32 * i + 32) == enc(hs[i]));
        assert(32 * i + 32 <= b.len()) by (nonlinear_arith)
            requires
                i < hs.len(),
                b.len() == 32 * hs.len(),
        ;
        lemma_hdr_at(b, 32 * i, hs[i]);
    }
    assert(hdrs_from(b) =~= hs);
}

/// A sequence without repetitions is its own `dedup`.
pub proof fn lemma_dedup_no_duplicates<A>(s: Seq<A>)
    requires
        s.no_duplicates(),
    ensures
        dedup(s) == s,
    decreases s.len(),
{
    if s.len() > 0 {
        let init = s.drop_last();
        assert(init.no_duplicates());
        lemma_dedup_no_duplicates(init);
        assert(!init.contains(s.last())) by {
            if init.contains(s.last()) {
                let j = choose|j: int| 0 <= j < init.len() && init[j] == s.last();
                assert(s[j] == s[s.len() - 1]);
            }
        }
        assert(init.push(s.last()) =~= s);
    }
}


/// Whether `v` holds the record `e`.
pub fn contains_entry(v: &Vec<(u128, SystemMessageHeader)>, e: (u128, SystemMessageHeader)) -> (r:
    bool)
    ensures
        r == v@.contains(e),
{
    let mut i: usize = 0;
    while i < v.len()
        invariant
            i <= v@.len(),
            forall|j: int| 0 <= j < i ==> v@[j] != e,
        decreases v@.len() - i,
    {
        let x = v[i];
        if x.0 == e.0 && x.1 == e.1 {
            assert(v@[i as int] == e);
            return true;
        }
        i = i + 1;
    }
    false
}

/// The bytes of the records of `es`, one after another.
pub fn serialize_entries(es: &Vec<(u128, SystemMessageHeader)>) -> (r: Vec<u8>)
    ensures
        r@ == entries_bytes(es@),
{
    let mut out: Vec<u8> = Vec::new();
    let mut i: usize = 0;
    while i < es.len()
        invariant
            i <= es@.len(),
            out@ == entries_bytes(es@.subrange(0, i as int)),
        decreases es@.len() - i,
    {
        let e = es[i];
        let b = serialize_hdr_with_uuid(e.0, e.1);
        push_all(&mut out, b.as_slice());
        proof {
            let next = es@.subrange(0, i + 1);
            assert(next.drop_last() =~= es@.subrange(0, i as int));
            assert(next.last() == e);
        }
        i = i + 1;
    }
    assert(es@.subrange(0, i as int) =~= es@);
    out
}

/// The bytes of the headers of `hs`, one after another.
pub fn serialize_hdrs(hs: &Vec<SystemMessageHeader>) -> (r: Vec<u8>)
    ensures
        r@ == hdrs_bytes(hs@),
{
    let mut out: Vec<u8> = Vec::new();
    let mut i: usize = 0;
    while i < hs.len()
        invariant
            i <= hs@.len(),
            out@ == hdrs_bytes(hs@.subrange(0, i as int)),
        decreases hs@.len() - i,
    {
        let h = hs[i];
        let b = serialize_hdr(h);
        push_all(&mut out, b.as_slice());
        proof {
            let next = hs@.subrange(0, i + 1);
            assert(next.drop_last() =~= hs@.subrange(0, i as int));
            assert(next.last() == h);
        }
        i = i + 1;
    }
    assert(hs@.subrange(0, i as int) =~= hs@);
    out
}

/// The distinct records that `bytes` hold, in the order of their first
/// occurrence, or `None` where the bytes are not whole records.
pub fn deserialize_entries(bytes: &Vec<u8>) -> (r: Option<Vec<(u128, SystemMessageHeader)>>)
    ensures
        r is None <==> bytes@.len() % 48 != 0,
        r matches Some(v) ==> v@ == dedup(entries_from(bytes@)),
{
    let n = bytes.len();
    if n % (3 * TRANSFORM_BYTES_SIZE) != 0 {
        return None;
    }
    let ghost all = entries_from(bytes@);
    let mut out: Vec<(u128, SystemMessageHeader)> = Vec::new();
    let mut pos: usize = 0;
    let ghost mut k: int = 0;
    while pos < n
        invariant
            n == bytes@.len(),
            n % 48 == 0,
            all == entries_from(bytes@),
            all.len() == n / 48,
            pos == 48 * k,
            0 <= k <= all.len(),
            out@ == dedup(all.subrange(0, k)),
        decreases n - pos,
    {
        assert(k < all.len()) by (nonlinear_arith)
            requires
                pos == 48 * k,
                pos < n,
                n % 48 == 0,
                all.len() == n / 48,
                0 <= k,
        ;
        assert(pos + 48 <= n) by (nonlinear_arith)
            requires
                pos == 48 * k,
                k < n / 48,
                0 <= k,
        ;
        let id = read_id(bytes.as_slice(), pos);
        let source = read_id(bytes.as_slice(), pos + 16);
        let mid = read_id(bytes.as_slice(), pos + 32);
        let e = (id, SystemMessageHeader { message_source_id: source, message_id: mid });
        assert(e == all[k]);
        proof {
            let next = all.subrange(0, k + 1);
            assert(next.drop_last() =~= all.subrange(0, k));
            assert(next.last() == e);
        }
        if !contains_entry(&out, e) {
            out.push(e);
        }
        pos = pos + 48;
        proof {
            k = k + 1;
        }
    }
    assert(k == all.len()) by (nonlinear_arith)
        requires
            pos == 48 * k,
            pos >= n,
            k <= all.len(),
            all.len() == n / 48,
    ;
    assert(all.subrange(0, k) =~= all);
    Some(out)
}

/// The headers that `bytes` hold, in order, or `None` where the bytes are
/// not whole headers.
pub fn deserialize_hdrs(bytes: &Vec<u8>) -> (r: Option<Vec<SystemMessageHeader>>)
    ensures
        r is None <==> bytes@.len() % 32 != 0,
        r matches Some(v) ==> v@ == hdrs_from(bytes@),
{
    let n = bytes.len();
    if n % (2 * TRANSFORM_BYTES_SIZE) != 0 {
        return None;
    }
    let ghost all = hdrs_from(bytes@);
    let mut out: Vec<SystemMessageHeader> = Vec::new();
    let mut pos: usize = 0;
    let ghost mut k: int = 0;
    while pos < n
        invariant
            n == bytes@.len(),
            n % 32 == 0,
            all == hdrs_from(bytes@),
            all.len() == n / 32,
            pos == 32 * k,
            0 <= k <= all.len(),
            out@ == all.subrange(0, k),
        decreases n - pos,
    {
        assert(k < all.len()) by (nonlinear_arith)
            requires
                pos == 32 * k,
                pos < n,
                n % 32 == 0,
                all.len() == n / 32,
                0 <= k,
        ;
        assert(pos + 32 <= n) by (nonlinear_arith)
            requires
                pos == 32 * k,
                k < n / 32,
                0 <= k,
        ;
        let source = read_id(bytes.as_slice(), pos);
        let mid = read_id(bytes.as_slice(), pos + 16);
        let h = SystemMessageHeader { message_source_id: source, message_id: mid };
        assert(h == all[k]);
        out.push(h);
        pos = pos + 32;
        proof {
            k = k + 1;
            assert(out@ =~= all.subrange(0, k));
        }
    }
    assert(k == all.len()) by (nonlinear_arith)
        requires
            pos == 32 * k,
            pos >= n,
            k <= all.len(),
            all.len() == n / 32,
    ;
    assert(all.subrange(0, k) =~= all);
    Some(out)
}

} // verus!
