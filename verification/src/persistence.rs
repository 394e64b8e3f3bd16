//! What recovery reads back of the state that a process stores.
use crate::assoc::{has_key, keys_of, map_put, unique_keys};
use crate::bytes::{be_bytes, be_value, lemma_be_bytes_len, lemma_be_round_trip, lemma_pow256_16};
use crate::codec::{
    entries_bytes, hdr_text, hdrs_bytes, lemma_dedup_no_duplicates, law_records_round_trip,
    law_headers_round_trip, law_message_round_trip, lemma_hdr_bytes_len, msg_bytes,
};
use crate::domain::SystemMessageHeader;
use crate::ids::{is_hex_char, lemma_uuid_text_injective, lemma_uuid_text_shape, uuid_text};
use crate::reliable_broadcast::{
    actual_name, delivered_name, msgs_from, number_name, pending_name, put_msgs, recovered_entries,
    recovered_msgs, recovered_number, with_entries, with_msgs, with_number, RecoveryError,
};
use crate::schema::{chunk_key, lemma_put_chunks, law_schema_round_trip, put_chunks, schema_chunks, schema_read};
use vstd::prelude::*;

verus! {

/// The storage after a process stores its whole state over `m0`: the
/// delivered records, the pending records, the kept messages and the
/// number of the next message, in this order.
pub open spec fn stored_state(
    m0: Map<Seq<char>, Seq<u8>>,
    delivered: Seq<(u128, SystemMessageHeader)>,
    pending: Seq<(u128, SystemMessageHeader)>,
    actual: Seq<(SystemMessageHeader, (SystemMessageHeader, Seq<u8>))>,
    n: u128,
) -> Map<Seq<char>, Seq<u8>> {
    with_number(
        with_msgs(with_entries(with_entries(m0, delivered_name(), delivered), pending_name(), pending), actual),
        n,
    )
}

/// `m1` and `m2` agree on every chunk of the schema `name`.
pub open spec fn same_schema(m1: Map<Seq<char>, Seq<u8>>, m2: Map<Seq<char>, Seq<u8>>, name: Seq<char>) -> bool {
    forall|i: nat|
        #![trigger m1.contains_key(chunk_key(name, i))]
        #![trigger m2.contains_key(chunk_key(name, i))]
        m1.contains_key(chunk_key(name, i)) == m2.contains_key(chunk_key(name, i)) && (m1.contains_key(
            chunk_key(name, i),
        ) ==> m1[chunk_key(name, i)] == m2[chunk_key(name, i)])
}

/// `k` is no chunk key of the schema `name`.
pub open spec fn not_chunk_of(k: Seq<char>, name: Seq<char>) -> bool {
    forall|i: nat| k != #[trigger] chunk_key(name, i)
}

/// A schema is read only from its own chunks.
proof fn lemma_schema_read_same(m1: Map<Seq<char>, Seq<u8>>, m2: Map<Seq<char>, Seq<u8>>, name: Seq<char>, i: nat)
    requires
        same_schema(m1, m2, name),
    ensures
        schema_read(m1, name, i) == schema_read(m2, name, i),
    decreases u64::MAX - i,
{
    if i < u64::MAX {
        assert(m1.contains_key(chunk_key(name, i)) == m2.contains_key(chunk_key(name, i)));
        lemma_schema_read_same(m1, m2, name, i + 1);
    }
}

proof fn lemma_same_schema_trans(
    m1: Map<Seq<char>, Seq<u8>>,
    m2: Map<Seq<char>, Seq<u8>>,
    m3: Map<Seq<char>, Seq<u8>>,
    name: Seq<char>,
)
    requires
        same_schema(m1, m2, name),
        same_schema(m2, m3, name),
    ensures
        same_schema(m1, m3, name),
{
    assert forall|i: nat| #![trigger m1.contains_key(chunk_key(name, i))]
        m1.contains_key(chunk_key(name, i)) == m3.contains_key(chunk_key(name, i)) && (m1.contains_key(
            chunk_key(name, i),
        ) ==> m1[chunk_key(name, i)] == m3[chunk_key(name, i)]) by {
        assert(m2.contains_key(chunk_key(name, i)) == m1.contains_key(chunk_key(name, i)));
    }
}

proof fn lemma_same_schema_insert(m: Map<Seq<char>, Seq<u8>>, k: Seq<char>, v: Seq<u8>, name: Seq<char>)
    requires
        not_chunk_of(k, name),
    ensures
        same_schema(m.insert(k, v), m, name),
{
    assert forall|i: nat| #![trigger m.contains_key(chunk_key(name, i))]
        m.insert(k, v).contains_key(chunk_key(name, i)) == m.contains_key(chunk_key(name, i)) && (m.insert(k, v).contains_key(
            chunk_key(name, i),
        ) ==> m.insert(k, v)[chunk_key(name, i)] == m[chunk_key(name, i)]) by {
        assert(k != chunk_key(name, i));
    }
}

/// Storing one schema leaves the chunks of another, whose chunk keys all
/// differ from its own, as they were.
proof fn lemma_same_schema_put_chunks(m: Map<Seq<char>, Seq<u8>>, other: Seq<char>, cs: Seq<Seq<u8>>, name: Seq<char>)
    requires
        forall|i: nat, j: nat| chunk_key(other, i) != chunk_key(name, j),
    ensures
        same_schema(put_chunks(m, other, cs), m, name),
{
    lemma_put_chunks(m, other, cs);
    assert forall|j: nat| #![trigger m.contains_key(chunk_key(name, j))]
        put_chunks(m, other, cs).contains_key(chunk_key(name, j)) == m.contains_key(chunk_key(name, j)) && (put_chunks(m, other, cs).contains_key(
            chunk_key(name, j),
        ) ==> put_chunks(m, other, cs)[chunk_key(name, j)] == m[chunk_key(name, j)]) by {
        let k = chunk_key(name, j);
        assert forall|i: nat| i < cs.len() implies k != #[trigger] chunk_key(other, i) by {
            assert(chunk_key(other, i) != chunk_key(name, j));
        }
    }
}

/// Storing the kept messages under the texts of their headers leaves the
/// chunks of a schema whose name opens with `k` as they were.
proof fn lemma_same_schema_put_msgs(
    m: Map<Seq<char>, Seq<u8>>,
    actual: Seq<(SystemMessageHeader, (SystemMessageHeader, Seq<u8>))>,
    name: Seq<char>,
)
    requires
        name.len() > 0,
        name[0] == 'k',
    ensures
        same_schema(put_msgs(m, actual), m, name),
    decreases actual.len(),
{
    if actual.len() > 0 {
        lemma_same_schema_put_msgs(m, actual.drop_last(), name);
        let k = hdr_text(actual.last().0);
        lemma_hdr_text_not_chunk(actual.last().0, name);
        lemma_same_schema_insert(put_msgs(m, actual.drop_last()), k, msg_bytes(actual.last().1), name);
        lemma_same_schema_trans(put_msgs(m, actual), put_msgs(m, actual.drop_last()), m, name);
    }
}

/// The text of a header has 72 characters and opens with a hexadecimal
/// digit.
proof fn lemma_hdr_text_shape(h: SystemMessageHeader)
    ensures
        hdr_text(h).len() == 72,
        is_hex_char(hdr_text(h)[0]),
{
    lemma_uuid_text_shape(h.message_source_id);
    lemma_uuid_text_shape(h.message_id);
}

/// Distinct headers have distinct texts.
proof fn lemma_hdr_text_injective(h1: SystemMessageHeader, h2: SystemMessageHeader)
    requires
        hdr_text(h1) == hdr_text(h2),
    ensures
        h1 == h2,
{
    lemma_uuid_text_shape(h1.message_source_id);
    lemma_uuid_text_shape(h1.message_id);
    lemma_uuid_text_shape(h2.message_source_id);
    lemma_uuid_text_shape(h2.message_id);
    assert(hdr_text(h1).subrange(0, 36) =~= uuid_text(h1.message_source_id));
    assert(hdr_text(h2).subrange(0, 36) =~= uuid_text(h2.message_source_id));
    assert(hdr_text(h1).subrange(36, 72) =~= uuid_text(h1.message_id));
    assert(hdr_text(h2).subrange(36, 72) =~= uuid_text(h2.message_id));
    lemma_uuid_text_injective(h1.message_source_id, h2.message_source_id);
    lemma_uuid_text_injective(h1.message_id, h2.message_id);
}

proof fn lemma_hdr_text_not_chunk(h: SystemMessageHeader, name: Seq<char>)
    requires
        name.len() > 0,
        name[0] == 'k',
    ensures
        not_chunk_of(hdr_text(h), name),
{
    lemma_hdr_text_shape(h);
    assert forall|i: nat| hdr_text(h) != #[trigger] chunk_key(name, i) by {
        assert(chunk_key(name, i)[0] == 'k');
    }
}

/// Facts on the names under which the state is stored.
proof fn lemma_names()
    ensures
        pending_name().len() == 12,
        delivered_name().len() == 14,
        actual_name().len() == 17,
        number_name().len() == 18,
        pending_name()[0] == 'k',
        delivered_name()[0] == 'k',
        actual_name()[0] == 'k',
        number_name()[0] == 'c',
        pending_name()[5] == 'p',
        delivered_name()[5] == 'd',
        actual_name()[5] == 'a',
{
    reveal_strlit("keys_pending");
    reveal_strlit("keys_delivered");
    reveal_strlit("keys_actual_msges");
    reveal_strlit("current_msg_number");
}

/// Chunk keys of schemas whose names differ at their sixth character differ.
proof fn lemma_chunk_keys_differ(a: Seq<char>, b: Seq<char>)
    requires
        a.len() >= 6,
        b.len() >= 6,
        a[5] != b[5],
    ensures
        forall|i: nat, j: nat| chunk_key(a, i) != chunk_key(b, j),
{
    assert forall|i: nat, j: nat| chunk_key(a, i) != chunk_key(b, j) by {
        assert(chunk_key(a, i)[5] == a[5]);
        assert(chunk_key(b, j)[5] == b[5]);
    }
}

/// The number key is no chunk key of a schema whose name opens with `k`.
proof fn lemma_number_not_chunk(name: Seq<char>)
    requires
        name.len() > 0,
        name[0] == 'k',
    ensures
        not_chunk_of(number_name(), name),
{
    lemma_names();
    assert forall|i: nat| number_name() != #[trigger] chunk_key(name, i) by {
        assert(chunk_key(name, i)[0] == 'k');
    }
}

/// Where the schema `name` is stored over `m`, and then only other keys are
/// written, reading it back gives what was stored.
proof fn lemma_read_back(
    m: Map<Seq<char>, Seq<u8>>,
    later: Map<Seq<char>, Seq<u8>>,
    name: Seq<char>,
    data: Seq<u8>,
)
    requires
        data.len() <= u64::MAX,
        same_schema(later, put_chunks(m, name, schema_chunks(data)), name),
    ensures
        schema_read(later, name, 0) == data,
{
    law_schema_round_trip(m, name, data);
    lemma_schema_read_same(later, put_chunks(m, name, schema_chunks(data)), name, 0);
}

/// After the kept messages are put, each is found under the text of its
/// header.
proof fn lemma_put_msgs_lookup(
    m: Map<Seq<char>, Seq<u8>>,
    actual: Seq<(SystemMessageHeader, (SystemMessageHeader, Seq<u8>))>,
)
    requires
        unique_keys(actual),
    ensures
        forall|j: int|
            0 <= j < actual.len() ==> #[trigger] put_msgs(m, actual).contains_key(hdr_text(actual[j].0))
                && put_msgs(m, actual)[hdr_text(actual[j].0)] == msg_bytes(actual[j].1),
    decreases actual.len(),
{
    if actual.len() > 0 {
        let init = actual.drop_last();
        assert(unique_keys(init));
        lemma_put_msgs_lookup(m, init);
        assert forall|j: int| 0 <= j < actual.len() implies #[trigger] put_msgs(m, actual).contains_key(
            hdr_text(actual[j].0),
        ) && put_msgs(m, actual)[hdr_text(actual[j].0)] == msg_bytes(actual[j].1) by {
            if j < init.len() {
                assert(init[j] == actual[j]);
                assert(put_msgs(m, init).contains_key(hdr_text(init[j].0)));
                if hdr_text(actual[j].0) == hdr_text(actual.last().0) {
                    lemma_hdr_text_injective(actual[j].0, actual.last().0);
                }
            }
        }
    }
}

/// The messages of their own headers are read back from where they were put.
proof fn lemma_msgs_from_read_back(
    m: Map<Seq<char>, Seq<u8>>,
    actual: Seq<(SystemMessageHeader, (SystemMessageHeader, Seq<u8>))>,
)
    requires
        unique_keys(actual),
        forall|j: int|
            0 <= j < actual.len() ==> #[trigger] m.contains_key(hdr_text(actual[j].0)) && m[hdr_text(
                actual[j].0,
            )] == msg_bytes(actual[j].1),
    ensures
        msgs_from(m, keys_of(actual)) == Ok::<_, RecoveryError>(actual),
    decreases actual.len(),
{
    if actual.len() == 0 {
        assert(keys_of(actual) =~= Seq::<SystemMessageHeader>::empty());
        assert(actual =~= Seq::<(SystemMessageHeader, (SystemMessageHeader, Seq<u8>))>::empty());
    } else {
        let init = actual.drop_last();
        let last = actual.last();
        assert(unique_keys(init));
        assert forall|j: int| 0 <= j < init.len() implies #[trigger] m.contains_key(hdr_text(init[j].0))
            && m[hdr_text(init[j].0)] == msg_bytes(init[j].1) by {
            assert(init[j] == actual[j]);
        }
        lemma_msgs_from_read_back(m, init);
        let ks = keys_of(actual);
        assert(ks.drop_last() =~= keys_of(init));
        assert(ks.last() == last.0);
        assert(m.contains_key(hdr_text(actual[actual.len() - 1].0)));
        lemma_hdr_bytes_len(last.1.0);
        law_message_round_trip(last.1);
        assert(!has_key(init, last.0)) by {
            if has_key(init, last.0) {
                let j = choose|j: int| 0 <= j < init.len() && init[j].0 == last.0;
                assert(actual[j].0 == actual[actual.len() - 1].0);
            }
        }
        assert(map_put(init, last.0, last.1) =~= actual);
    }
}

/// The number is read back as stored.
proof fn lemma_number_read_back(n: u128)
    ensures
        be_value(be_bytes(n as nat, 16).subrange(0, 16)) == n,
{
    lemma_be_bytes_len(n as nat, 16);
    assert(be_bytes(n as nat, 16).subrange(0, 16) =~= be_bytes(n as nat, 16));
    lemma_pow256_16();
    lemma_be_round_trip(n as nat, 16);
}

/// `m1` and `m2` hold the same under every key that is no chunk key of
/// the schema `name`.
pub open spec fn agree_except(m1: Map<Seq<char>, Seq<u8>>, m2: Map<Seq<char>, Seq<u8>>, name: Seq<char>) -> bool {
    forall|k: Seq<char>|
        #![trigger m1.contains_key(k)]
        #![trigger m2.contains_key(k)]
        not_chunk_of(k, name) ==> m1.contains_key(k) == m2.contains_key(k) && (m1.contains_key(k) ==> m1[k]
            == m2[k])
}

/// Storing a schema changes nothing but its chunks.
proof fn lemma_agree_except_put_chunks(m: Map<Seq<char>, Seq<u8>>, name: Seq<char>, cs: Seq<Seq<u8>>)
    ensures
        agree_except(put_chunks(m, name, cs), m, name),
{
    lemma_put_chunks(m, name, cs);
    assert forall|k: Seq<char>| #![trigger m.contains_key(k)] not_chunk_of(k, name) implies put_chunks(
        m,
        name,
        cs,
    ).contains_key(k) == m.contains_key(k) && (put_chunks(m, name, cs).contains_key(k) ==> put_chunks(
        m,
        name,
        cs,
    )[k] == m[k]) by {
        assert forall|i: nat| i < cs.len() implies k != #[trigger] chunk_key(name, i) by {}
    }
}

/// The messages read for headers depend only on the keys of their texts.
proof fn lemma_msgs_from_frame(m1: Map<Seq<char>, Seq<u8>>, m2: Map<Seq<char>, Seq<u8>>, hs: Seq<SystemMessageHeader>)
    requires
        forall|i: int|
            0 <= i < hs.len() ==> #[trigger] m1.contains_key(hdr_text(hs[i])) == m2.contains_key(hdr_text(hs[i]))
                && (m1.contains_key(hdr_text(hs[i])) ==> m1[hdr_text(hs[i])] == m2[hdr_text(hs[i])]),
    ensures
        msgs_from(m1, hs) == msgs_from(m2, hs),
    decreases hs.len(),
{
    if hs.len() > 0 {
        let init = hs.drop_last();
        assert forall|i: int| 0 <= i < init.len() implies #[trigger] m1.contains_key(hdr_text(init[i]))
            == m2.contains_key(hdr_text(init[i])) && (m1.contains_key(hdr_text(init[i])) ==> m1[hdr_text(
            init[i],
        )] == m2[hdr_text(init[i])]) by {
            assert(init[i] == hs[i]);
        }
        lemma_msgs_from_frame(m1, m2, init);
        assert(m1.contains_key(hdr_text(hs[hs.len() - 1])) == m2.contains_key(hdr_text(hs[hs.len() - 1])));
    }
}

/// What recovery reads of the kept messages and of the next number does
/// not change where only chunks of the schema `name`, opening with `k`
/// and other than the one of the kept messages, change.
proof fn lemma_recovered_frame(m1: Map<Seq<char>, Seq<u8>>, m2: Map<Seq<char>, Seq<u8>>, name: Seq<char>)
    requires
        agree_except(m1, m2, name),
        name.len() >= 6,
        name[0] == 'k',
        name[5] != 'a',
    ensures
        recovered_msgs(m1) == recovered_msgs(m2),
        recovered_number(m1) == recovered_number(m2),
{
    lemma_names();
    lemma_chunk_keys_differ(actual_name(), name);
    assert forall|i: nat| #![trigger m1.contains_key(chunk_key(actual_name(), i))]
        m1.contains_key(chunk_key(actual_name(), i)) == m2.contains_key(chunk_key(actual_name(), i)) && (
        m1.contains_key(chunk_key(actual_name(), i)) ==> m1[chunk_key(actual_name(), i)] == m2[chunk_key(
            actual_name(),
            i,
        )]) by {
        let k = chunk_key(actual_name(), i);
        assert forall|j: nat| k != #[trigger] chunk_key(name, j) by {}
        assert(m2.contains_key(k) == m1.contains_key(k));
    }
    lemma_schema_read_same(m1, m2, actual_name(), 0);
    let hs = crate::codec::hdrs_from(schema_read(m1, actual_name(), 0));
    assert forall|i: int| 0 <= i < hs.len() implies #[trigger] m1.contains_key(hdr_text(hs[i]))
        == m2.contains_key(hdr_text(hs[i])) && (m1.contains_key(hdr_text(hs[i])) ==> m1[hdr_text(hs[i])]
        == m2[hdr_text(hs[i])]) by {
        lemma_hdr_text_not_chunk(hs[i], name);
        assert(m2.contains_key(hdr_text(hs[i])) == m1.contains_key(hdr_text(hs[i])));
    }
    lemma_msgs_from_frame(m1, m2, hs);
    lemma_number_not_chunk(name);
    assert(m2.contains_key(number_name()) == m1.contains_key(number_name()));
}

/// What recovery reads of a schema of records does not change where only
/// chunks of another schema change.
proof fn lemma_recovered_entries_frame(
    m1: Map<Seq<char>, Seq<u8>>,
    m2: Map<Seq<char>, Seq<u8>>,
    name: Seq<char>,
    other: Seq<char>,
)
    requires
        agree_except(m1, m2, other),
        name.len() >= 6,
        other.len() >= 6,
        name[5] != other[5],
    ensures
        recovered_entries(m1, name) == recovered_entries(m2, name),
{
    lemma_chunk_keys_differ(name, other);
    assert forall|i: nat| #![trigger m1.contains_key(chunk_key(name, i))]
        m1.contains_key(chunk_key(name, i)) == m2.contains_key(chunk_key(name, i)) && (m1.contains_key(
            chunk_key(name, i),
        ) ==> m1[chunk_key(name, i)] == m2[chunk_key(name, i)]) by {
        let k = chunk_key(name, i);
        assert forall|j: nat| k != #[trigger] chunk_key(other, j) by {}
        assert(m2.contains_key(k) == m1.contains_key(k));
    }
    lemma_schema_read_same(m1, m2, name, 0);
}

/// Recovery reads back what a broadcast stores over `m`: the pending
/// records, the kept messages, and the number of the next message, so that
/// a restarted process does not number a message twice; the delivered
/// records read are those of `m`. This holds whatever `m` held before.
pub proof fn law_recovery_after_broadcast(
    m: Map<Seq<char>, Seq<u8>>,
    pending: Seq<(u128, SystemMessageHeader)>,
    actual: Seq<(SystemMessageHeader, (SystemMessageHeader, Seq<u8>))>,
    n: u128,
)
    requires
        pending.no_duplicates(),
        unique_keys(actual),
        entries_bytes(pending).len() <= u64::MAX,
        hdrs_bytes(keys_of(actual)).len() <= u64::MAX,
    ensures
        ({
            let after = with_number(with_msgs(with_entries(m, pending_name(), pending), actual), n);
            &&& recovered_entries(after, pending_name()) == Some(pending)
            &&& recovered_msgs(after) == Ok::<_, RecoveryError>(actual)
            &&& recovered_number(after) == Ok::<u128, RecoveryError>(n)
            &&& recovered_entries(after, delivered_name()) == recovered_entries(m, delivered_name())
        }),
{
    lemma_names();
    let cp = schema_chunks(entries_bytes(pending));
    let ca = schema_chunks(hdrs_bytes(keys_of(actual)));
    let m2 = put_chunks(m, pending_name(), cp);
    let m3 = put_msgs(m2, actual);
    let m4 = put_chunks(m3, actual_name(), ca);
    let after = m4.insert(number_name(), be_bytes(n as nat, 16));
    assert(after == with_number(with_msgs(with_entries(m, pending_name(), pending), actual), n));
    lemma_chunk_keys_differ(delivered_name(), pending_name());
    lemma_chunk_keys_differ(delivered_name(), actual_name());
    lemma_chunk_keys_differ(pending_name(), actual_name());
    lemma_chunk_keys_differ(actual_name(), pending_name());
    lemma_number_not_chunk(delivered_name());
    lemma_number_not_chunk(pending_name());
    lemma_number_not_chunk(actual_name());
    // The delivered records are those of `m`.
    lemma_same_schema_put_chunks(m, pending_name(), cp, delivered_name());
    lemma_same_schema_put_msgs(m2, actual, delivered_name());
    lemma_same_schema_put_chunks(m3, actual_name(), ca, delivered_name());
    lemma_same_schema_insert(m4, number_name(), be_bytes(n as nat, 16), delivered_name());
    lemma_same_schema_trans(after, m4, m3, delivered_name());
    lemma_same_schema_trans(after, m3, m2, delivered_name());
    lemma_same_schema_trans(after, m2, m, delivered_name());
    lemma_schema_read_same(after, m, delivered_name(), 0);
    // The pending records.
    lemma_same_schema_put_msgs(m2, actual, pending_name());
    lemma_same_schema_put_chunks(m3, actual_name(), ca, pending_name());
    lemma_same_schema_insert(m4, number_name(), be_bytes(n as nat, 16), pending_name());
    lemma_same_schema_trans(after, m4, m3, pending_name());
    lemma_same_schema_trans(after, m3, m2, pending_name());
    lemma_read_back(m, after, pending_name(), entries_bytes(pending));
    law_records_round_trip(pending);
    lemma_dedup_no_duplicates(pending);
    assert(entries_bytes(pending).len() % 48 == 0) by (nonlinear_arith)
        requires
            entries_bytes(pending).len() == 48 * pending.len(),
    ;
    // The kept messages.
    lemma_put_chunks(m, pending_name(), cp);
    lemma_same_schema_put_msgs(m2, actual, actual_name());
    lemma_same_schema_insert(m4, number_name(), be_bytes(n as nat, 16), actual_name());
    lemma_read_back(m3, after, actual_name(), hdrs_bytes(keys_of(actual)));
    law_headers_round_trip(keys_of(actual));
    assert(hdrs_bytes(keys_of(actual)).len() % 32 == 0) by (nonlinear_arith)
        requires
            hdrs_bytes(keys_of(actual)).len() == 32 * keys_of(actual).len(),
    ;
    lemma_put_msgs_lookup(m2, actual);
    lemma_put_chunks(m3, actual_name(), ca);
    assert forall|j: int| 0 <= j < actual.len() implies #[trigger] after.contains_key(hdr_text(actual[j].0))
        && after[hdr_text(actual[j].0)] == msg_bytes(actual[j].1) by {
        let k = hdr_text(actual[j].0);
        lemma_hdr_text_shape(actual[j].0);
        assert(m3.contains_key(k));
        assert forall|i: nat| i < ca.len() implies k != #[trigger] chunk_key(actual_name(), i) by {
            assert(chunk_key(actual_name(), i)[0] == 'k');
        }
        assert(k.len() != number_name().len());
    }
    lemma_msgs_from_read_back(after, actual);
    // The number of the next message.
    lemma_be_bytes_len(n as nat, 16);
    lemma_number_read_back(n);
}

/// Recovery reads back the delivered records that a delivery stores over
/// `m`, and reads the rest as in `m`, whatever `m` held before.
pub proof fn law_recovery_after_delivery(m: Map<Seq<char>, Seq<u8>>, delivered: Seq<(u128, SystemMessageHeader)>)
    requires
        delivered.no_duplicates(),
        entries_bytes(delivered).len() <= u64::MAX,
    ensures
        ({
            let after = with_entries(m, delivered_name(), delivered);
            &&& recovered_entries(after, delivered_name()) == Some(delivered)
            &&& recovered_entries(after, pending_name()) == recovered_entries(m, pending_name())
            &&& recovered_msgs(after) == recovered_msgs(m)
            &&& recovered_number(after) == recovered_number(m)
        }),
{
    lemma_names();
    let cd = schema_chunks(entries_bytes(delivered));
    let after = put_chunks(m, delivered_name(), cd);
    assert(same_schema(after, after, delivered_name()));
    lemma_read_back(m, after, delivered_name(), entries_bytes(delivered));
    law_records_round_trip(delivered);
    lemma_dedup_no_duplicates(delivered);
    assert(entries_bytes(delivered).len() % 48 == 0) by (nonlinear_arith)
        requires
            entries_bytes(delivered).len() == 48 * delivered.len(),
    ;
    lemma_agree_except_put_chunks(m, delivered_name(), cd);
    lemma_recovered_entries_frame(after, m, pending_name(), delivered_name());
    lemma_recovered_frame(after, m, delivered_name());
}

/// Recovery gives back the whole state that a process stored over `m0`:
/// the delivered and pending records, the kept messages, and the number of
/// the next message, whatever `m0` held before.
pub proof fn law_recovery_reads_back_stored_state(
    m0: Map<Seq<char>, Seq<u8>>,
    delivered: Seq<(u128, SystemMessageHeader)>,
    pending: Seq<(u128, SystemMessageHeader)>,
    actual: Seq<(SystemMessageHeader, (SystemMessageHeader, Seq<u8>))>,
    n: u128,
)
    requires
        delivered.no_duplicates(),
        pending.no_duplicates(),
        unique_keys(actual),
        entries_bytes(delivered).len() <= u64::MAX,
        entries_bytes(pending).len() <= u64::MAX,
        hdrs_bytes(keys_of(actual)).len() <= u64::MAX,
    ensures
        recovered_entries(stored_state(m0, delivered, pending, actual, n), delivered_name()) == Some(delivered),
        recovered_entries(stored_state(m0, delivered, pending, actual, n), pending_name()) == Some(pending),
        recovered_msgs(stored_state(m0, delivered, pending, actual, n)) == Ok::<_, RecoveryError>(actual),
        recovered_number(stored_state(m0, delivered, pending, actual, n)) == Ok::<u128, RecoveryError>(n),
{
    lemma_names();
    let m1 = with_entries(m0, delivered_name(), delivered);
    law_recovery_after_delivery(m0, delivered);
    lemma_agree_except_put_chunks(m0, delivered_name(), schema_chunks(entries_bytes(delivered)));
    law_recovery_after_broadcast(m1, pending, actual, n);
}

} // verus!
