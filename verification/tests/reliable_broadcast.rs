use assignment_1_solution::codec::{
    deserialize_hdr, deserialize_hdr_with_uuid, deserialize_msg, hdr_to_string, serialize_hdr,
    serialize_hdr_with_uuid, serialize_msg,
};
use assignment_1_solution::{
    build_reliable_broadcast, RamStorage, RecoveryError, StableStorage,
    SystemAcknowledgmentMessage, SystemBroadcastMessage, SystemMessage, SystemMessageContent,
    SystemMessageHeader,
};
use uuid::Uuid;

fn forwarded(forwarder: u128, source: u128, id: u128, payload: Vec<u8>) -> SystemBroadcastMessage {
    SystemBroadcastMessage {
        forwarder_id: forwarder,
        message: SystemMessage {
            header: SystemMessageHeader { message_source_id: source, message_id: id },
            data: SystemMessageContent { msg: payload },
        },
    }
}

#[test]
fn reliable_broadcast_uses_stubborn_broadcast() {
    // given
    let storage = RamStorage::new();
    let ident = Uuid::new_v4().as_u128();
    let (mut reliable_broadcast, resent) = build_reliable_broadcast(storage, ident, 2).unwrap();
    assert!(resent.is_empty());

    // when
    let effects = reliable_broadcast.broadcast(SystemMessageContent { msg: vec![] });

    // then
    assert_eq!(effects.to_stubborn[0].forwarder_id, ident);
    assert_eq!(effects.to_stubborn.len(), 1);
    assert!(effects.failure.is_none());
}

#[test]
fn broadcast_numbers_messages_from_one() {
    let (mut rb, _) = build_reliable_broadcast(RamStorage::new(), 7, 3).unwrap();
    assert_eq!(rb.next_message_number(), 1);
    let first = rb.broadcast(SystemMessageContent { msg: vec![1] });
    let second = rb.broadcast(SystemMessageContent { msg: vec![2] });
    assert_eq!(first.to_stubborn[0].message.header, SystemMessageHeader { message_source_id: 7, message_id: 1 });
    assert_eq!(second.to_stubborn[0].message.header, SystemMessageHeader { message_source_id: 7, message_id: 2 });
    assert_eq!(second.to_stubborn[0].message.data.msg, vec![2]);
    assert_eq!(rb.next_message_number(), 3);
    assert!(first.delivered.is_empty());
}

#[test]
fn single_process_delivers_once() {
    let (mut rb, _) = build_reliable_broadcast(RamStorage::new(), 1, 1).unwrap();
    let first = rb.deliver_message(forwarded(9, 9, 4, vec![5, 6]));
    assert_eq!(first.to_stubborn.len(), 1);
    assert_eq!(first.to_stubborn[0].forwarder_id, 1);
    assert_eq!(first.delivered.len(), 1);
    assert_eq!(first.delivered[0].data.msg, vec![5, 6]);
    let again = rb.deliver_message(forwarded(8, 9, 4, vec![5, 6]));
    assert!(again.to_stubborn.is_empty());
    assert!(again.delivered.is_empty());
}

#[test]
fn every_receipt_is_acknowledged_to_its_forwarder() {
    let (mut rb, _) = build_reliable_broadcast(RamStorage::new(), 1, 3).unwrap();
    let hdr = SystemMessageHeader { message_source_id: 9, message_id: 4 };
    let first = rb.deliver_message(forwarded(9, 9, 4, vec![5]));
    assert_eq!(first.acknowledgments, vec![(9, SystemAcknowledgmentMessage { proc: 1, hdr })]);
    let again = rb.deliver_message(forwarded(8, 9, 4, vec![5]));
    assert_eq!(again.acknowledgments, vec![(8, SystemAcknowledgmentMessage { proc: 1, hdr })]);
    let own = rb.broadcast(SystemMessageContent { msg: vec![1] });
    assert!(own.acknowledgments.is_empty());
}

#[test]
fn two_processes_deliver_on_the_second_forwarder() {
    let (mut rb, _) = build_reliable_broadcast(RamStorage::new(), 1, 2).unwrap();
    let first = rb.deliver_message(forwarded(9, 9, 4, vec![5]));
    assert_eq!(first.to_stubborn.len(), 1);
    assert!(first.delivered.is_empty());
    let second = rb.deliver_message(forwarded(2, 9, 4, vec![5]));
    assert!(second.to_stubborn.is_empty());
    assert_eq!(second.delivered.len(), 1);
    assert_eq!(second.delivered[0].data.msg, vec![5]);
    let third = rb.deliver_message(forwarded(1, 9, 4, vec![5]));
    assert!(third.delivered.is_empty());
}

#[test]
fn three_processes_deliver_once_two_forwarders_are_seen() {
    let (mut rb, _) = build_reliable_broadcast(RamStorage::new(), 1, 3).unwrap();
    let first = rb.deliver_message(forwarded(2, 2, 1, vec![9]));
    assert!(first.delivered.is_empty());
    let repeat = rb.deliver_message(forwarded(2, 2, 1, vec![9]));
    assert!(repeat.delivered.is_empty());
    let second = rb.deliver_message(forwarded(3, 2, 1, vec![9]));
    assert_eq!(second.delivered.len(), 1);
    assert_eq!(
        second.delivered[0].header,
        SystemMessageHeader { message_source_id: 2, message_id: 1 }
    );
    assert_eq!(second.delivered[0].data.msg, vec![9]);
}

#[test]
fn single_process_delivers_its_own_broadcast() {
    let (mut rb, _) = build_reliable_broadcast(RamStorage::new(), 5, 1).unwrap();
    let sent = rb.broadcast(SystemMessageContent { msg: vec![7] });
    assert!(sent.delivered.is_empty());
    let looped = rb.deliver_message(sent.to_stubborn[0].clone());
    assert_eq!(looped.delivered.len(), 1);
    assert_eq!(looped.delivered[0].header, SystemMessageHeader { message_source_id: 5, message_id: 1 });
    assert_eq!(looped.delivered[0].data.msg, vec![7]);
}

#[test]
fn recovery_after_delivering_a_broadcast_resends_nothing_of_it() {
    let (mut rb, _) = build_reliable_broadcast(RamStorage::new(), 5, 1).unwrap();
    let sent = rb.broadcast(SystemMessageContent { msg: vec![7] });
    let looped = rb.deliver_message(sent.to_stubborn[0].clone());
    assert_eq!(looped.delivered.len(), 1);
    let again = rb.broadcast(SystemMessageContent { msg: vec![8] });
    assert!(again.failure.is_none());
    let (recovered, resent) = build_reliable_broadcast(rb.into_storage(), 5, 1).unwrap();
    assert_eq!(resent.len(), 1);
    assert_eq!(resent[0].message.data.msg, vec![8]);
    assert_eq!(recovered.next_message_number(), 3);
}

#[test]
fn acknowledgment_is_passed_on() {
    let (rb, _) = build_reliable_broadcast(RamStorage::new(), 1, 2).unwrap();
    let hdr = SystemMessageHeader { message_source_id: 3, message_id: 4 };
    assert_eq!(rb.receive_acknowledgment(SystemAcknowledgmentMessage { proc: 5, hdr }), (5, hdr));
}

#[test]
fn recovery_resends_pending_messages() {
    let (mut rb, _) = build_reliable_broadcast(RamStorage::new(), 7, 3).unwrap();
    rb.broadcast(SystemMessageContent { msg: vec![1] });
    rb.broadcast(SystemMessageContent { msg: vec![2, 2] });
    let storage = rb.into_storage();
    let (recovered, resent) = build_reliable_broadcast(storage, 7, 3).unwrap();
    assert_eq!(resent.len(), 2);
    let mut ids: Vec<u128> = resent.iter().map(|m| m.message.header.message_id).collect();
    ids.sort();
    assert_eq!(ids, vec![1, 2]);
    assert!(resent.iter().all(|m| m.forwarder_id == 7));
    assert!(resent.iter().any(|m| m.message.data.msg == vec![2, 2]));
    assert_eq!(recovered.next_message_number(), 3);
}

#[test]
fn recovered_process_does_not_reuse_message_numbers() {
    let (mut rb, _) = build_reliable_broadcast(RamStorage::new(), 7, 3).unwrap();
    let first = rb.broadcast(SystemMessageContent { msg: vec![1] });
    let storage = rb.into_storage();
    let (mut recovered, _) = build_reliable_broadcast(storage, 7, 3).unwrap();
    let second = recovered.broadcast(SystemMessageContent { msg: vec![2] });
    assert_eq!(first.to_stubborn[0].message.header.message_id, 1);
    assert_eq!(second.to_stubborn[0].message.header.message_id, 2);
}

#[test]
fn recovery_reads_number_bytes_big_endian() {
    let mut storage = RamStorage::new();
    let mut bytes = vec![0u8; 16];
    bytes[14] = 1;
    bytes[15] = 0xff;
    storage.put("current_msg_number", &bytes).unwrap();
    let (rb, _) = build_reliable_broadcast(storage, 1, 1).unwrap();
    assert_eq!(rb.next_message_number(), 511);
}

#[test]
fn recovery_reads_a_number_of_fifteen_bytes_as_its_first_fifteen() {
    let mut storage = RamStorage::new();
    let mut bytes = vec![0u8; 15];
    bytes[13] = 1;
    bytes[14] = 2;
    storage.put("current_msg_number", &bytes).unwrap();
    let (rb, _) = build_reliable_broadcast(storage, 1, 1).unwrap();
    assert_eq!(rb.next_message_number(), 0x010200);
}

#[test]
fn recovery_refuses_partial_records() {
    let mut storage = RamStorage::new();
    storage.put("keys_pending0", &[0u8; 47]).unwrap();
    assert_eq!(build_reliable_broadcast(storage, 1, 1).err(), Some(RecoveryError::UnparsableRecords));
}

#[test]
fn recovery_refuses_missing_message() {
    let mut storage = RamStorage::new();
    let hdr = SystemMessageHeader { message_source_id: 1, message_id: 2 };
    storage.put("keys_actual_msges0", &serialize_hdr(hdr)).unwrap();
    assert_eq!(build_reliable_broadcast(storage, 1, 1).err(), Some(RecoveryError::MissingMessage));
}

#[test]
fn recovery_refuses_short_number() {
    let mut storage = RamStorage::new();
    storage.put("current_msg_number", &[1, 2, 3]).unwrap();
    assert_eq!(build_reliable_broadcast(storage, 1, 1).err(), Some(RecoveryError::ShortNumber));
}

#[test]
fn recovery_refuses_pending_without_message() {
    let mut storage = RamStorage::new();
    let hdr = SystemMessageHeader { message_source_id: 1, message_id: 2 };
    storage.put("keys_pending0", &serialize_hdr_with_uuid(1, hdr)).unwrap();
    assert_eq!(
        build_reliable_broadcast(storage, 1, 1).err(),
        Some(RecoveryError::PendingWithoutMessage)
    );
}

#[test]
fn header_bytes_are_the_uuid_bytes() {
    let source = Uuid::new_v4();
    let id = Uuid::from_u128(0x0102030405060708090a0b0c0d0e0f10);
    let hdr = SystemMessageHeader { message_source_id: source.as_u128(), message_id: id.as_u128() };
    let bytes = serialize_hdr(hdr);
    assert_eq!(&bytes[0..16], source.as_bytes());
    assert_eq!(&bytes[16..32], id.as_bytes());
    assert_eq!(bytes[16], 1);
    assert_eq!(deserialize_hdr(&bytes), hdr);
}

#[test]
fn header_text_is_the_hyphenated_uuids() {
    let hdr = SystemMessageHeader {
        message_source_id: 0xa1a2a3a4b1b2c1c2d1d2d3d4d5d6d7d8,
        message_id: 1,
    };
    assert_eq!(
        hdr_to_string(hdr),
        "a1a2a3a4-b1b2-c1c2-d1d2-d3d4d5d6d7d800000000-0000-0000-0000-000000000001"
    );
}

#[test]
fn records_and_messages_round_trip() {
    let hdr = SystemMessageHeader { message_source_id: 11, message_id: 12 };
    let rec = serialize_hdr_with_uuid(13, hdr);
    assert_eq!(rec.len(), 48);
    assert_eq!(deserialize_hdr_with_uuid(&rec), (13, hdr));
    let msg = SystemMessage { header: hdr, data: SystemMessageContent { msg: vec![4, 5, 6] } };
    let bytes = serialize_msg(&msg);
    assert_eq!(bytes.len(), 35);
    let back = deserialize_msg(&bytes);
    assert_eq!(back.header, hdr);
    assert_eq!(back.data.msg, vec![4, 5, 6]);
}

#[test]
fn broadcast_stores_its_state() {
    let (mut rb, _) = build_reliable_broadcast(RamStorage::new(), 7, 3).unwrap();
    rb.broadcast(SystemMessageContent { msg: vec![1] });
    let storage = rb.into_storage();
    let hdr = SystemMessageHeader { message_source_id: 7, message_id: 1 };
    assert_eq!(storage.get("keys_pending0"), Some(serialize_hdr_with_uuid(7, hdr)));
    assert_eq!(storage.get("keys_actual_msges0"), Some(serialize_hdr(hdr)));
    let mut number = vec![0u8; 16];
    number[15] = 2;
    assert_eq!(storage.get("current_msg_number"), Some(number));
    let key = hdr_to_string(hdr);
    assert_eq!(storage.get(&key).unwrap().len(), 33);
}

#[test]
fn delivery_survives_recovery() {
    let (mut rb, _) = build_reliable_broadcast(RamStorage::new(), 1, 1).unwrap();
    let first = rb.deliver_message(forwarded(9, 9, 4, vec![5]));
    assert_eq!(first.delivered.len(), 1);
    let storage = rb.into_storage();
    let (mut recovered, resent) = build_reliable_broadcast(storage, 1, 1).unwrap();
    assert!(resent.is_empty());
    let again = recovered.deliver_message(forwarded(9, 9, 4, vec![5]));
    assert_eq!(again.to_stubborn.len(), 1);
    assert!(again.delivered.is_empty());
}

struct RefusingStorage;

impl StableStorage for RefusingStorage {
    fn put(&mut self, _key: &str, _value: &[u8]) -> Result<(), String> {
        Err("refused".to_string())
    }

    fn get(&self, _key: &str) -> Option<Vec<u8>> {
        None
    }
}

#[test]
fn refused_write_stops_a_broadcast() {
    let (mut rb, _) = build_reliable_broadcast(RefusingStorage, 1, 1).unwrap();
    let effects = rb.broadcast(SystemMessageContent { msg: vec![1] });
    assert_eq!(effects.failure, Some("refused".to_string()));
    assert!(effects.to_stubborn.is_empty());
    assert_eq!(rb.next_message_number(), 1);
}

#[test]
fn refused_write_of_delivered_records_is_reported() {
    let (mut rb, _) = build_reliable_broadcast(RefusingStorage, 1, 1).unwrap();
    let effects = rb.deliver_message(forwarded(9, 9, 4, vec![5]));
    assert_eq!(effects.failure, Some("refused".to_string()));
    assert_eq!(effects.delivered.len(), 1);
    assert_eq!(effects.to_stubborn.len(), 1);
}
