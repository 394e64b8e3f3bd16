use std::collections::HashSet;

use assignment_1_solution::{
    build_stubborn_broadcast, PlainSenderMessage, SystemAcknowledgmentMessage,
    SystemBroadcastMessage, SystemMessage, SystemMessageContent, SystemMessageHeader,
};
use uuid::Uuid;

fn message(source: u128, id: u128, payload: Vec<u8>) -> SystemBroadcastMessage {
    SystemBroadcastMessage {
        forwarder_id: source,
        message: SystemMessage {
            header: SystemMessageHeader { message_source_id: source, message_id: id },
            data: SystemMessageContent { msg: payload },
        },
    }
}

#[test]
fn broadcast_sends_to_every_process() {
    // given
    let processes: HashSet<u128> =
        vec![Uuid::new_v4().as_u128(), Uuid::new_v4().as_u128()].into_iter().collect();
    let mut stubborn_broadcast = build_stubborn_broadcast(processes.iter().copied().collect());

    // when
    let sends = stubborn_broadcast.broadcast(SystemBroadcastMessage {
        forwarder_id: Default::default(),
        message: SystemMessage {
            header: SystemMessageHeader {
                message_source_id: Default::default(),
                message_id: Default::default(),
            },
            data: SystemMessageContent { msg: vec![] },
        },
    });
    let target_processes: HashSet<u128> = sends.iter().map(|(p, _)| *p).collect();

    // then
    assert_eq!(processes, target_processes);
}

#[test]
fn tick_resends_until_acknowledged() {
    let mut sb = build_stubborn_broadcast(vec![10, 20]);
    sb.broadcast(message(1, 5, vec![9]));
    let resent: Vec<u128> = sb.tick().iter().map(|(p, _)| *p).collect();
    assert_eq!(resent, vec![10, 20]);
    sb.receive_acknowledgment(10, SystemMessageHeader { message_source_id: 1, message_id: 5 });
    let resent = sb.tick();
    assert_eq!(resent.len(), 1);
    assert_eq!(resent[0].0, 20);
    match &resent[0].1 {
        PlainSenderMessage::Broadcast(b) => {
            assert_eq!(b.message.data.msg, vec![9]);
            assert_eq!(b.message.header.message_id, 5);
        }
        PlainSenderMessage::Acknowledge(_) => panic!("expected a broadcast"),
    }
    sb.receive_acknowledgment(20, SystemMessageHeader { message_source_id: 1, message_id: 5 });
    assert!(sb.tick().is_empty());
}

#[test]
fn messages_of_different_sources_are_kept_apart() {
    let mut sb = build_stubborn_broadcast(vec![10]);
    sb.broadcast(message(1, 5, vec![1]));
    sb.broadcast(message(2, 5, vec![2]));
    let resent: Vec<Vec<u8>> = sb
        .tick()
        .iter()
        .map(|(_, m)| match m {
            PlainSenderMessage::Broadcast(b) => b.message.data.msg.clone(),
            PlainSenderMessage::Acknowledge(_) => panic!("expected a broadcast"),
        })
        .collect();
    assert_eq!(resent, vec![vec![1], vec![2]]);
    sb.receive_acknowledgment(10, SystemMessageHeader { message_source_id: 1, message_id: 5 });
    let resent = sb.tick();
    assert_eq!(resent.len(), 1);
    match &resent[0].1 {
        PlainSenderMessage::Broadcast(b) => {
            assert_eq!(b.message.header, SystemMessageHeader { message_source_id: 2, message_id: 5 });
            assert_eq!(b.message.data.msg, vec![2]);
        }
        PlainSenderMessage::Acknowledge(_) => panic!("expected a broadcast"),
    }
}

#[test]
fn same_header_broadcast_again_replaces_the_message() {
    let mut sb = build_stubborn_broadcast(vec![10]);
    sb.broadcast(message(1, 5, vec![1]));
    sb.broadcast(message(1, 5, vec![3]));
    let resent = sb.tick();
    assert_eq!(resent.len(), 1);
    match &resent[0].1 {
        PlainSenderMessage::Broadcast(b) => assert_eq!(b.message.data.msg, vec![3]),
        PlainSenderMessage::Acknowledge(_) => panic!("expected a broadcast"),
    }
}

#[test]
fn acknowledgment_goes_to_its_process() {
    let sb = build_stubborn_broadcast(vec![10]);
    let ack = SystemAcknowledgmentMessage {
        proc: 3,
        hdr: SystemMessageHeader { message_source_id: 1, message_id: 2 },
    };
    let (to, msg) = sb.send_acknowledgment(7, ack);
    assert_eq!(to, 7);
    match msg {
        PlainSenderMessage::Acknowledge(a) => assert_eq!(a, ack),
        PlainSenderMessage::Broadcast(_) => panic!("expected an acknowledgment"),
    }
}

#[test]
fn only_processes_that_did_not_acknowledge_get_resends() {
    let mut sb = build_stubborn_broadcast(vec![10, 20, 30]);
    let hdr = SystemMessageHeader { message_source_id: 1, message_id: 5 };
    sb.broadcast(message(1, 5, vec![4]));
    sb.receive_acknowledgment(10, hdr);
    sb.receive_acknowledgment(30, hdr);
    for _ in 0..2 {
        let resent = sb.tick();
        assert_eq!(resent.len(), 1);
        assert_eq!(resent[0].0, 20);
    }
}
