//! The messages that the broadcast layers exchange.
use vstd::prelude::*;

verus! {

/// Identifies a broadcast message: the process that issued it and a number
/// that is unique within that process.
#[derive(PartialEq, Eq, Structural, Clone, Copy, Debug, Hash)]
pub struct SystemMessageHeader {
    /// identifier of process which issued this message
    pub message_source_id: u128,
    /// message identifier, for uniqueness within the process
    pub message_id: u128,
}

/// The payload of a message.
#[derive(Debug, Clone)]
pub struct SystemMessageContent {
    pub msg: Vec<u8>,
}

impl View for SystemMessageContent {
    type V = Seq<u8>;

    open spec fn view(&self) -> Seq<u8> {
        self.msg@
    }
}

/// The message type to be delivered to upper layers.
#[derive(Debug, Clone)]
pub struct SystemMessage {
    pub header: SystemMessageHeader,
    pub data: SystemMessageContent,
}

impl View for SystemMessage {
    type V = (SystemMessageHeader, Seq<u8>);

    open spec fn view(&self) -> (SystemMessageHeader, Seq<u8>) {
        (self.header, self.data@)
    }
}

impl SystemMessage {
    /// A copy of the message.
    pub fn duplicate(&self) -> (r: SystemMessage)
        ensures
            r@ == self@,
    {
        let msg = self.data.msg.clone();
        assert(msg@ =~= self.data.msg@);
        SystemMessage { header: self.header, data: SystemMessageContent { msg } }
    }
}

/// Acknowledgment response that a message was received.
#[derive(PartialEq, Eq, Structural, Clone, Copy, Debug)]
pub struct SystemAcknowledgmentMessage {
    /// process which acknowledges
    pub proc: u128,
    /// message being acknowledged
    pub hdr: SystemMessageHeader,
}

/// Single broadcast message send to a single process.
#[derive(Debug, Clone)]
pub struct SystemBroadcastMessage {
    /// identifier of the forwarder
    pub forwarder_id: u128,
    /// the message itself
    pub message: SystemMessage,
}

impl View for SystemBroadcastMessage {
    type V = (u128, (SystemMessageHeader, Seq<u8>));

    open spec fn view(&self) -> (u128, (SystemMessageHeader, Seq<u8>)) {
        (self.forwarder_id, self.message@)
    }
}

impl SystemBroadcastMessage {
    /// A copy of the message.
    pub fn duplicate(&self) -> (r: SystemBroadcastMessage)
        ensures
            r@ == self@,
    {
        SystemBroadcastMessage { forwarder_id: self.forwarder_id, message: self.message.duplicate() }
    }
}

/// What a link carries: an acknowledgment or a broadcast message.
#[derive(Debug, Clone)]
pub enum PlainSenderMessage {
    Acknowledge(SystemAcknowledgmentMessage),
    Broadcast(SystemBroadcastMessage),
}

/// What a link carries, with the payload taken as bytes.
pub enum PlainSenderMessageView {
    Acknowledge(SystemAcknowledgmentMessage),
    Broadcast((u128, (SystemMessageHeader, Seq<u8>))),
}

impl View for PlainSenderMessage {
    type V = PlainSenderMessageView;

    open spec fn view(&self) -> PlainSenderMessageView {
        match self {
            PlainSenderMessage::Acknowledge(a) => PlainSenderMessageView::Acknowledge(*a),
            PlainSenderMessage::Broadcast(b) => PlainSenderMessageView::Broadcast(b@),
        }
    }
}

/// The views of a sequence of values.
pub open spec fn views<V: View>(s: Seq<V>) -> Seq<V::V> {
    s.map_values(|x: V| x@)
}

} // verus!
