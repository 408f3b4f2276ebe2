//! The messages that nodes exchange. A datagram carries a JSON list of them;
//! the JSON form is read and written outside this library.

use vstd::prelude::*;

verus! {

/// A UDP peer address: IPv4 (`v6` false, the address in the low 32 bits of `ip`,
/// `flowinfo` and `scope_id` zero) or IPv6, with its port.
#[derive(Clone, Copy, Debug, PartialEq, Eq, Structural, Hash)]
pub struct PeerAddr {
    pub v6: bool,
    pub ip: u128,
    pub port: u16,
    pub flowinfo: u32,
    pub scope_id: u32,
}

/// Asks the receiver for some of the peers it knows.
pub struct PleaseSendPeers {}

/// Peers that the sender knows.
pub struct Peers {
    pub peers: Vec<PeerAddr>,
}

/// Asks for `length` bytes of the file `id` from byte `offset` on.
pub struct PleaseSendContent {
    pub id: String,
    pub length: usize,
    pub offset: usize,
}

/// Bytes of the file `id` from `offset` on, in base64, with the file's length
/// where the sender knows it.
pub struct Content {
    pub id: String,
    pub offset: usize,
    pub base64: String,
    pub eof: Option<usize>,
}

/// Asks the receiver to send this message back, to time the round trip;
/// `sent_at` is the sender's clock, in nanoseconds since its start.
pub struct PleaseReturnThisMessage {
    pub sent_at: u64,
}

/// A [`PleaseReturnThisMessage`] sent back.
pub struct ReturnedMessage {
    pub sent_at: u64,
}

/// Peers that may have some of the file `id`.
pub struct MaybeTheyHaveSome {
    pub id: String,
    pub peers: Vec<PeerAddr>,
}

/// One message of a datagram.
pub enum Message {
    PleaseSendPeers(PleaseSendPeers),
    Peers(Peers),
    PleaseSendContent(PleaseSendContent),
    Content(Content),
    PleaseReturnThisMessage(PleaseReturnThisMessage),
    ReturnedMessage(ReturnedMessage),
    MaybeTheyHaveSome(MaybeTheyHaveSome),
}

/// What a message says, over mathematical values.
pub enum MessageView {
    PleaseSendPeers,
    Peers { peers: Seq<PeerAddr> },
    PleaseSendContent { id: Seq<char>, length: nat, offset: nat },
    Content { id: Seq<char>, offset: nat, base64: Seq<char>, eof: Option<nat> },
    PleaseReturnThisMessage { sent_at: nat },
    ReturnedMessage { sent_at: nat },
    MaybeTheyHaveSome { id: Seq<char>, peers: Seq<PeerAddr> },
}

impl View for Message {
    type V = MessageView;

    open spec fn view(&self) -> MessageView {
        match self {
            Message::PleaseSendPeers(_) => MessageView::PleaseSendPeers,
            Message::Peers(m) => MessageView::Peers { peers: m.peers@ },
            Message::PleaseSendContent(m) => MessageView::PleaseSendContent {
                id: m.id@,
                length: m.length as nat,
                offset: m.offset as nat,
            },
            Message::Content(m) => MessageView::Content {
                id: m.id@,
                offset: m.offset as nat,
                base64: m.base64@,
                eof: match m.eof {
                    Some(n) => Some(n as nat),
                    None => None,
                },
            },
            Message::PleaseReturnThisMessage(m) => MessageView::PleaseReturnThisMessage {
                sent_at: m.sent_at as nat,
            },
            Message::ReturnedMessage(m) => MessageView::ReturnedMessage { sent_at: m.sent_at as nat },
            Message::MaybeTheyHaveSome(m) => MessageView::MaybeTheyHaveSome {
                id: m.id@,
                peers: m.peers@,
            },
        }
    }
}

/// The views of a list of messages.
pub open spec fn views(messages: Seq<Message>) -> Seq<MessageView> {
    messages.map_values(|m: Message| m@)
}

/// A request for block `block` of the file `id`.
pub open spec fn block_request(id: Seq<char>, block: nat) -> MessageView {
    MessageView::PleaseSendContent { id, length: 4096, offset: block * 4096 }
}

} // verus!
