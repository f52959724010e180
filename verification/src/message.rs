//! Protocol message types.

use bytes::Bytes;
use vstd::prelude::*;

use crate::addr::PeerAddr;
use crate::id::Id;

verus! {

/// A NONCE identifies a query/response pair or a specific broadcast.
pub type Nonce = u128;

/// Specifies what should be done in response to a message.
pub enum Response {
    /// The caller should respond to the sender with the wrapped message.
    Unicast(Message),
    /// The caller should respond by broadcasting the wrapped message to the specified peer
    /// addresses.
    Broadcast(Vec<(PeerAddr, Message)>),
}

/// Kadcast message variants.
#[derive(Debug, Clone, PartialEq, Eq)]
pub enum Message {
    Init(Init),
    /// PING messages requires a PONG response, useful to measure connection latency and peer
    /// liveness.
    Ping(Ping),
    /// PONG is the correct response to PING, it must contain the same NONCE.
    Pong(Pong),
    /// FIND_NODES messages query alpha peers for their K closest nodes to an identifier.
    FindKNodes(FindKNodes),
    /// NODES is the correct response to FIND_NODES, it must contain the same NONCE.
    KNodes(KNodes),
    /// CHUNK is used to broadcast data to the network.
    Chunk(Chunk),
}

/// The name of a message's variant.
pub open spec fn variant_name(message: Message) -> Seq<char> {
    match message {
        Message::Init(_) => "init"@,
        Message::Ping(_) => "ping"@,
        Message::Pong(_) => "pong"@,
        Message::FindKNodes(_) => "find_k_nodes"@,
        Message::KNodes(_) => "k_nodes"@,
        Message::Chunk(_) => "chunk"@,
    }
}

/// The nonce that a message carries.
pub open spec fn message_nonce(message: Message) -> Nonce {
    match message {
        Message::Init(init) => init.nonce,
        Message::Ping(ping) => ping.nonce,
        Message::Pong(pong) => pong.nonce,
        Message::FindKNodes(find_k_nodes) => find_k_nodes.nonce,
        Message::KNodes(k_nodes) => k_nodes.nonce,
        Message::Chunk(chunk) => chunk.nonce,
    }
}

impl Message {
    /// Returns the name of the message's variant.
    pub fn variant_as_str(&self) -> (name: &str)
        ensures
            name@ == variant_name(*self),
    {
        match self {
            Message::Init(_) => "init",
            Message::Ping(_) => "ping",
            Message::Pong(_) => "pong",
            Message::FindKNodes(_) => "find_k_nodes",
            Message::KNodes(_) => "k_nodes",
            Message::Chunk(_) => "chunk",
        }
    }

    /// Returns the nonce the message carries.
    pub fn nonce(&self) -> (nonce: Nonce)
        ensures
            nonce == message_nonce(*self),
    {
        match self {
            Message::Init(init) => init.nonce,
            Message::Ping(ping) => ping.nonce,
            Message::Pong(pong) => pong.nonce,
            Message::FindKNodes(find_k_nodes) => find_k_nodes.nonce,
            Message::KNodes(k_nodes) => k_nodes.nonce,
            Message::Chunk(chunk) => chunk.nonce,
        }
    }

    /// Returns `true` for the messages that answer a query: PONG and NODES.
    pub fn is_response(&self) -> (is_response: bool)
        ensures
            is_response <==> (*self is Pong || *self is KNodes),
    {
        matches!(self, Message::Pong(_) | Message::KNodes(_))
    }
}

/// The data making up an INIT message.
#[derive(Debug, Clone, PartialEq, Eq)]
pub struct Init {
    pub nonce: Nonce,
    pub id: Id,
    pub port: u16,
}

/// The data making up a PING message.
#[derive(Debug, Clone, PartialEq, Eq)]
pub struct Ping {
    pub nonce: Nonce,
    pub id: Id,
}

/// The data making up a PONG message.
#[derive(Debug, Clone, PartialEq, Eq)]
pub struct Pong {
    pub nonce: Nonce,
    pub id: Id,
}

/// The data making up a FIND_NODES message.
#[derive(Debug, Clone, PartialEq, Eq)]
pub struct FindKNodes {
    pub nonce: Nonce,
    pub id: Id,
}

/// The data making up a NODES message.
#[derive(Debug, Clone, PartialEq, Eq)]
pub struct KNodes {
    pub nonce: Nonce,
    pub nodes: Vec<(Id, PeerAddr)>,
}

/// The data making up a CHUNK message.
#[derive(Debug, Clone, PartialEq, Eq)]
pub struct Chunk {
    pub nonce: Nonce,
    pub height: u32,
    pub data: Bytes,
}

} // verus!
