//! The fan-out delivery engine: a broadcast channel shared by every
//! listener, one sender per destination, and the pure decision rules of
//! the listener and sender loops.

use crate::codec::decode_spec;
use crate::codec::OscMessage;
use crate::config::Config;
use vstd::prelude::*;

verus! {

/// Capacity of the delivery channel's per-subscriber backlog.
pub const CHANNEL_CAPACITY: usize = 1000;

#[verifier::external_type_specification]
#[verifier::external_body]
#[verifier::reject_recursive_types(T)]
pub struct ExBroadcastSender<T>(tokio::sync::broadcast::Sender<T>);

#[verifier::external_type_specification]
#[verifier::external_body]
#[verifier::reject_recursive_types(T)]
pub struct ExBroadcastReceiver<T>(tokio::sync::broadcast::Receiver<T>);

#[verifier::external_type_specification]
#[verifier::external_body]
#[verifier::reject_recursive_types(T)]
pub struct ExSendError<T>(tokio::sync::broadcast::error::SendError<T>);

/// Relies on tokio::sync::broadcast::channel: a fan-out channel whose
/// subscribers each hold a backlog of at least `capacity` entries (the
/// call rounds it up to a power of two). The receiver that comes with the
/// channel is dropped here; subscribers are made on demand. The call
/// panics on a zero capacity or one above half of usize::MAX, so those
/// are excluded.
#[verifier::external_body]
fn broadcast_channel(capacity: usize) -> tokio::sync::broadcast::Sender<Vec<u8>>
    requires
        1 <= capacity <= usize::MAX / 2,
{
    let (tx, _rx) = tokio::sync::broadcast::channel(capacity);
    tx
}

/// Relies on tokio::sync::broadcast::Sender::send: the payload is queued
/// for every active subscriber, and `Ok` holds their number, at least one;
/// with no subscriber the payload comes back in the error.
#[verifier::external_body]
fn broadcast_send(tx: &tokio::sync::broadcast::Sender<Vec<u8>>, payload: Vec<u8>) -> (r: Result<
    usize,
    tokio::sync::broadcast::error::SendError<Vec<u8>>,
>)
    ensures
        r matches Ok(n) ==> n >= 1,
{
    tx.send(payload)
}

/// Relies on tokio::sync::broadcast::Sender::subscribe: a new independent
/// handle that receives every payload published after this call, in
/// publication order.
#[verifier::external_body]
fn broadcast_subscribe(tx: &tokio::sync::broadcast::Sender<Vec<u8>>) -> tokio::sync::broadcast::Receiver<Vec<u8>> {
    tx.subscribe()
}

/// One outbound sender; it owns exactly one destination address.
#[derive(Debug, Clone)]
pub struct OutboundSender {
    pub target: String,
}

impl OutboundSender {
    pub fn new(target: String) -> (r: Self)
        ensures
            r.target == target,
    {
        OutboundSender { target }
    }
}

/// One event a sender's subscription can yield.
#[derive(Debug)]
pub enum RecvEvent {
    /// The next payload, in publication order.
    Payload(Vec<u8>),
    /// The subscriber fell behind: this many entries were dropped for it.
    Lagged(u64),
    /// Every publisher is gone and the backlog is drained.
    Closed,
}

/// What a sender does in answer to one event.
#[derive(Debug)]
pub enum SenderAction {
    /// Transmit these bytes to the destination.
    Transmit(Vec<u8>),
    /// Transmit nothing and wait for the next event.
    Skip,
    /// End the delivery loop.
    Stop,
}

/// The sender's policy for one received event: forward every payload as
/// it came, absorb lag without retransmission, stop only on closure.
pub fn sender_step(event: RecvEvent) -> (r: SenderAction)
    ensures
        (match event {
            RecvEvent::Payload(p) => r == SenderAction::Transmit(p),
            RecvEvent::Lagged(_) => r == SenderAction::Skip,
            RecvEvent::Closed => r == SenderAction::Stop,
        }),
{
    match event {
        RecvEvent::Payload(p) => SenderAction::Transmit(p),
        RecvEvent::Lagged(_) => SenderAction::Skip,
        RecvEvent::Closed => SenderAction::Stop,
    }
}

/// The delivery channel together with one sender per destination.
pub struct Distributor {
    pub senders: Vec<OutboundSender>,
    pub tx: tokio::sync::broadcast::Sender<Vec<u8>>,
}

impl Distributor {
    /// One sender per target, all sharing one delivery channel.
    #[verifier::loop_isolation(false)]
    pub fn new(targets: &Vec<String>) -> (r: Self)
        ensures
            r.senders@.len() == targets@.len(),
            forall|i: int| 0 <= i < targets@.len() ==> r.senders@[i].target == targets@[i],
    {
        let tx = broadcast_channel(CHANNEL_CAPACITY);
        let mut senders: Vec<OutboundSender> = Vec::new();
        let mut i: usize = 0;
        while i < targets.len()
            invariant
                i <= targets@.len(),
                senders@.len() == i,
                forall|j: int| 0 <= j < i ==> senders@[j].target == targets@[j],
            decreases targets@.len() - i,
        {
            senders.push(OutboundSender::new(targets[i].clone()));
            i = i + 1;
        }
        Distributor { senders, tx }
    }

    /// Publishes one payload to every current subscriber. With no
    /// subscriber the payload is silently discarded: there is nothing to
    /// deliver to, and that is not a failure.
    pub fn send(&self, payload: Vec<u8>) {
        let _ = broadcast_send(&self.tx, payload);
    }

    /// A new independent subscription; it sees every payload published
    /// after this call, in publication order.
    pub fn subscribe(&self) -> tokio::sync::broadcast::Receiver<Vec<u8>> {
        broadcast_subscribe(&self.tx)
    }
}

/// Copies a datagram into an owned payload buffer.
fn to_payload(data: &[u8]) -> (r: Vec<u8>)
    ensures
        r@ == data@,
{
    let mut v: Vec<u8> = Vec::new();
    let mut i: usize = 0;
    while i < data.len()
        invariant
            i <= data@.len(),
            v@ == data@.subrange(0, i as int),
        decreases data@.len() - i,
    {
        v.push(data[i]);
        i = i + 1;
        proof {
            assert(v@ =~= data@.subrange(0, i as int));
        }
    }
    proof {
        assert(v@ =~= data@);
    }
    v
}

/// One inbound listener: the port it owns and the shared distributor it
/// publishes to.
pub struct InboundListener {
    pub port: u16,
    pub distributor: std::sync::Arc<Distributor>,
}

impl InboundListener {
    pub fn new(port: u16, distributor: std::sync::Arc<Distributor>) -> (r: Self)
        ensures
            r.port == port,
            r.distributor == distributor,
    {
        InboundListener { port, distributor }
    }

    /// The validation gate of the receive loop: a datagram is published,
    /// as its original raw bytes, exactly when it decodes as a frame; a
    /// malformed datagram is dropped.
    pub fn handle_datagram(&self, data: &[u8]) -> (published: bool)
        ensures
            published <==> decode_spec(data@) is Ok,
    {
        match OscMessage::deserialize(data) {
            Ok(_) => {
                let payload = to_payload(data);
                self.distributor.send(payload);
                true
            },
            Err(_) => false,
        }
    }
}

/// The relay supervisor's state: the configuration and the distributor
/// wired to its targets. Starting the listener and sender tasks is the
/// caller's part; this type holds what they share.
pub struct OscRepeater {
    pub config: Config,
    pub distributor: std::sync::Arc<Distributor>,
}

impl OscRepeater {
    /// Wires one distributor to the configured targets.
    pub fn new(config: Config) -> (r: Self)
        ensures
            r.config == config,
            r.distributor.senders@.len() == config.targets@.len(),
            forall|i: int|
                0 <= i < config.targets@.len() ==> r.distributor.senders@[i].target
                    == config.targets@[i],
    {
        let distributor = Distributor::new(&config.targets);
        OscRepeater { config, distributor: std::sync::Arc::new(distributor) }
    }
}

} // verus!
