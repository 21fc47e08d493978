//! The gateway's rules: which peers the node connects to and accepts, how inbound events are
//! rate limited, checked and dispatched, and which validators it shares and dials.
//!
//! The sockets, the codec and the channels stay with the caller: each rule here takes the
//! state of the gateway and what the caller learned (the time, the committees the ledger
//! returned, the bogon addresses), and returns what the caller is to do.
use vstd::prelude::*;
use crate::assoc::AssocMap;
use crate::committee::{spec_is_member, Committee, MAX_COMMITTEE_SIZE};
use crate::helpers::cache::{bumped, recent, total_hits, Cache};
use crate::helpers::partition::{assign_to_worker, spec_assign_to_worker};
use crate::helpers::resolver::{spec_insert_peer, spec_remove_peer, Resolver, ResolverView};
use crate::primary::MAX_TRANSMISSIONS_PER_BATCH;
use crate::types::{Address, Field, PeerIp, TransmissionID};
use crate::worker::MAX_TRANSMISSIONS_PER_WORKER_PING;
use crate::{MAX_BATCH_DELAY_IN_MS, MEMORY_POOL_PORT};
use crate::text::{decimal, peer_ip_text, push_decimal, push_peer_ip};
use vstd::string::StringExecFns;
use rand::seq::{IteratorRandom, SliceRandom};

verus! {

/// The interval (in seconds) over which inbound and outbound events are counted.
pub const CACHE_EVENTS_INTERVAL: i64 = 2;

/// The interval (in seconds) over which duplicate requests are counted.
pub const CACHE_REQUESTS_INTERVAL: i64 = 2;

/// The maximum number of connection attempts in an interval.
pub const MAX_CONNECTION_ATTEMPTS: usize = 10;

/// The interval (in seconds) over which connection attempts are counted.
pub const RESTRICTED_INTERVAL: i64 = 25;

/// The minimum number of validators to maintain a connection to.
pub const MIN_CONNECTED_VALIDATORS: usize = 175;

/// The maximum number of validators to send in a validators response event.
pub const MAX_VALIDATORS_TO_SEND: usize = 200;

/// The intervals are whole seconds of the batch delay.
pub proof fn lemma_intervals()
    ensures
        CACHE_EVENTS_INTERVAL == MAX_BATCH_DELAY_IN_MS / 1000,
        CACHE_REQUESTS_INTERVAL == MAX_BATCH_DELAY_IN_MS / 1000,
        RESTRICTED_INTERVAL == MAX_CONNECTION_ATTEMPTS * MAX_BATCH_DELAY_IN_MS / 1000,
{
}

/// Why the gateway refuses a connection or drops an event.
#[derive(Debug, PartialEq, Eq, Structural)]
pub enum GatewayError {
    /// The peer dialled is this node.
    SelfConnect(PeerIp),
    /// The node is at its maximum number of connections.
    MaximumPeersReached(PeerIp),
    /// The node is already connected to the peer it dials.
    AlreadyConnected(PeerIp),
    /// The node is already connecting to the peer it dials.
    AlreadyConnecting(PeerIp),
    /// The peer asking to connect is this node.
    SelfConnectRequest(PeerIp),
    /// The node is already shaking hands with the peer asking to connect.
    AlreadyShakingHands(PeerIp),
    /// The node is already connected to the peer asking to connect.
    AlreadyConnectedRequest(PeerIp),
    /// The peer tried to connect too often (with the number of attempts).
    TooManyAttempts(PeerIp, usize),
    /// The (ambiguous) peer address does not resolve to a listener address.
    UnresolvedPeer(PeerIp),
    /// The peer is not an authorized validator (with the kind of event it sent).
    NotAuthorized(PeerIp, EventKind),
    /// The peer sent too many events (with the number of events).
    SpammingEvents(PeerIp, usize),
    /// The block request's range (start and end heights) is empty or reversed.
    InvalidBlockRange(PeerIp, u32, u32),
    /// The block request's range (start and end heights) holds too many blocks.
    ExcessiveBlockRange(PeerIp, u32, u32),
    /// The peer sent a handshake event after the handshake.
    ProtocolViolation(PeerIp),
    /// The peer disconnected (with the reason it gave).
    PeerDisconnected(PeerIp, DisconnectReason),
    /// The peer's event version is outdated (with that version).
    OutdatedVersion(PeerIp, u32),
    /// The peer's primary ping holds block locators that the sync module rejected.
    InvalidBlockLocators(PeerIp),
    /// The validators response holds too many validators.
    TooManyValidators(PeerIp),
    /// A validators response arrived without a request.
    UnrequestedValidators(PeerIp),
    /// The worker ping holds too many transmissions.
    TooManyTransmissions(PeerIp),
}

/// The text of a gateway error.
pub open spec fn spec_gateway_message(e: GatewayError) -> Seq<char> {
    match e {
        GatewayError::SelfConnect(p) => "[MemoryPool] Dropping connection attempt to '"@ + peer_ip_text(p) + "' (attempted to self-connect)"@,
        GatewayError::MaximumPeersReached(p) => "[MemoryPool] Dropping connection attempt to '"@ + peer_ip_text(p) + "' (maximum peers reached)"@,
        GatewayError::AlreadyConnected(p) => "[MemoryPool] Dropping connection attempt to '"@ + peer_ip_text(p) + "' (already connected)"@,
        GatewayError::AlreadyConnecting(p) => "[MemoryPool] Dropping connection attempt to '"@ + peer_ip_text(p) + "' (already connecting)"@,
        GatewayError::SelfConnectRequest(p) => "[MemoryPool] Dropping connection request from '"@ + peer_ip_text(p) + "' (attempted to self-connect)"@,
        GatewayError::AlreadyShakingHands(p) => "[MemoryPool] Dropping connection request from '"@ + peer_ip_text(p) + "' (already shaking hands as the initiator)"@,
        GatewayError::AlreadyConnectedRequest(p) => "[MemoryPool] Dropping connection request from '"@ + peer_ip_text(p) + "' (already connected)"@,
        GatewayError::TooManyAttempts(p, n1) => "Dropping connection request from '"@ + peer_ip_text(p) + "' (tried "@ + decimal(n1 as nat) + " times)"@,
        GatewayError::UnresolvedPeer(p) => "[MemoryPool] Unable to resolve the (ambiguous) peer address '"@ + peer_ip_text(p) + "'"@,
        GatewayError::NotAuthorized(p, k) => "[MemoryPool] Dropping '"@ + spec_event_name(k) + "' from '"@ + peer_ip_text(p) + "' (not authorized)"@,
        GatewayError::SpammingEvents(p, n1) => "Dropping '"@ + peer_ip_text(p) + "' for spamming events (num_events = "@ + decimal(n1 as nat) + ")"@,
        GatewayError::InvalidBlockRange(p, n1, n2) => "Block request from '"@ + peer_ip_text(p) + "' has an invalid range ("@ + decimal(n1 as nat) + ".."@ + decimal(n2 as nat) + ")"@,
        GatewayError::ExcessiveBlockRange(p, n1, n2) => "Block request from '"@ + peer_ip_text(p) + "' has an excessive range ("@ + decimal(n1 as nat) + ".."@ + decimal(n2 as nat) + ")"@,
        GatewayError::ProtocolViolation(p) => "[MemoryPool] Peer '"@ + peer_ip_text(p) + "' is not following the protocol"@,
        GatewayError::PeerDisconnected(_, d) => "[MemoryPool] "@ + spec_reason_name(d),
        GatewayError::OutdatedVersion(p, n1) => "Dropping '"@ + peer_ip_text(p) + "' on event version "@ + decimal(n1 as nat) + " (outdated)"@,
        GatewayError::InvalidBlockLocators(p) => "Validator '"@ + peer_ip_text(p) + "' sent invalid block locators"@,
        GatewayError::TooManyValidators(_) => "[MemoryPool] Received too many validators"@,
        GatewayError::UnrequestedValidators(p) => "[MemoryPool] Received validators response from '"@ + peer_ip_text(p) + "' without a validators request"@,
        GatewayError::TooManyTransmissions(_) => "[MemoryPool] Received too many transmissions"@,
    }
}

impl GatewayError {
    /// The error's message.
    pub fn message(&self) -> (r: String)
        ensures
            r@ == spec_gateway_message(*self),
    {
        let mut s = String::new();
        let ghost s0 = s@;
        match self {
            GatewayError::SelfConnect(p) => {
                s.append("[MemoryPool] Dropping connection attempt to '");
                push_peer_ip(&mut s, *p);
                s.append("' (attempted to self-connect)");
            },
            GatewayError::MaximumPeersReached(p) => {
                s.append("[MemoryPool] Dropping connection attempt to '");
                push_peer_ip(&mut s, *p);
                s.append("' (maximum peers reached)");
            },
            GatewayError::AlreadyConnected(p) => {
                s.append("[MemoryPool] Dropping connection attempt to '");
                push_peer_ip(&mut s, *p);
                s.append("' (already connected)");
            },
            GatewayError::AlreadyConnecting(p) => {
                s.append("[MemoryPool] Dropping connection attempt to '");
                push_peer_ip(&mut s, *p);
                s.append("' (already connecting)");
            },
            GatewayError::SelfConnectRequest(p) => {
                s.append("[MemoryPool] Dropping connection request from '");
                push_peer_ip(&mut s, *p);
                s.append("' (attempted to self-connect)");
            },
            GatewayError::AlreadyShakingHands(p) => {
                s.append("[MemoryPool] Dropping connection request from '");
                push_peer_ip(&mut s, *p);
                s.append("' (already shaking hands as the initiator)");
            },
            GatewayError::AlreadyConnectedRequest(p) => {
                s.append("[MemoryPool] Dropping connection request from '");
                push_peer_ip(&mut s, *p);
                s.append("' (already connected)");
            },
            GatewayError::TooManyAttempts(p, n1) => {
                s.append("Dropping connection request from '");
                push_peer_ip(&mut s, *p);
                s.append("' (tried ");
                push_decimal(&mut s, *n1 as u128);
                s.append(" times)");
            },
            GatewayError::UnresolvedPeer(p) => {
                s.append("[MemoryPool] Unable to resolve the (ambiguous) peer address '");
                push_peer_ip(&mut s, *p);
                s.append("'");
            },
            GatewayError::NotAuthorized(p, k) => {
                s.append("[MemoryPool] Dropping '");
                s.append(k.name());
                s.append("' from '");
                push_peer_ip(&mut s, *p);
                s.append("' (not authorized)");
            },
            GatewayError::SpammingEvents(p, n1) => {
                s.append("Dropping '");
                push_peer_ip(&mut s, *p);
                s.append("' for spamming events (num_events = ");
                push_decimal(&mut s, *n1 as u128);
                s.append(")");
            },
            GatewayError::InvalidBlockRange(p, n1, n2) => {
                s.append("Block request from '");
                push_peer_ip(&mut s, *p);
                s.append("' has an invalid range (");
                push_decimal(&mut s, *n1 as u128);
                s.append("..");
                push_decimal(&mut s, *n2 as u128);
                s.append(")");
            },
            GatewayError::ExcessiveBlockRange(p, n1, n2) => {
                s.append("Block request from '");
                push_peer_ip(&mut s, *p);
                s.append("' has an excessive range (");
                push_decimal(&mut s, *n1 as u128);
                s.append("..");
                push_decimal(&mut s, *n2 as u128);
                s.append(")");
            },
            GatewayError::ProtocolViolation(p) => {
                s.append("[MemoryPool] Peer '");
                push_peer_ip(&mut s, *p);
                s.append("' is not following the protocol");
            },
            GatewayError::PeerDisconnected(_, d) => {
                s.append("[MemoryPool] ");
                s.append(d.name());
            },
            GatewayError::OutdatedVersion(p, n1) => {
                s.append("Dropping '");
                push_peer_ip(&mut s, *p);
                s.append("' on event version ");
                push_decimal(&mut s, *n1 as u128);
                s.append(" (outdated)");
            },
            GatewayError::InvalidBlockLocators(p) => {
                s.append("Validator '");
                push_peer_ip(&mut s, *p);
                s.append("' sent invalid block locators");
            },
            GatewayError::TooManyValidators(_) => {
                s.append("[MemoryPool] Received too many validators");
            },
            GatewayError::UnrequestedValidators(p) => {
                s.append("[MemoryPool] Received validators response from '");
                push_peer_ip(&mut s, *p);
                s.append("' without a validators request");
            },
            GatewayError::TooManyTransmissions(_) => {
                s.append("[MemoryPool] Received too many transmissions");
            },
        }
        assert(s@ =~= s0 + spec_gateway_message(*self));
        s
    }
}

/// The kind of an inbound event.
#[derive(Clone, Copy, Debug, PartialEq, Eq, Structural)]
pub enum EventKind {
    BatchPropose,
    BatchSignature,
    BatchCertified,
    BlockRequest,
    BlockResponse,
    CertificateRequest,
    CertificateResponse,
    ChallengeRequest,
    ChallengeResponse,
    Disconnect,
    PrimaryPing,
    TransmissionRequest,
    TransmissionResponse,
    ValidatorsRequest,
    ValidatorsResponse,
    WorkerPing,
}

/// The name of an event kind.
pub open spec fn spec_event_name(k: EventKind) -> Seq<char> {
    match k {
        EventKind::BatchPropose => "BatchPropose"@,
        EventKind::BatchSignature => "BatchSignature"@,
        EventKind::BatchCertified => "BatchCertified"@,
        EventKind::BlockRequest => "BlockRequest"@,
        EventKind::BlockResponse => "BlockResponse"@,
        EventKind::CertificateRequest => "CertificateRequest"@,
        EventKind::CertificateResponse => "CertificateResponse"@,
        EventKind::ChallengeRequest => "ChallengeRequest"@,
        EventKind::ChallengeResponse => "ChallengeResponse"@,
        EventKind::Disconnect => "Disconnect"@,
        EventKind::PrimaryPing => "PrimaryPing"@,
        EventKind::TransmissionRequest => "TransmissionRequest"@,
        EventKind::TransmissionResponse => "TransmissionResponse"@,
        EventKind::ValidatorsRequest => "ValidatorsRequest"@,
        EventKind::ValidatorsResponse => "ValidatorsResponse"@,
        EventKind::WorkerPing => "WorkerPing"@,
    }
}

impl EventKind {
    /// The kind's name.
    pub fn name(&self) -> (r: &'static str)
        ensures
            r@ == spec_event_name(*self),
    {
        match self {
            EventKind::BatchPropose => "BatchPropose",
            EventKind::BatchSignature => "BatchSignature",
            EventKind::BatchCertified => "BatchCertified",
            EventKind::BlockRequest => "BlockRequest",
            EventKind::BlockResponse => "BlockResponse",
            EventKind::CertificateRequest => "CertificateRequest",
            EventKind::CertificateResponse => "CertificateResponse",
            EventKind::ChallengeRequest => "ChallengeRequest",
            EventKind::ChallengeResponse => "ChallengeResponse",
            EventKind::Disconnect => "Disconnect",
            EventKind::PrimaryPing => "PrimaryPing",
            EventKind::TransmissionRequest => "TransmissionRequest",
            EventKind::TransmissionResponse => "TransmissionResponse",
            EventKind::ValidatorsRequest => "ValidatorsRequest",
            EventKind::ValidatorsResponse => "ValidatorsResponse",
            EventKind::WorkerPing => "WorkerPing",
        }
    }
}

/// An inbound event, reduced to what the gateway's rules read.
pub enum InboundEvent {
    BatchPropose,
    BatchSignature,
    BatchCertified,
    BlockRequest { start_height: u32, end_height: u32 },
    BlockResponse,
    CertificateRequest(Field),
    CertificateResponse(Field),
    ChallengeRequest,
    ChallengeResponse,
    /// A disconnect, with the reason the peer gave.
    Disconnect(DisconnectReason),
    /// A primary ping: its event version, and the sync module's verdict on its block
    /// locators (`true` where the node runs no sync module, which then checks nothing).
    PrimaryPing { version: u32, locators_valid: bool },
    TransmissionRequest(TransmissionID),
    TransmissionResponse(TransmissionID),
    ValidatorsRequest,
    ValidatorsResponse { num_validators: usize },
    WorkerPing(Vec<TransmissionID>),
}

/// The kind of an inbound event.
pub open spec fn spec_event_kind(e: InboundEvent) -> EventKind {
    match e {
        InboundEvent::BatchPropose => EventKind::BatchPropose,
        InboundEvent::BatchSignature => EventKind::BatchSignature,
        InboundEvent::BatchCertified => EventKind::BatchCertified,
        InboundEvent::BlockRequest { .. } => EventKind::BlockRequest,
        InboundEvent::BlockResponse => EventKind::BlockResponse,
        InboundEvent::CertificateRequest(_) => EventKind::CertificateRequest,
        InboundEvent::CertificateResponse(_) => EventKind::CertificateResponse,
        InboundEvent::ChallengeRequest => EventKind::ChallengeRequest,
        InboundEvent::ChallengeResponse => EventKind::ChallengeResponse,
        InboundEvent::Disconnect(_) => EventKind::Disconnect,
        InboundEvent::PrimaryPing { .. } => EventKind::PrimaryPing,
        InboundEvent::TransmissionRequest(_) => EventKind::TransmissionRequest,
        InboundEvent::TransmissionResponse(_) => EventKind::TransmissionResponse,
        InboundEvent::ValidatorsRequest => EventKind::ValidatorsRequest,
        InboundEvent::ValidatorsResponse { .. } => EventKind::ValidatorsResponse,
        InboundEvent::WorkerPing(_) => EventKind::WorkerPing,
    }
}

impl InboundEvent {
    /// The event's kind.
    pub fn kind(&self) -> (r: EventKind)
        ensures
            r == spec_event_kind(*self),
    {
        match self {
            InboundEvent::BatchPropose => EventKind::BatchPropose,
            InboundEvent::BatchSignature => EventKind::BatchSignature,
            InboundEvent::BatchCertified => EventKind::BatchCertified,
            InboundEvent::BlockRequest { .. } => EventKind::BlockRequest,
            InboundEvent::BlockResponse => EventKind::BlockResponse,
            InboundEvent::CertificateRequest(_) => EventKind::CertificateRequest,
            InboundEvent::CertificateResponse(_) => EventKind::CertificateResponse,
            InboundEvent::ChallengeRequest => EventKind::ChallengeRequest,
            InboundEvent::ChallengeResponse => EventKind::ChallengeResponse,
            InboundEvent::Disconnect(_) => EventKind::Disconnect,
            InboundEvent::PrimaryPing { .. } => EventKind::PrimaryPing,
            InboundEvent::TransmissionRequest(_) => EventKind::TransmissionRequest,
            InboundEvent::TransmissionResponse(_) => EventKind::TransmissionResponse,
            InboundEvent::ValidatorsRequest => EventKind::ValidatorsRequest,
            InboundEvent::ValidatorsResponse { .. } => EventKind::ValidatorsResponse,
            InboundEvent::WorkerPing(_) => EventKind::WorkerPing,
        }
    }
}

/// What the caller is to do with an inbound event that passed the gateway's rules.
pub enum InboundAction {
    /// Nothing: a duplicate that was rate limited, or a transmission with no worker to take it.
    Ignore,
    /// Forward the event from the peer to the primary or the sync module, by its kind.
    Forward(PeerIp),
    /// Serve the blocks of the range to the peer.
    ServeBlocks(PeerIp, u32, u32),
    /// Hand the transmission event to the worker.
    ToWorker(PeerIp, u8),
    /// Hand each transmission ID of the ping to its worker.
    ToWorkers(PeerIp, Vec<(TransmissionID, u8)>),
    /// Answer the peer with the validators this node shares.
    ShareValidators(PeerIp),
    /// Dial the validators of the response that pass `should_connect_to_validator`.
    ConnectToValidators(PeerIp),
}

/// What the ledger answered about the committees that authorize a validator.
pub struct CommitteeLookups {
    /// The committee lookback for the current round, if the ledger has it.
    pub lookback: Option<Committee>,
    /// The latest committee on the ledger, if it has one.
    pub current: Option<Committee>,
    /// The committee lookbacks of every other round from the round of the block that the
    /// sync tolerance reaches back to; `None` if that block's round is unknown.
    pub previous_lookbacks: Option<Vec<Committee>>,
}

/// `true` if the committee is known and has the address as a member.
pub open spec fn member_of(c: Option<Committee>, a: Address) -> bool {
    match c {
        Some(c) => spec_is_member(c.spec_members(), a),
        None => false,
    }
}

impl CommitteeLookups {
    /// The committees are well formed.
    pub open spec fn wf(&self) -> bool {
        &&& (self.current matches Some(c) ==> c.wf())
    }

    /// `true` if the address is a member of the committee lookback, the current committee,
    /// or one of the previous committee lookbacks.
    pub open spec fn spec_authorizes(&self, a: Address) -> bool {
        member_of(self.lookback, a) || member_of(self.current, a) || match self.previous_lookbacks {
            Some(v) => exists|i: int| 0 <= i < v@.len() && spec_is_member(#[trigger] v@[i].spec_members(), a),
            None => false,
        }
    }

    /// The committee size is at most `u16::MAX`.
    pub proof fn lemma_size(&self)
        requires
            self.wf(),
        ensures
            0 <= self.spec_committee_size() <= u16::MAX,
    {
        if let Some(c) = self.current {
            c.lemma_wf();
        }
    }

    /// The committee size that the rate limits scale with: that of the current committee,
    /// or the maximum committee size if there is none.
    pub open spec fn spec_committee_size(&self) -> int {
        match self.current {
            Some(c) => c.spec_members().len() as int,
            None => MAX_COMMITTEE_SIZE as int,
        }
    }
}

/// The rounds whose committee lookbacks authorize a validator besides the current ones:
/// every other round from `block_round` up to, not including, `current_round`.
pub open spec fn spec_previous_lookback_rounds(block_round: u64, current_round: u64) -> Seq<u64> {
    let n = if current_round > block_round { (current_round - block_round + 1) / 2 } else { 0 };
    Seq::new(n as nat, |i: int| (block_round + 2 * i) as u64)
}

/// Returns the rounds whose committee lookbacks the caller is to fetch for
/// `CommitteeLookups::previous_lookbacks`: every other round from `block_round` up to, not
/// including, `current_round`.
pub fn previous_lookback_rounds(block_round: u64, current_round: u64) -> (r: Vec<u64>)
    ensures
        r@ == spec_previous_lookback_rounds(block_round, current_round),
{
    let n: u64 = if current_round > block_round {
        let d = current_round - block_round;
        d / 2 + d % 2
    } else {
        0
    };
    let mut out: Vec<u64> = Vec::new();
    let mut i: u64 = 0;
    while i < n
        invariant
            n == spec_previous_lookback_rounds(block_round, current_round).len(),
            n > 0 ==> block_round + 2 * (n - 1) < current_round,
            i <= n,
            out@.len() == i,
            forall|j: int| 0 <= j < i ==> out@[j] == block_round + 2 * j,
        decreases n - i,
    {
        out.push(block_round + 2 * i);
        i = i + 1;
    }
    assert(out@ =~= spec_previous_lookback_rounds(block_round, current_round));
    out
}

/// The number of sightings the rate cache reports for the key: their sum, capped at
/// `usize::MAX`.
pub open spec fn capped_hits<K>(m: Map<i64, Map<K, u32>>, key: K) -> int {
    if total_hits(m, key) > usize::MAX {
        usize::MAX as int
    } else {
        total_hits(m, key)
    }
}

/// `true` if the address is an IPv4 loopback address (`127.0.0.0/8`).
pub open spec fn spec_is_loopback(ip: u32) -> bool {
    ip / 16777216 == 127
}

/// `true` if `ip` is this node: its listener address, or the unspecified or a loopback
/// address on its port.
pub open spec fn spec_is_local_ip(local_ip: PeerIp, ip: PeerIp) -> bool {
    ip == local_ip || ((ip.ip == 0 || spec_is_loopback(ip.ip)) && ip.port == local_ip.port)
}

/// `true` if the address is unspecified (`0.0.0.0`) or the broadcast address.
pub open spec fn spec_is_unspecified_or_broadcast(ip: u32) -> bool {
    ip == 0 || ip == u32::MAX
}

/// `true` if `ip` is a valid peer: not this node, not a bogon, neither unspecified nor the
/// broadcast address.
pub open spec fn spec_is_valid_peer_ip(local_ip: PeerIp, ip: PeerIp, is_bogon: bool) -> bool {
    !spec_is_local_ip(local_ip, ip) && !is_bogon && !spec_is_unspecified_or_broadcast(ip.ip)
}

/// The transmission IDs of a worker ping, each with its worker.
pub open spec fn spec_ping_assignments(ids: Seq<TransmissionID>, num_workers: u8) -> Seq<(TransmissionID, u8)> {
    ids.map_values(|id: TransmissionID| (id, spec_assign_to_worker(id, num_workers)))
}

/// Every transmission ID of a worker ping goes to one of the workers, in the ping's order.
pub proof fn law_ping_assignments_in_range(ids: Seq<TransmissionID>, num_workers: u8)
    requires
        num_workers > 0,
    ensures
        spec_ping_assignments(ids, num_workers).len() == ids.len(),
        forall|i: int| 0 <= i < ids.len() ==> (#[trigger] spec_ping_assignments(ids, num_workers)[i]).0 == ids[i]
            && spec_ping_assignments(ids, num_workers)[i].1 < num_workers,
{
    assert forall|i: int| 0 <= i < ids.len() implies (#[trigger] spec_ping_assignments(ids, num_workers)[i]).0 == ids[i]
        && spec_ping_assignments(ids, num_workers)[i].1 < num_workers by {
        let id = ids[i];
        if num_workers != 1 {
            let h = crate::helpers::partition::spec_sha256d_to_u128(crate::types::spec_transmission_id_bytes(id));
            assert(h % (num_workers as u128) < num_workers);
        }
    }
}

/// The caches that inbound events leave alone are unchanged.
pub open spec fn same_other_caches(c0: Cache, c1: Cache) -> bool {
    &&& c1.seen_inbound_connections == c0.seen_inbound_connections
    &&& c1.seen_outbound_events == c0.seen_outbound_events
    &&& c1.seen_outbound_certificates == c0.seen_outbound_certificates
    &&& c1.seen_outbound_transmissions == c0.seen_outbound_transmissions
}

/// The gateway's state: its listener address, its development mode, its trusted
/// validators, the peers it is connected and connecting to, its rate caches, its resolver,
/// and the protocol limits it checks events against.
pub struct Gateway {
    local_ip: PeerIp,
    dev: Option<u16>,
    trusted_validators: Vec<PeerIp>,
    connected_peers: AssocMap<PeerIp, ()>,
    connecting_peers: AssocMap<PeerIp, ()>,
    max_connections: u16,
    cache: Cache,
    resolver: Resolver,
    max_gc_rounds: u64,
    event_version: u32,
    max_blocks_per_response: u32,
}

/// The listener address a gateway starts with: the given one, else the loopback address on
/// the memory pool port shifted by the development ID, else the unspecified address on the
/// memory pool port.
pub open spec fn spec_gateway_ip(ip: Option<PeerIp>, dev: Option<u16>) -> PeerIp {
    match (ip, dev) {
        (Some(ip), _) => ip,
        (None, Some(d)) => PeerIp { ip: 0x7f000001, port: (MEMORY_POOL_PORT + d) as u16 },
        (None, None) => PeerIp { ip: 0, port: MEMORY_POOL_PORT },
    }
}

impl Gateway {
    /// The listener address.
    pub closed spec fn spec_local_ip(&self) -> PeerIp {
        self.local_ip
    }

    /// The development ID.
    pub closed spec fn spec_dev(&self) -> Option<u16> {
        self.dev
    }

    /// The trusted validators.
    pub closed spec fn spec_trusted(&self) -> Seq<PeerIp> {
        self.trusted_validators@
    }

    /// The peers the gateway is connected to.
    pub closed spec fn connected(&self) -> Set<PeerIp> {
        self.connected_peers@.dom()
    }

    /// The peers the gateway is shaking hands with.
    pub closed spec fn connecting(&self) -> Set<PeerIp> {
        self.connecting_peers@.dom()
    }

    /// The maximum number of connections.
    pub closed spec fn spec_max_connections(&self) -> u16 {
        self.max_connections
    }

    /// The rate caches.
    pub closed spec fn spec_cache(&self) -> Cache {
        self.cache
    }

    /// The resolver's mappings.
    pub closed spec fn spec_resolver(&self) -> ResolverView {
        self.resolver@
    }

    /// The number of garbage-collection rounds the rate limits scale with.
    pub closed spec fn spec_max_gc_rounds(&self) -> u64 {
        self.max_gc_rounds
    }

    /// The current event version; older peers are dropped.
    pub closed spec fn spec_event_version(&self) -> u32 {
        self.event_version
    }

    /// The maximum number of blocks one block request may ask for.
    pub closed spec fn spec_max_blocks_per_response(&self) -> u32 {
        self.max_blocks_per_response
    }

    /// The gateway's collections are well formed.
    pub closed spec fn wf(&self) -> bool {
        &&& self.connected_peers.wf()
        &&& self.connecting_peers.wf()
        &&& self.cache.wf()
        &&& self.resolver.wf()
    }

    /// `true` if `state` is `self` with only the parts given changed: the connecting
    /// peers, the connected peers, the cache and the resolver are compared by the caller.
    pub open spec fn same_settings(&self, state: &Gateway) -> bool {
        &&& state.spec_local_ip() == self.spec_local_ip()
        &&& state.spec_dev() == self.spec_dev()
        &&& state.spec_trusted() == self.spec_trusted()
        &&& state.spec_max_connections() == self.spec_max_connections()
        &&& state.spec_max_gc_rounds() == self.spec_max_gc_rounds()
        &&& state.spec_event_version() == self.spec_event_version()
        &&& state.spec_max_blocks_per_response() == self.spec_max_blocks_per_response()
    }

    /// The maximum number of events to cache for a committee of `size` members.
    pub open spec fn spec_max_cache_events(&self, size: int) -> int {
        self.spec_max_cache_transmissions(size)
    }

    /// The maximum number of certificate requests to cache.
    pub open spec fn spec_max_cache_certificates(&self, size: int) -> int {
        2 * self.spec_max_gc_rounds() * size
    }

    /// The maximum number of transmission requests to cache.
    pub open spec fn spec_max_cache_transmissions(&self, size: int) -> int {
        self.spec_max_cache_certificates(size) * MAX_TRANSMISSIONS_PER_BATCH
    }

    /// The maximum number of duplicates of any one request.
    pub open spec fn spec_max_cache_duplicates(&self, size: int) -> int {
        size * size
    }

    /// Initializes a gateway on the given listener address (or the default one for the
    /// development mode), with the trusted validators, the garbage-collection rounds, the
    /// current event version and the maximum blocks per response. It allows as many
    /// connections as the maximum committee size.
    pub fn new(
        ip: Option<PeerIp>,
        trusted_validators: Vec<PeerIp>,
        dev: Option<u16>,
        max_gc_rounds: u64,
        event_version: u32,
        max_blocks_per_response: u32,
    ) -> (r: Gateway)
        requires
            ip is None && dev is Some ==> MEMORY_POOL_PORT + dev->0 <= u16::MAX,
        ensures
            r.wf(),
            r.spec_local_ip() == spec_gateway_ip(ip, dev),
            r.spec_dev() == dev,
            r.spec_trusted() == trusted_validators@,
            r.connected() == Set::<PeerIp>::empty(),
            r.connecting() == Set::<PeerIp>::empty(),
            r.spec_max_connections() == MAX_COMMITTEE_SIZE,
            r.spec_max_gc_rounds() == max_gc_rounds,
            r.spec_event_version() == event_version,
            r.spec_max_blocks_per_response() == max_blocks_per_response,
            r.spec_cache().validators_requests() == Map::<PeerIp, u32>::empty(),
            r.spec_resolver().from_listener == Map::<PeerIp, PeerIp>::empty(),
            r.spec_resolver().to_listener == Map::<PeerIp, PeerIp>::empty(),
            r.spec_resolver().peer_addresses == Map::<PeerIp, Address>::empty(),
            r.spec_resolver().address_peers == Map::<Address, PeerIp>::empty(),
            r.spec_cache().seen_inbound_connections@ == Map::<i64, Map<u32, u32>>::empty(),
            r.spec_cache().seen_inbound_events@ == Map::<i64, Map<PeerIp, u32>>::empty(),
            r.spec_cache().seen_inbound_certificates@ == Map::<i64, Map<Field, u32>>::empty(),
            r.spec_cache().seen_inbound_transmissions@ == Map::<i64, Map<TransmissionID, u32>>::empty(),
            r.spec_cache().seen_outbound_events@ == Map::<i64, Map<PeerIp, u32>>::empty(),
            r.spec_cache().seen_outbound_certificates@ == Map::<i64, Map<PeerIp, u32>>::empty(),
            r.spec_cache().seen_outbound_transmissions@ == Map::<i64, Map<PeerIp, u32>>::empty(),
    {
        let local_ip = match (ip, dev) {
            (Some(ip), _) => ip,
            (None, Some(d)) => PeerIp { ip: 0x7f000001, port: MEMORY_POOL_PORT + d },
            (None, None) => PeerIp { ip: 0, port: MEMORY_POOL_PORT },
        };
        let r = Gateway {
            local_ip,
            dev,
            trusted_validators,
            connected_peers: AssocMap::new(),
            connecting_peers: AssocMap::new(),
            max_connections: MAX_COMMITTEE_SIZE,
            cache: Cache::new(),
            resolver: Resolver::new(),
            max_gc_rounds,
            event_version,
            max_blocks_per_response,
        };
        assert(r.connected() =~= Set::<PeerIp>::empty());
        assert(r.connecting() =~= Set::<PeerIp>::empty());
        r
    }

    /// Returns the listener address of this node.
    pub fn local_ip(&self) -> (r: PeerIp)
        ensures
            r == self.spec_local_ip(),
    {
        self.local_ip
    }

    /// Returns the development ID of this node.
    pub fn dev(&self) -> (r: Option<u16>)
        ensures
            r == self.spec_dev(),
    {
        self.dev
    }

    /// Returns the resolver.
    pub fn resolver(&self) -> (r: &Resolver)
        ensures
            r@ == self.spec_resolver(),
            self.wf() ==> r.wf(),
    {
        &self.resolver
    }

    /// Returns the rate caches.
    pub fn cache(&self) -> (r: &Cache)
        ensures
            *r == self.spec_cache(),
    {
        &self.cache
    }

    /// Returns `true` if the given IP is this node.
    pub fn is_local_ip(&self, ip: PeerIp) -> (r: bool)
        ensures
            r == spec_is_local_ip(self.spec_local_ip(), ip),
    {
        let local = self.local_ip;
        (ip.ip == local.ip && ip.port == local.port) || ((ip.ip == 0 || ip.ip / 16777216 == 127)
            && ip.port == local.port)
    }

    /// Returns `true` if the given IP is not this node, is not a bogon address (`is_bogon`
    /// is what the network layer says of it), and is neither unspecified nor the broadcast
    /// address.
    pub fn is_valid_peer_ip(&self, ip: PeerIp, is_bogon: bool) -> (r: bool)
        ensures
            r == spec_is_valid_peer_ip(self.spec_local_ip(), ip, is_bogon),
    {
        !self.is_local_ip(ip) && !is_bogon && !(ip.ip == 0 || ip.ip == u32::MAX)
    }

    /// Returns `true` if the node is connected to the given peer IP.
    pub fn is_connected_ip(&self, ip: PeerIp) -> (r: bool)
        requires
            self.wf(),
        ensures
            r == self.connected().contains(ip),
    {
        self.connected_peers.contains_key(&ip)
    }

    /// Returns `true` if the node is connecting to the given peer IP.
    pub fn is_connecting_ip(&self, ip: PeerIp) -> (r: bool)
        requires
            self.wf(),
        ensures
            r == self.connecting().contains(ip),
    {
        self.connecting_peers.contains_key(&ip)
    }

    /// Returns `true` if the node is connected to the peer with the given Aleo address.
    pub fn is_connected_address(&self, address: Address) -> (r: bool)
        requires
            self.wf(),
        ensures
            r == (self.spec_resolver().address_peers.contains_key(address) && self.connected().contains(
                self.spec_resolver().address_peers[address],
            )),
    {
        match self.resolver.get_peer_ip_for_address(address) {
            Some(peer_ip) => self.is_connected_ip(peer_ip),
            None => false,
        }
    }

    /// Returns `true` if the peer IP is trusted.
    fn is_trusted_ip(&self, ip: PeerIp) -> (r: bool)
        ensures
            r == self.spec_trusted().contains(ip),
    {
        let mut i: usize = 0;
        while i < self.trusted_validators.len()
            invariant
                i <= self.trusted_validators@.len(),
                forall|j: int| 0 <= j < i ==> self.trusted_validators@[j] != ip,
            decreases self.trusted_validators@.len() - i,
        {
            let t = self.trusted_validators[i];
            if t.ip == ip.ip && t.port == ip.port {
                assert(self.trusted_validators@[i as int] == ip);
                return true;
            }
            i = i + 1;
        }
        false
    }

    /// Returns `true` if the given address is an authorized validator: a member of the
    /// committee lookback, of the current committee, or of one of the previous committee
    /// lookbacks (so that new validators connect as soon as they are bonded, and leaving
    /// ones stay until the next block).
    pub fn is_authorized_validator_address(&self, address: Address, lookups: &CommitteeLookups) -> (r: bool)
        ensures
            r == lookups.spec_authorizes(address),
    {
        let in_lookback = match &lookups.lookback {
            Some(c) => c.is_committee_member(address),
            None => false,
        };
        if in_lookback {
            return true;
        }
        let in_current = match &lookups.current {
            Some(c) => c.is_committee_member(address),
            None => false,
        };
        if in_current {
            return true;
        }
        match &lookups.previous_lookbacks {
            Some(v) => {
                let mut i: usize = 0;
                while i < v.len()
                    invariant
                        i <= v@.len(),
                        lookups.previous_lookbacks matches Some(w) && w@ == v@,
                        forall|j: int| 0 <= j < i ==> !spec_is_member(#[trigger] v@[j].spec_members(), address),
                    decreases v@.len() - i,
                {
                    if v[i].is_committee_member(address) {
                        assert(spec_is_member(v@[i as int].spec_members(), address));
                        assert(lookups.previous_lookbacks->0@ == v@);
                        assert(lookups.spec_authorizes(address));
                        return true;
                    }
                    i = i + 1;
                }
                false
            },
            None => false,
        }
    }

    /// Returns `true` if the given peer IP is trusted, or resolves to the address of an
    /// authorized validator.
    pub fn is_authorized_validator_ip(&self, ip: PeerIp, lookups: &CommitteeLookups) -> (r: bool)
        requires
            self.wf(),
        ensures
            r == (self.spec_trusted().contains(ip) || (self.spec_resolver().peer_addresses.contains_key(ip)
                && lookups.spec_authorizes(self.spec_resolver().peer_addresses[ip]))),
    {
        if self.is_trusted_ip(ip) {
            return true;
        }
        match self.resolver.get_address(ip) {
            Some(address) => self.is_authorized_validator_address(address, lookups),
            None => false,
        }
    }

    /// Returns the maximum number of connected peers.
    pub fn max_connected_peers(&self) -> (r: usize)
        ensures
            r == self.spec_max_connections(),
    {
        self.max_connections as usize
    }

    /// Returns the number of connected peers.
    pub fn number_of_connected_peers(&self) -> (r: usize)
        requires
            self.wf(),
        ensures
            r == self.connected().len(),
    {
        proof {
            self.connected_peers.lemma_view();
        }
        self.connected_peers.len()
    }

    /// Returns the connected peers, each once.
    pub fn connected_peers(&self) -> (r: Vec<PeerIp>)
        requires
            self.wf(),
        ensures
            r@.no_duplicates(),
            r@.to_set() == self.connected(),
    {
        proof {
            self.connected_peers.lemma_view();
        }
        let n = self.connected_peers.len();
        let mut out: Vec<PeerIp> = Vec::new();
        let mut i: usize = 0;
        while i < n
            invariant
                n == self.connected_peers.seq().len(),
                self.connected_peers.wf(),
                crate::assoc::keys_distinct(self.connected_peers.seq()),
                i <= n,
                out@.len() == i,
                forall|j: int| 0 <= j < i ==> #[trigger] out@[j] == self.connected_peers.seq()[j].0,
            decreases n - i,
        {
            let e = self.connected_peers.get_index(i);
            out.push(e.0);
            i = i + 1;
        }
        proof {
            let s = self.connected_peers.seq();
            assert forall|a: int, b: int| 0 <= a < out@.len() && 0 <= b < out@.len() && a != b implies out@[a]
                != out@[b] by {
                assert(s[a].0 != s[b].0);
            }
            assert forall|p: PeerIp| out@.to_set().contains(p) <==> self.connected().contains(p) by {
                if out@.to_set().contains(p) {
                    let j = choose|j: int| 0 <= j < out@.len() && out@[j] == p;
                    assert(self.connected_peers@.contains_key(s[j].0));
                }
                if self.connected().contains(p) {
                    let j = choose|j: int| 0 <= j < s.len() && s[j].0 == p;
                    assert(out@[j] == p);
                }
            }
            assert(out@.to_set() =~= self.connected());
        }
        out
    }

    /// Returns the addresses of the connected peers that the resolver knows.
    pub fn connected_addresses(&self) -> (r: Vec<Address>)
        requires
            self.wf(),
        ensures
            forall|a: Address| r@.contains(a) <==> exists|p: PeerIp| #[trigger] self.connected().contains(p)
                && self.spec_resolver().peer_addresses.contains_key(p)
                && self.spec_resolver().peer_addresses[p] == a,
    {
        let peers = self.connected_peers();
        let ghost m = self.resolver@.peer_addresses;
        let mut out: Vec<Address> = Vec::new();
        let mut i: usize = 0;
        while i < peers.len()
            invariant
                self.resolver.wf(),
                m == self.resolver@.peer_addresses,
                i <= peers@.len(),
                out@ == spec_resolved(m, peers@.take(i as int)),
            decreases peers@.len() - i,
        {
            assert(peers@.take(i + 1).drop_last() =~= peers@.take(i as int));
            match self.resolver.get_address(peers[i]) {
                Some(a) => {
                    out.push(a);
                },
                None => {},
            }
            i = i + 1;
        }
        proof {
            assert(peers@.take(peers@.len() as int) =~= peers@);
            lemma_resolved_contains(m, peers@);
            assert forall|a: Address| out@.contains(a) <==> exists|p: PeerIp| #[trigger] self.connected().contains(p)
                && m.contains_key(p) && m[p] == a by {
                if out@.contains(a) {
                    let j = choose|j: int| 0 <= j < peers@.len() && m.contains_key(peers@[j]) && m[peers@[j]] == a;
                    assert(peers@.to_set().contains(peers@[j]));
                }
                if exists|p: PeerIp| #[trigger] self.connected().contains(p) && m.contains_key(p) && m[p] == a {
                    let p = choose|p: PeerIp| #[trigger] self.connected().contains(p) && m.contains_key(p) && m[p] == a;
                    assert(peers@.to_set().contains(p));
                    let j = choose|j: int| 0 <= j < peers@.len() && peers@[j] == p;
                    assert(m.contains_key(peers@[j]) && m[peers@[j]] == a);
                }
            }
        }
        out
    }

    /// The maximum number of certificate requests to cache: twice the garbage-collection
    /// rounds times the committee size.
    pub fn max_cache_certificates(&self, lookups: &CommitteeLookups) -> (r: u128)
        requires
            lookups.wf(),
        ensures
            r == self.spec_max_cache_certificates(lookups.spec_committee_size()),
    {
        let size = max_committee_size(lookups);
        proof {
            lemma_cache_bound(self.max_gc_rounds as int, size as int);
        }
        2 * (self.max_gc_rounds as u128) * (size as u128)
    }

    /// The maximum number of transmission requests to cache: the certificate limit times the
    /// maximum number of transmissions per batch.
    pub fn max_cache_transmissions(&self, lookups: &CommitteeLookups) -> (r: u128)
        requires
            lookups.wf(),
        ensures
            r == self.spec_max_cache_transmissions(lookups.spec_committee_size()),
    {
        let c = self.max_cache_certificates(lookups);
        proof {
            lookups.lemma_size();
            lemma_cache_bound(self.max_gc_rounds as int, lookups.spec_committee_size());
        }
        c * (MAX_TRANSMISSIONS_PER_BATCH as u128)
    }

    /// The maximum number of events to cache: the transmission limit.
    pub fn max_cache_events(&self, lookups: &CommitteeLookups) -> (r: u128)
        requires
            lookups.wf(),
        ensures
            r == self.spec_max_cache_events(lookups.spec_committee_size()),
    {
        self.max_cache_transmissions(lookups)
    }

    /// The maximum number of duplicates of any one request: the committee size squared.
    pub fn max_cache_duplicates(&self, lookups: &CommitteeLookups) -> (r: u128)
        requires
            lookups.wf(),
        ensures
            r == self.spec_max_cache_duplicates(lookups.spec_committee_size()),
    {
        let size = max_committee_size(lookups) as u128;
        proof {
            assert(size * size <= 65535 * 65535) by (nonlinear_arith)
                requires
                    size <= 65535,
            ;
        }
        size * size
    }
}

/// Why a handshake is refused, or why a peer disconnects.
#[derive(Clone, Copy, Debug, PartialEq, Eq, Structural)]
pub enum DisconnectReason {
    /// The peer's event version is outdated.
    OutdatedClientVersion,
    /// The peer broke the protocol: it is not an authorized validator, or already connected.
    ProtocolViolation,
    /// The challenge response carries another restrictions ID, or an invalid signature.
    InvalidChallengeResponse,
    /// The peer gave no reason.
    NoReasonGiven,
}

/// The name of a disconnect reason.
pub open spec fn spec_reason_name(d: DisconnectReason) -> Seq<char> {
    match d {
        DisconnectReason::OutdatedClientVersion => "OutdatedClientVersion"@,
        DisconnectReason::ProtocolViolation => "ProtocolViolation"@,
        DisconnectReason::InvalidChallengeResponse => "InvalidChallengeResponse"@,
        DisconnectReason::NoReasonGiven => "NoReasonGiven"@,
    }
}

impl DisconnectReason {
    /// The reason's name.
    pub fn name(&self) -> (r: &'static str)
        ensures
            r@ == spec_reason_name(*self),
    {
        match self {
            DisconnectReason::OutdatedClientVersion => "OutdatedClientVersion",
            DisconnectReason::ProtocolViolation => "ProtocolViolation",
            DisconnectReason::InvalidChallengeResponse => "InvalidChallengeResponse",
            DisconnectReason::NoReasonGiven => "NoReasonGiven",
        }
    }
}

/// The kind of an outbound event, by the rate limit that applies to it.
#[derive(Debug, Clone, Copy, PartialEq, Eq, Structural)]
pub enum OutboundKind {
    /// A certificate request or response.
    Certificate,
    /// A transmission request or response.
    Transmission,
    /// Any other event.
    Other,
}

impl Gateway {
    /// `true` if the listener address is trusted or resolves to an authorized validator.
    pub open spec fn spec_authorized_ip(&self, ip: PeerIp, lookups: &CommitteeLookups) -> bool {
        self.spec_trusted().contains(ip) || (self.spec_resolver().peer_addresses.contains_key(ip)
            && lookups.spec_authorizes(self.spec_resolver().peer_addresses[ip]))
    }

    /// Checks that the node may dial the peer: it is not this node, the node is below its
    /// maximum number of connections, and it is neither connected nor connecting to it.
    pub fn check_connection_attempt(&self, peer_ip: PeerIp) -> (r: Result<(), GatewayError>)
        requires
            self.wf(),
        ensures
            r == (if spec_is_local_ip(self.spec_local_ip(), peer_ip) {
                Err(GatewayError::SelfConnect(peer_ip))
            } else if self.connected().len() >= self.spec_max_connections() {
                Err(GatewayError::MaximumPeersReached(peer_ip))
            } else if self.connected().contains(peer_ip) {
                Err(GatewayError::AlreadyConnected(peer_ip))
            } else if self.connecting().contains(peer_ip) {
                Err(GatewayError::AlreadyConnecting(peer_ip))
            } else {
                Ok(())
            }),
    {
        if self.is_local_ip(peer_ip) {
            return Err(GatewayError::SelfConnect(peer_ip));
        }
        if self.number_of_connected_peers() >= self.max_connected_peers() {
            return Err(GatewayError::MaximumPeersReached(peer_ip));
        }
        if self.is_connected_ip(peer_ip) {
            return Err(GatewayError::AlreadyConnected(peer_ip));
        }
        if self.is_connecting_ip(peer_ip) {
            return Err(GatewayError::AlreadyConnecting(peer_ip));
        }
        Ok(())
    }

    /// Checks at time `now` that the peer, known by its listener address, may connect: it is
    /// not this node; it is not connecting yet (it is marked as connecting from here on);
    /// it is not connected; and, unless it is a loopback address, it has not tried to
    /// connect more than `MAX_CONNECTION_ATTEMPTS` times in the restricted interval.
    pub fn ensure_peer_is_allowed(&mut self, now: i64, peer_ip: PeerIp) -> (r: Result<(), GatewayError>)
        requires
            old(self).wf(),
        ensures
            final(self).wf(),
            old(self).same_settings(final(self)),
            final(self).connected() == old(self).connected(),
            final(self).spec_resolver() == old(self).spec_resolver(),
            final(self).spec_cache().validators_requests() == old(self).spec_cache().validators_requests(),
            spec_is_local_ip(old(self).spec_local_ip(), peer_ip) ==> r == Err::<(), GatewayError>(GatewayError::SelfConnectRequest(peer_ip))
                && final(self).connecting() == old(self).connecting(),
            !spec_is_local_ip(old(self).spec_local_ip(), peer_ip) ==> final(self).connecting() == old(self).connecting().insert(peer_ip),
            !spec_is_local_ip(old(self).spec_local_ip(), peer_ip) && old(self).connecting().contains(peer_ip)
                ==> r == Err::<(), GatewayError>(GatewayError::AlreadyShakingHands(peer_ip)),
            !spec_is_local_ip(old(self).spec_local_ip(), peer_ip) && !old(self).connecting().contains(peer_ip)
                && old(self).connected().contains(peer_ip) ==> r == Err::<(), GatewayError>(GatewayError::AlreadyConnectedRequest(peer_ip)),
            ({
                let checks_rate = !spec_is_local_ip(old(self).spec_local_ip(), peer_ip) && !old(self).connecting().contains(peer_ip)
                    && !old(self).connected().contains(peer_ip) && !spec_is_loopback(peer_ip.ip);
                let attempts = capped_hits(final(self).spec_cache().seen_inbound_connections@, peer_ip.ip);
                &&& (checks_rate ==> final(self).spec_cache().seen_inbound_connections@ == recent(
                    bumped(old(self).spec_cache().seen_inbound_connections@, now, peer_ip.ip),
                    now,
                    RESTRICTED_INTERVAL,
                ))
                &&& (!checks_rate ==> final(self).spec_cache() == old(self).spec_cache())
                &&& (checks_rate ==> r == (if attempts > MAX_CONNECTION_ATTEMPTS {
                    Err(GatewayError::TooManyAttempts(peer_ip, attempts as usize))
                } else {
                    Ok(())
                }))
                &&& (!spec_is_local_ip(old(self).spec_local_ip(), peer_ip) && !old(self).connecting().contains(peer_ip)
                    && !old(self).connected().contains(peer_ip) && spec_is_loopback(peer_ip.ip) ==> r is Ok)
            }),
    {
        if self.is_local_ip(peer_ip) {
            return Err(GatewayError::SelfConnectRequest(peer_ip));
        }
        let was_connecting = self.connecting_peers.insert(peer_ip, ());
        if was_connecting.is_some() {
            assert(self.connecting() =~= old(self).connecting().insert(peer_ip));
            return Err(GatewayError::AlreadyShakingHands(peer_ip));
        }
        assert(self.connecting() =~= old(self).connecting().insert(peer_ip));
        if self.is_connected_ip(peer_ip) {
            return Err(GatewayError::AlreadyConnectedRequest(peer_ip));
        }
        if peer_ip.ip / 16777216 != 127 {
            let num_attempts = self.cache.seen_inbound_connections.retain_and_insert_at(
                now,
                peer_ip.ip,
                RESTRICTED_INTERVAL,
            );
            if num_attempts > MAX_CONNECTION_ATTEMPTS {
                return Err(GatewayError::TooManyAttempts(peer_ip, num_attempts));
            }
        }
        Ok(())
    }

    /// Removes the peer from the peers the gateway is shaking hands with.
    pub fn remove_connecting_peer(&mut self, peer_ip: PeerIp)
        requires
            old(self).wf(),
        ensures
            final(self).wf(),
            old(self).same_settings(final(self)),
            final(self).connecting() == old(self).connecting().remove(peer_ip),
            final(self).connected() == old(self).connected(),
            final(self).spec_resolver() == old(self).spec_resolver(),
            final(self).spec_cache() == old(self).spec_cache(),
    {
        self.connecting_peers.remove(&peer_ip);
        assert(self.connecting() =~= old(self).connecting().remove(peer_ip));
    }

    /// Inserts the peer into the connected peers, and maps its listener address, its
    /// (ambiguous) address and its Aleo address to each other in the resolver.
    pub fn insert_connected_peer(&mut self, peer_ip: PeerIp, peer_addr: PeerIp, address: Address)
        requires
            old(self).wf(),
        ensures
            final(self).wf(),
            old(self).same_settings(final(self)),
            final(self).connected() == old(self).connected().insert(peer_ip),
            final(self).connecting() == old(self).connecting(),
            final(self).spec_resolver() == spec_insert_peer(old(self).spec_resolver(), peer_ip, peer_addr, address),
            final(self).spec_cache() == old(self).spec_cache(),
    {
        self.resolver.insert_peer(peer_ip, peer_addr, address);
        self.connected_peers.insert(peer_ip, ());
        assert(self.connected() =~= old(self).connected().insert(peer_ip));
    }

    /// Removes the peer from the connected peers and from the resolver.
    pub fn remove_connected_peer(&mut self, peer_ip: PeerIp)
        requires
            old(self).wf(),
        ensures
            final(self).wf(),
            old(self).same_settings(final(self)),
            final(self).connected() == old(self).connected().remove(peer_ip),
            final(self).connecting() == old(self).connecting(),
            final(self).spec_resolver() == spec_remove_peer(old(self).spec_resolver(), peer_ip),
            final(self).spec_cache() == old(self).spec_cache(),
    {
        self.resolver.remove_peer(peer_ip);
        self.connected_peers.remove(&peer_ip);
        assert(self.connected() =~= old(self).connected().remove(peer_ip));
    }

    /// Handles the disconnect of the peer with the (ambiguous) address: if it resolves to a
    /// listener address, that peer is removed and its validators requests are cleared.
    /// Returns the listener address, if any.
    pub fn handle_disconnect(&mut self, peer_addr: PeerIp) -> (r: Option<PeerIp>)
        requires
            old(self).wf(),
        ensures
            final(self).wf(),
            old(self).same_settings(final(self)),
            r == old(self).spec_resolver().to_listener.get(peer_addr),
            final(self).connecting() == old(self).connecting(),
            old(self).spec_cache().same_rates(&final(self).spec_cache()),
            r matches Some(ip) ==> final(self).connected() == old(self).connected().remove(ip)
                && final(self).spec_resolver() == spec_remove_peer(old(self).spec_resolver(), ip)
                && final(self).spec_cache().validators_requests() == old(self).spec_cache().validators_requests().remove(ip),
            r is None ==> final(self).connected() == old(self).connected() && final(self).spec_resolver()
                == old(self).spec_resolver() && final(self).spec_cache() == old(self).spec_cache(),
    {
        match self.resolver.get_listener(peer_addr) {
            Some(peer_ip) => {
                self.remove_connected_peer(peer_ip);
                self.cache.clear_outbound_validators_requests(peer_ip);
                Some(peer_ip)
            },
            None => None,
        }
    }

    /// Verifies a challenge request from a peer with the given event version and Aleo
    /// address. Returns why the handshake is refused, if it is: an outdated version, an
    /// address that is not an authorized validator, or one that is already connected.
    pub fn verify_challenge_request(&self, version: u32, address: Address, lookups: &CommitteeLookups) -> (r: Option<
        DisconnectReason,
    >)
        requires
            self.wf(),
        ensures
            r == (if version < self.spec_event_version() {
                Some(DisconnectReason::OutdatedClientVersion)
            } else if !lookups.spec_authorizes(address) {
                Some(DisconnectReason::ProtocolViolation)
            } else if self.spec_resolver().address_peers.contains_key(address) && self.connected().contains(
                self.spec_resolver().address_peers[address],
            ) {
                Some(DisconnectReason::ProtocolViolation)
            } else {
                None
            }),
    {
        if version < self.event_version {
            return Some(DisconnectReason::OutdatedClientVersion);
        }
        if !self.is_authorized_validator_address(address, lookups) {
            return Some(DisconnectReason::ProtocolViolation);
        }
        if self.is_connected_address(address) {
            return Some(DisconnectReason::ProtocolViolation);
        }
        None
    }

    /// Decides whether to dial a validator of a validators response: it must be a valid peer
    /// (in development mode, merely not this node), not this node's own address, neither
    /// connected nor connecting by IP or by address, and an authorized validator.
    pub fn should_connect_to_validator(
        &self,
        validator_ip: PeerIp,
        validator_address: Address,
        own_address: Address,
        is_bogon: bool,
        lookups: &CommitteeLookups,
    ) -> (r: bool)
        requires
            self.wf(),
        ensures
            r == ((if self.spec_dev() is Some {
                !spec_is_local_ip(self.spec_local_ip(), validator_ip)
            } else {
                spec_is_valid_peer_ip(self.spec_local_ip(), validator_ip, is_bogon)
            }) && own_address != validator_address && !self.connected().contains(validator_ip)
                && !self.connecting().contains(validator_ip) && !(
            self.spec_resolver().address_peers.contains_key(validator_address) && self.connected().contains(
                self.spec_resolver().address_peers[validator_address],
            )) && lookups.spec_authorizes(validator_address)),
    {
        let valid = match self.dev {
            Some(_) => !self.is_local_ip(validator_ip),
            None => self.is_valid_peer_ip(validator_ip, is_bogon),
        };
        if !valid {
            return false;
        }
        if own_address == validator_address {
            return false;
        }
        if self.is_connected_ip(validator_ip) || self.is_connecting_ip(validator_ip) {
            return false;
        }
        if self.is_connected_address(validator_address) {
            return false;
        }
        self.is_authorized_validator_address(validator_address, lookups)
    }

    /// Decides whether to dial a trusted validator: it is neither this node, nor connecting,
    /// nor connected.
    pub fn should_connect_to_trusted(&self, validator_ip: PeerIp) -> (r: bool)
        requires
            self.wf(),
        ensures
            r == (!spec_is_local_ip(self.spec_local_ip(), validator_ip) && !self.connecting().contains(validator_ip)
                && !self.connected().contains(validator_ip)),
    {
        !self.is_local_ip(validator_ip) && !self.is_connecting_ip(validator_ip) && !self.is_connected_ip(
            validator_ip,
        )
    }

    /// Returns the trusted validators, in order.
    pub fn trusted_validators(&self) -> (r: Vec<PeerIp>)
        ensures
            r@ == self.spec_trusted(),
    {
        let mut out: Vec<PeerIp> = Vec::new();
        let mut i: usize = 0;
        while i < self.trusted_validators.len()
            invariant
                i <= self.trusted_validators@.len(),
                out@ == self.trusted_validators@.take(i as int),
            decreases self.trusted_validators@.len() - i,
        {
            out.push(self.trusted_validators[i]);
            i = i + 1;
            assert(out@ =~= self.trusted_validators@.take(i as int));
        }
        assert(out@ =~= self.trusted_validators@);
        out
    }

    /// `true` if the node should ask a connected validator for more validators: it has
    /// fewer than `MIN_CONNECTED_VALIDATORS` connections, and at least one.
    pub fn should_request_validators(&self) -> (r: bool)
        requires
            self.wf(),
        ensures
            r == (self.connected().len() < MIN_CONNECTED_VALIDATORS && self.connected().len() > 0),
    {
        let n = self.number_of_connected_peers();
        n < MIN_CONNECTED_VALIDATORS && n > 0
    }

    /// Records a validators request sent to the peer.
    pub fn record_validators_request(&mut self, peer_ip: PeerIp) -> (r: u32)
        requires
            old(self).wf(),
        ensures
            final(self).wf(),
            old(self).same_settings(final(self)),
            final(self).connected() == old(self).connected(),
            final(self).connecting() == old(self).connecting(),
            final(self).spec_resolver() == old(self).spec_resolver(),
            final(self).spec_cache().validators_requests() == old(self).spec_cache().validators_requests().insert(peer_ip, r),
    {
        self.cache.increment_outbound_validators_requests(peer_ip)
    }

    /// The connected peers to share in a validators response: all of them in development
    /// mode, else the valid ones (`bogons` are the peers the network layer calls bogons).
    pub fn validators_to_share(&self, bogons: &Vec<PeerIp>) -> (r: Vec<PeerIp>)
        requires
            self.wf(),
        ensures
            r@.no_duplicates(),
            forall|p: PeerIp| r@.contains(p) <==> self.connected().contains(p) && (self.spec_dev() is None
                ==> spec_is_valid_peer_ip(self.spec_local_ip(), p, bogons@.contains(p))),
    {
        let peers = self.connected_peers();
        let mut out: Vec<PeerIp> = Vec::new();
        let mut i: usize = 0;
        while i < peers.len()
            invariant
                i <= peers@.len(),
                peers@.no_duplicates(),
                out@.no_duplicates(),
                forall|p: PeerIp| out@.contains(p) ==> exists|j: int| 0 <= j < i && peers@[j] == p,
                forall|j: int| 0 <= j < i ==> (out@.contains(#[trigger] peers@[j]) <==> (self.spec_dev() is None
                    ==> spec_is_valid_peer_ip(self.spec_local_ip(), peers@[j], bogons@.contains(peers@[j])))),
            decreases peers@.len() - i,
        {
            let p = peers[i];
            let keep = match self.dev {
                Some(_) => true,
                None => self.is_valid_peer_ip(p, ip_in(bogons, p)),
            };
            if keep {
                proof {
                    assert(!out@.contains(p)) by {
                        if out@.contains(p) {
                            let j = choose|j: int| 0 <= j < i && peers@[j] == p;
                            assert(peers@[j] == peers@[i as int]);
                        }
                    }
                }
                let ghost before = out@;
                out.push(p);
                proof {
                    assert(out@ == before.push(p));
                    assert forall|j: int| 0 <= j < i + 1 implies (out@.contains(#[trigger] peers@[j]) <==> (
                    self.spec_dev() is None ==> spec_is_valid_peer_ip(
                        self.spec_local_ip(),
                        peers@[j],
                        bogons@.contains(peers@[j]),
                    ))) by {
                        if j < i {
                            assert(peers@[j] != p);
                            if out@.contains(peers@[j]) {
                                let k = choose|k: int| 0 <= k < out@.len() && out@[k] == peers@[j];
                                assert(before[k] == peers@[j]);
                            }
                            if before.contains(peers@[j]) {
                                let k = choose|k: int| 0 <= k < before.len() && before[k] == peers@[j];
                                assert(out@[k] == peers@[j]);
                            }
                        } else {
                            assert(out@[out@.len() - 1] == p);
                        }
                    }
                    assert forall|q: PeerIp| out@.contains(q) implies exists|j: int| 0 <= j < i + 1 && peers@[j] == q by {
                        let k = choose|k: int| 0 <= k < out@.len() && out@[k] == q;
                        if k < before.len() {
                            assert(before[k] == q);
                            assert(before.contains(q));
                        } else {
                            assert(peers@[i as int] == q);
                        }
                    }
                }
            } else {
                proof {
                    assert(!out@.contains(p)) by {
                        if out@.contains(p) {
                            let j = choose|j: int| 0 <= j < i && peers@[j] == p;
                            assert(peers@[j] == peers@[i as int]);
                        }
                    }
                }
            }
            i = i + 1;
        }
        proof {
            assert forall|p: PeerIp| out@.contains(p) <==> self.connected().contains(p) && (self.spec_dev() is None
                ==> spec_is_valid_peer_ip(self.spec_local_ip(), p, bogons@.contains(p))) by {
                if out@.contains(p) {
                    let j = choose|j: int| 0 <= j < peers@.len() && peers@[j] == p;
                    assert(peers@.to_set().contains(p));
                    assert(out@.contains(peers@[j]));
                }
                if self.connected().contains(p) {
                    assert(peers@.to_set().contains(p));
                    let j = choose|j: int| 0 <= j < peers@.len() && peers@[j] == p;
                    assert(out@.contains(peers@[j]) <==> (self.spec_dev() is None ==> spec_is_valid_peer_ip(
                        self.spec_local_ip(),
                        peers@[j],
                        bogons@.contains(peers@[j]),
                    )));
                }
            }
        }
        out
    }
}

impl Gateway {
    /// What an event from the authorized peer `ip` that passed the per-peer rate limit
    /// leads to, given the caches before (`c0`) and after (`c1`) and the result `r`.
    pub open spec fn spec_inbound_rest(
        &self,
        c0: Cache,
        c1: Cache,
        ip: PeerIp,
        event: &InboundEvent,
        now: i64,
        num_workers: u8,
        size: int,
        r: Result<InboundAction, GatewayError>,
    ) -> bool {
        let dup = self.spec_max_cache_duplicates(size);
        let unchanged_requests = c1.seen_inbound_certificates == c0.seen_inbound_certificates
            && c1.seen_inbound_transmissions == c0.seen_inbound_transmissions;
        let unchanged_counters = c1.validators_requests() == c0.validators_requests();
        match *event {
            InboundEvent::CertificateRequest(id) | InboundEvent::CertificateResponse(id) => {
                &&& c1.seen_inbound_certificates@ == recent(
                    bumped(c0.seen_inbound_certificates@, now, id),
                    now,
                    CACHE_REQUESTS_INTERVAL,
                )
                &&& c1.seen_inbound_transmissions == c0.seen_inbound_transmissions
                &&& unchanged_counters
                &&& r == Ok::<InboundAction, GatewayError>(
                    if capped_hits(c1.seen_inbound_certificates@, id) >= dup {
                        InboundAction::Ignore
                    } else {
                        InboundAction::Forward(ip)
                    },
                )
            },
            InboundEvent::TransmissionRequest(id) | InboundEvent::TransmissionResponse(id) => {
                &&& c1.seen_inbound_transmissions@ == recent(
                    bumped(c0.seen_inbound_transmissions@, now, id),
                    now,
                    CACHE_REQUESTS_INTERVAL,
                )
                &&& c1.seen_inbound_certificates == c0.seen_inbound_certificates
                &&& unchanged_counters
                &&& r == Ok::<InboundAction, GatewayError>(
                    if capped_hits(c1.seen_inbound_transmissions@, id) >= dup {
                        InboundAction::Ignore
                    } else {
                        InboundAction::ToWorker(ip, spec_assign_to_worker(id, num_workers))
                    },
                )
            },
            InboundEvent::ValidatorsResponse { num_validators } => {
                let vr = c0.validators_requests();
                let requested = vr.contains_key(ip) && vr[ip] > 0;
                &&& unchanged_requests
                &&& (num_validators > MAX_VALIDATORS_TO_SEND ==> r == Err::<InboundAction, GatewayError>(
                    GatewayError::TooManyValidators(ip),
                ) && unchanged_counters)
                &&& (num_validators <= MAX_VALIDATORS_TO_SEND && !requested ==> r == Err::<InboundAction, GatewayError>(
                    GatewayError::UnrequestedValidators(ip),
                ) && unchanged_counters)
                &&& (num_validators <= MAX_VALIDATORS_TO_SEND && requested ==> {
                    &&& c1.validators_requests() == vr.insert(ip, (vr[ip] - 1) as u32)
                    &&& r == Ok::<InboundAction, GatewayError>(
                        if self.connected().len() < MIN_CONNECTED_VALIDATORS {
                            InboundAction::ConnectToValidators(ip)
                        } else {
                            InboundAction::Ignore
                        },
                    )
                })
            },
            _ => {
                &&& unchanged_requests
                &&& unchanged_counters
                &&& match *event {
                    InboundEvent::BlockRequest { start_height, end_height } => r == if start_height >= end_height {
                        Err(GatewayError::InvalidBlockRange(ip, start_height, end_height))
                    } else if end_height - start_height > self.spec_max_blocks_per_response() {
                        Err(GatewayError::ExcessiveBlockRange(ip, start_height, end_height))
                    } else {
                        Ok(InboundAction::ServeBlocks(ip, start_height, end_height))
                    },
                    InboundEvent::ChallengeRequest | InboundEvent::ChallengeResponse => r == Err::<
                        InboundAction,
                        GatewayError,
                    >(GatewayError::ProtocolViolation(ip)),
                    InboundEvent::Disconnect(reason) => r == Err::<InboundAction, GatewayError>(
                        GatewayError::PeerDisconnected(ip, reason),
                    ),
                    InboundEvent::PrimaryPing { version, locators_valid } => r == if version < self.spec_event_version() {
                        Err(GatewayError::OutdatedVersion(ip, version))
                    } else if !locators_valid {
                        Err(GatewayError::InvalidBlockLocators(ip))
                    } else {
                        Ok(InboundAction::Forward(ip))
                    },
                    InboundEvent::ValidatorsRequest => r == Ok::<InboundAction, GatewayError>(
                        InboundAction::ShareValidators(ip),
                    ),
                    InboundEvent::WorkerPing(ids) => if ids@.len() > MAX_TRANSMISSIONS_PER_WORKER_PING {
                        r == Err::<InboundAction, GatewayError>(GatewayError::TooManyTransmissions(ip))
                    } else {
                        r matches Ok(InboundAction::ToWorkers(p, v)) && p == ip && v@ == spec_ping_assignments(
                            ids@,
                            num_workers,
                        )
                    },
                    _ => r == Ok::<InboundAction, GatewayError>(InboundAction::Forward(ip)),
                }
            },
        }
    }

    /// Handles an inbound event at time `now` from the peer with the (ambiguous) address
    /// `peer_addr`. The address must resolve to a listener address, whose peer must be an
    /// authorized validator and must not exceed the per-peer rate limit on events; a
    /// certificate or transmission that was asked for too often is ignored. Then the event
    /// is checked (block ranges, versions, sizes, validators requests) and the caller learns
    /// what to do with it. Any error means that the peer is to be disconnected.
    #[verifier::rlimit(40)]
    pub fn inbound(
        &mut self,
        now: i64,
        peer_addr: PeerIp,
        event: &InboundEvent,
        lookups: &CommitteeLookups,
        num_workers: u8,
    ) -> (r: Result<InboundAction, GatewayError>)
        requires
            old(self).wf(),
            lookups.wf(),
            num_workers > 0,
        ensures
            final(self).wf(),
            old(self).same_settings(final(self)),
            final(self).connected() == old(self).connected(),
            final(self).connecting() == old(self).connecting(),
            final(self).spec_resolver() == old(self).spec_resolver(),
            ({
                let c0 = old(self).spec_cache();
                let c1 = final(self).spec_cache();
                let rv = old(self).spec_resolver();
                let size = lookups.spec_committee_size();
                &&& (!rv.to_listener.contains_key(peer_addr) ==> r == Err::<InboundAction, GatewayError>(
                    GatewayError::UnresolvedPeer(peer_addr),
                ) && c1 == c0)
                &&& (rv.to_listener.contains_key(peer_addr) ==> {
                    let ip = rv.to_listener[peer_addr];
                    let events = capped_hits(c1.seen_inbound_events@, ip);
                    &&& (!old(self).spec_authorized_ip(ip, lookups) ==> r == Err::<InboundAction, GatewayError>(
                        GatewayError::NotAuthorized(ip, spec_event_kind(*event)),
                    ) && c1 == c0)
                    &&& (old(self).spec_authorized_ip(ip, lookups) ==> {
                        &&& same_other_caches(c0, c1)
                        &&& c1.seen_inbound_events@ == recent(
                            bumped(c0.seen_inbound_events@, now, ip),
                            now,
                            CACHE_EVENTS_INTERVAL,
                        )
                        &&& (events >= old(self).spec_max_cache_events(size) ==> r == Err::<
                            InboundAction,
                            GatewayError,
                        >(GatewayError::SpammingEvents(ip, events as usize)) && c1.seen_inbound_certificates
                            == c0.seen_inbound_certificates && c1.seen_inbound_transmissions
                            == c0.seen_inbound_transmissions && c1.validators_requests() == c0.validators_requests())
                        &&& (events < old(self).spec_max_cache_events(size) ==> old(self).spec_inbound_rest(
                            c0,
                            c1,
                            ip,
                            event,
                            now,
                            num_workers,
                            size,
                            r,
                        ))
                    })
                })
            }),
    {
        let peer_ip = match self.resolver.get_listener(peer_addr) {
            Some(ip) => ip,
            None => {
                return Err(GatewayError::UnresolvedPeer(peer_addr));
            },
        };
        if !self.is_authorized_validator_ip(peer_ip, lookups) {
            return Err(GatewayError::NotAuthorized(peer_ip, event.kind()));
        }
        let num_events = self.cache.seen_inbound_events.retain_and_insert_at(now, peer_ip, CACHE_EVENTS_INTERVAL);
        if (num_events as u128) >= self.max_cache_events(lookups) {
            return Err(GatewayError::SpammingEvents(peer_ip, num_events));
        }
        let certificate_id: Option<Field> = match event {
            InboundEvent::CertificateRequest(id) => Some(*id),
            InboundEvent::CertificateResponse(id) => Some(*id),
            _ => None,
        };
        if let Some(id) = certificate_id {
            let n = self.cache.seen_inbound_certificates.retain_and_insert_at(now, id, CACHE_REQUESTS_INTERVAL);
            if (n as u128) >= self.max_cache_duplicates(lookups) {
                return Ok(InboundAction::Ignore);
            } else {
                return Ok(InboundAction::Forward(peer_ip));
            }
        }
        let transmission_id: Option<TransmissionID> = match event {
            InboundEvent::TransmissionRequest(id) => Some(*id),
            InboundEvent::TransmissionResponse(id) => Some(*id),
            _ => None,
        };
        if let Some(id) = transmission_id {
            let n = self.cache.seen_inbound_transmissions.retain_and_insert_at(now, id, CACHE_REQUESTS_INTERVAL);
            if (n as u128) >= self.max_cache_duplicates(lookups) {
                return Ok(InboundAction::Ignore);
            } else {
                return Ok(InboundAction::ToWorker(peer_ip, assign_to_worker(id, num_workers)));
            }
        }
        match event {
            InboundEvent::BlockRequest { start_height, end_height } => {
                if *start_height >= *end_height {
                    return Err(GatewayError::InvalidBlockRange(peer_ip, *start_height, *end_height));
                }
                if *end_height - *start_height > self.max_blocks_per_response {
                    return Err(GatewayError::ExcessiveBlockRange(peer_ip, *start_height, *end_height));
                }
                Ok(InboundAction::ServeBlocks(peer_ip, *start_height, *end_height))
            },
            InboundEvent::ChallengeRequest | InboundEvent::ChallengeResponse => {
                Err(GatewayError::ProtocolViolation(peer_ip))
            },
            InboundEvent::Disconnect(reason) => Err(GatewayError::PeerDisconnected(peer_ip, *reason)),
            InboundEvent::PrimaryPing { version, locators_valid } => {
                if *version < self.event_version {
                    return Err(GatewayError::OutdatedVersion(peer_ip, *version));
                }
                if !*locators_valid {
                    return Err(GatewayError::InvalidBlockLocators(peer_ip));
                }
                Ok(InboundAction::Forward(peer_ip))
            },
            InboundEvent::ValidatorsRequest => Ok(InboundAction::ShareValidators(peer_ip)),
            InboundEvent::ValidatorsResponse { num_validators } => {
                if *num_validators > MAX_VALIDATORS_TO_SEND {
                    return Err(GatewayError::TooManyValidators(peer_ip));
                }
                if !self.cache.contains_outbound_validators_request(peer_ip) {
                    return Err(GatewayError::UnrequestedValidators(peer_ip));
                }
                self.cache.decrement_outbound_validators_requests(peer_ip);
                if self.number_of_connected_peers() < MIN_CONNECTED_VALIDATORS {
                    Ok(InboundAction::ConnectToValidators(peer_ip))
                } else {
                    Ok(InboundAction::Ignore)
                }
            },
            InboundEvent::WorkerPing(ids) => {
                if ids.len() > MAX_TRANSMISSIONS_PER_WORKER_PING {
                    return Err(GatewayError::TooManyTransmissions(peer_ip));
                }
                let assigned = assign_ping(ids, num_workers);
                Ok(InboundAction::ToWorkers(peer_ip, assigned))
            },
            _ => Ok(InboundAction::Forward(peer_ip)),
        }
    }

    /// Counts an outbound event to the peer at time `now` before it is sent: certificate and
    /// transmission events also count as events.
    pub fn note_outbound_at(&mut self, now: i64, peer_ip: PeerIp, kind: OutboundKind)
        requires
            old(self).wf(),
        ensures
            final(self).wf(),
            old(self).same_settings(final(self)),
            final(self).connected() == old(self).connected(),
            final(self).connecting() == old(self).connecting(),
            final(self).spec_resolver() == old(self).spec_resolver(),
            final(self).spec_cache().validators_requests() == old(self).spec_cache().validators_requests(),
            kind != OutboundKind::Other ==> final(self).spec_cache().seen_outbound_events@ == recent(
                bumped(old(self).spec_cache().seen_outbound_events@, now, peer_ip),
                now,
                CACHE_EVENTS_INTERVAL,
            ),
            kind == OutboundKind::Other ==> final(self).spec_cache() == old(self).spec_cache(),
    {
        match kind {
            OutboundKind::Other => {},
            _ => {
                self.cache.seen_outbound_events.retain_and_insert_at(now, peer_ip, CACHE_EVENTS_INTERVAL);
            },
        }
    }

    /// Counts an attempt to send an event of the kind to the peer at time `now`, and returns
    /// `true` if it may be sent now: the recent attempts of that kind do not exceed its limit
    /// (certificate requests, transmission requests, or events). The caller waits briefly
    /// and asks again while it returns `false`.
    pub fn may_send_at(&mut self, now: i64, peer_ip: PeerIp, kind: OutboundKind, lookups: &CommitteeLookups) -> (r: bool)
        requires
            old(self).wf(),
            lookups.wf(),
        ensures
            final(self).wf(),
            old(self).same_settings(final(self)),
            final(self).connected() == old(self).connected(),
            final(self).connecting() == old(self).connecting(),
            final(self).spec_resolver() == old(self).spec_resolver(),
            final(self).spec_cache().validators_requests() == old(self).spec_cache().validators_requests(),
            ({
                let c0 = old(self).spec_cache();
                let c1 = final(self).spec_cache();
                let size = lookups.spec_committee_size();
                match kind {
                    OutboundKind::Certificate => {
                        &&& c1.seen_outbound_certificates@ == recent(
                            bumped(c0.seen_outbound_certificates@, now, peer_ip),
                            now,
                            CACHE_REQUESTS_INTERVAL,
                        )
                        &&& r == (capped_hits(c1.seen_outbound_certificates@, peer_ip)
                            <= old(self).spec_max_cache_certificates(size))
                    },
                    OutboundKind::Transmission => {
                        &&& c1.seen_outbound_transmissions@ == recent(
                            bumped(c0.seen_outbound_transmissions@, now, peer_ip),
                            now,
                            CACHE_REQUESTS_INTERVAL,
                        )
                        &&& r == (capped_hits(c1.seen_outbound_transmissions@, peer_ip)
                            <= old(self).spec_max_cache_transmissions(size))
                    },
                    OutboundKind::Other => {
                        &&& c1.seen_outbound_events@ == recent(
                            bumped(c0.seen_outbound_events@, now, peer_ip),
                            now,
                            CACHE_EVENTS_INTERVAL,
                        )
                        &&& r == (capped_hits(c1.seen_outbound_events@, peer_ip)
                            <= old(self).spec_max_cache_events(size))
                    },
                }
            }),
    {
        match kind {
            OutboundKind::Certificate => {
                let n = self.cache.seen_outbound_certificates.retain_and_insert_at(now, peer_ip, CACHE_REQUESTS_INTERVAL);
                (n as u128) <= self.max_cache_certificates(lookups)
            },
            OutboundKind::Transmission => {
                let n = self.cache.seen_outbound_transmissions.retain_and_insert_at(now, peer_ip, CACHE_REQUESTS_INTERVAL);
                (n as u128) <= self.max_cache_transmissions(lookups)
            },
            OutboundKind::Other => {
                let n = self.cache.seen_outbound_events.retain_and_insert_at(now, peer_ip, CACHE_EVENTS_INTERVAL);
                (n as u128) <= self.max_cache_events(lookups)
            },
        }
    }
}

/// Verifies a peer's challenge response: it must carry the expected restrictions ID, and
/// its signature must verify (`signature_verifies` is what the signature scheme says of the
/// signature over the two nonces). Returns why the handshake is refused, if it is.
pub fn verify_challenge_response(
    restrictions_id: Field,
    expected_restrictions_id: Field,
    signature_verifies: bool,
) -> (r: Option<DisconnectReason>)
    ensures
        r == (if restrictions_id != expected_restrictions_id || !signature_verifies {
            Some(DisconnectReason::InvalidChallengeResponse)
        } else {
            None
        }),
{
    if restrictions_id != expected_restrictions_id {
        return Some(DisconnectReason::InvalidChallengeResponse);
    }
    if !signature_verifies {
        return Some(DisconnectReason::InvalidChallengeResponse);
    }
    None
}

/// Pairs each transmission ID of a worker ping with its worker, in order.
fn assign_ping(ids: &Vec<TransmissionID>, num_workers: u8) -> (r: Vec<(TransmissionID, u8)>)
    requires
        num_workers > 0,
    ensures
        r@ == spec_ping_assignments(ids@, num_workers),
{
    let mut out: Vec<(TransmissionID, u8)> = Vec::new();
    let mut i: usize = 0;
    while i < ids.len()
        invariant
            num_workers > 0,
            i <= ids@.len(),
            out@ == spec_ping_assignments(ids@.take(i as int), num_workers),
        decreases ids@.len() - i,
    {
        let id = ids[i];
        out.push((id, assign_to_worker(id, num_workers)));
        i = i + 1;
        assert(out@ =~= spec_ping_assignments(ids@.take(i as int), num_workers));
    }
    assert(ids@.take(ids@.len() as int) =~= ids@);
    out
}

/// Picks one of the peers at random, through `rand`'s `IteratorRandom::choose` with the
/// thread's generator: `None` exactly when there is none, otherwise one of them (which one
/// is left to chance).
#[verifier::external_body]
fn choose_peer(peers: Vec<PeerIp>) -> (r: Option<PeerIp>)
    ensures
        r is None <==> peers@.len() == 0,
        r matches Some(p) ==> peers@.contains(p),
{
    peers.into_iter().choose(&mut rand::thread_rng())
}

/// Shuffles the peers in place, through `rand`'s `SliceRandom::shuffle` with the thread's
/// generator: a permutation of them (which one is left to chance).
#[verifier::external_body]
fn shuffle_peers(peers: &mut Vec<PeerIp>)
    ensures
        final(peers)@.to_multiset() == old(peers)@.to_multiset(),
{
    peers.shuffle(&mut rand::thread_rng());
}

impl Gateway {
    /// `order` lists, each once, exactly the connected peers that may be shared given these
    /// bogons (those that `validators_to_share` gives), in some order.
    pub open spec fn is_share_order(&self, bogons: Seq<PeerIp>, order: Seq<PeerIp>) -> bool {
        &&& order.no_duplicates()
        &&& forall|p: PeerIp| order.contains(p) <==> self.connected().contains(p) && (self.spec_dev() is None
            ==> spec_is_valid_peer_ip(self.spec_local_ip(), p, bogons.contains(p)))
    }

    /// When the node has fewer than `MIN_CONNECTED_VALIDATORS` connections and at least one,
    /// picks a connected validator at random, records a validators request to it, and
    /// returns it for the caller to send the request to. Returns `None` otherwise.
    pub fn handle_min_connected_validators(&mut self) -> (r: Option<PeerIp>)
        requires
            old(self).wf(),
        ensures
            final(self).wf(),
            old(self).same_settings(final(self)),
            final(self).connected() == old(self).connected(),
            final(self).connecting() == old(self).connecting(),
            final(self).spec_resolver() == old(self).spec_resolver(),
            old(self).spec_cache().same_rates(&final(self).spec_cache()),
            r is Some <==> (old(self).connected().len() < MIN_CONNECTED_VALIDATORS && old(self).connected().len() > 0),
            r matches Some(p) ==> old(self).connected().contains(p) && final(self).spec_cache().validators_requests()
                == crate::helpers::cache::spec_increment(old(self).spec_cache().validators_requests(), p),
            r is None ==> final(self).spec_cache() == old(self).spec_cache(),
    {
        if !self.should_request_validators() {
            return None;
        }
        let validators = self.connected_peers();
        proof {
            assert(validators@.len() > 0) by {
                if validators@.len() == 0 {
                    assert(validators@.to_set() =~= Set::<PeerIp>::empty());
                }
            }
        }
        match choose_peer(validators) {
            Some(validator_ip) => {
                self.cache.increment_outbound_validators_requests(validator_ip);
                Some(validator_ip)
            },
            None => None,
        }
    }

    /// The validators to send in answer to a validators request: the connected peers to
    /// share (see `validators_to_share`), shuffled, at most `MAX_VALIDATORS_TO_SEND` of them,
    /// each with the address the resolver knows for it (peers without one are left out).
    /// Which peers are sent, when there are more, is left to chance.
    pub fn validators_for_response(&self, bogons: &Vec<PeerIp>) -> (r: Vec<(PeerIp, Address)>)
        requires
            self.wf(),
        ensures
            r@.len() <= MAX_VALIDATORS_TO_SEND,
            forall|i: int| 0 <= i < r@.len() ==> {
                let (p, a) = #[trigger] r@[i];
                &&& self.connected().contains(p)
                &&& (self.spec_dev() is None ==> spec_is_valid_peer_ip(self.spec_local_ip(), p, bogons@.contains(p)))
                &&& self.spec_resolver().peer_addresses.contains_key(p)
                &&& self.spec_resolver().peer_addresses[p] == a
            },
            forall|i: int, j: int| 0 <= i < j < r@.len() ==> r@[i].0 != r@[j].0,
            exists|order: Seq<PeerIp>| #[trigger] self.is_share_order(bogons@, order)
                && r@ == spec_resolved_pairs(self.spec_resolver().peer_addresses, order.take(
                if order.len() < MAX_VALIDATORS_TO_SEND { order.len() as int } else { MAX_VALIDATORS_TO_SEND as int })),
    {
        let mut peers = self.validators_to_share(bogons);
        let ghost shared = peers@;
        shuffle_peers(&mut peers);
        proof {
            assert forall|i: int| 0 <= i < peers@.len() implies shared.contains(#[trigger] peers@[i]) by {
                assert(peers@.to_multiset().count(peers@[i]) > 0) by {
                    peers@.to_multiset_ensures();
                }
                shared.to_multiset_ensures();
            }
            assert(peers@.no_duplicates()) by {
                shared.lemma_multiset_has_no_duplicates();
                peers@.lemma_multiset_has_no_duplicates_conv();
            }
        }
        let mut out: Vec<(PeerIp, Address)> = Vec::new();
        let mut i: usize = 0;
        while i < peers.len() && i < MAX_VALIDATORS_TO_SEND
            invariant
                self.resolver.wf(),
                i <= peers@.len(),
                i <= MAX_VALIDATORS_TO_SEND,
                out@.len() <= i,
                peers@.no_duplicates(),
                peers@.to_multiset() == shared.to_multiset(),
                forall|k: int| 0 <= k < peers@.len() ==> shared.contains(#[trigger] peers@[k]),
                forall|p: PeerIp| shared.contains(p) <==> self.connected().contains(p) && (self.spec_dev() is None
                    ==> spec_is_valid_peer_ip(self.spec_local_ip(), p, bogons@.contains(p))),
                forall|k: int| 0 <= k < out@.len() ==> exists|j: int| 0 <= j < i && #[trigger] out@[k].0 == peers@[j],
                forall|k: int| 0 <= k < out@.len() ==> {
                    let (p, a) = #[trigger] out@[k];
                    &&& self.resolver@.peer_addresses.contains_key(p)
                    &&& self.resolver@.peer_addresses[p] == a
                },
                forall|k: int, l: int| 0 <= k < l < out@.len() ==> out@[k].0 != out@[l].0,
                out@ == spec_resolved_pairs(self.resolver@.peer_addresses, peers@.take(i as int)),
            decreases peers@.len() - i,
        {
            let p = peers[i];
            assert(peers@.take(i + 1).drop_last() =~= peers@.take(i as int));
            match self.resolver.get_address(p) {
                Some(a) => {
                    let ghost before = out@;
                    proof {
                        assert forall|k: int| 0 <= k < before.len() implies before[k].0 != p by {
                            let j = choose|j: int| 0 <= j < i && #[trigger] before[k].0 == peers@[j];
                            assert(peers@[j] != peers@[i as int]);
                        }
                    }
                    out.push((p, a));
                    proof {
                        assert forall|k: int| 0 <= k < out@.len() implies exists|j: int| 0 <= j < i + 1 && #[trigger] out@[k].0 == peers@[j] by {
                            if k < before.len() {
                                assert(out@[k] == before[k]);
                            } else {
                                assert(out@[k].0 == peers@[i as int]);
                            }
                        }
                    }
                },
                None => {},
            }
            i = i + 1;
        }
        proof {
            assert forall|k: int| 0 <= k < out@.len() implies self.connected().contains(#[trigger] out@[k].0) by {
                let j = choose|j: int| 0 <= j < i && #[trigger] out@[k].0 == peers@[j];
                assert(shared.contains(peers@[j]));
            }
            assert forall|p: PeerIp| shared.contains(p) implies peers@.contains(p) by {
                shared.to_multiset_ensures();
                peers@.to_multiset_ensures();
                assert(shared.to_multiset().count(p) > 0);
                assert(peers@.to_multiset().count(p) > 0);
            }
            assert(self.is_share_order(bogons@, peers@));
        }
        out
    }
}

/// `true` if the peer is in the vector.
fn ip_in(v: &Vec<PeerIp>, ip: PeerIp) -> (r: bool)
    ensures
        r == v@.contains(ip),
{
    let mut i: usize = 0;
    while i < v.len()
        invariant
            i <= v@.len(),
            forall|j: int| 0 <= j < i ==> v@[j] != ip,
        decreases v@.len() - i,
    {
        let x = v[i];
        if x.ip == ip.ip && x.port == ip.port {
            assert(v@[i as int] == ip);
            return true;
        }
        i = i + 1;
    }
    false
}

/// Each peer paired with the address that the map resolves it to, in order, skipping
/// unknown peers.
pub open spec fn spec_resolved_pairs(m: Map<PeerIp, Address>, s: Seq<PeerIp>) -> Seq<(PeerIp, Address)>
    decreases s.len(),
{
    if s.len() == 0 {
        Seq::empty()
    } else {
        let rest = spec_resolved_pairs(m, s.drop_last());
        if m.contains_key(s.last()) {
            rest.push((s.last(), m[s.last()]))
        } else {
            rest
        }
    }
}

/// The addresses that the map resolves the peers to, in order, skipping unknown peers.
pub open spec fn spec_resolved(m: Map<PeerIp, Address>, s: Seq<PeerIp>) -> Seq<Address>
    decreases s.len(),
{
    if s.len() == 0 {
        Seq::empty()
    } else {
        let rest = spec_resolved(m, s.drop_last());
        if m.contains_key(s.last()) {
            rest.push(m[s.last()])
        } else {
            rest
        }
    }
}

/// An address is resolved exactly when some peer resolves to it.
proof fn lemma_resolved_contains(m: Map<PeerIp, Address>, s: Seq<PeerIp>)
    ensures
        forall|a: Address| spec_resolved(m, s).contains(a) <==> exists|j: int| 0 <= j < s.len()
            && m.contains_key(s[j]) && m[s[j]] == a,
    decreases s.len(),
{
    if s.len() > 0 {
        let t = s.drop_last();
        lemma_resolved_contains(m, t);
        assert forall|a: Address| spec_resolved(m, s).contains(a) <==> exists|j: int| 0 <= j < s.len()
            && m.contains_key(s[j]) && m[s[j]] == a by {
            let rest = spec_resolved(m, t);
            if spec_resolved(m, s).contains(a) {
                if m.contains_key(s.last()) && m[s.last()] == a {
                    assert(m.contains_key(s[s.len() - 1]));
                } else {
                    if m.contains_key(s.last()) {
                        let k = choose|k: int| 0 <= k < rest.push(m[s.last()]).len() && rest.push(m[s.last()])[k] == a;
                        assert(rest[k] == a);
                    }
                    assert(rest.contains(a));
                    let j = choose|j: int| 0 <= j < t.len() && m.contains_key(t[j]) && m[t[j]] == a;
                    assert(s[j] == t[j]);
                }
            }
            if exists|j: int| 0 <= j < s.len() && m.contains_key(s[j]) && m[s[j]] == a {
                let j = choose|j: int| 0 <= j < s.len() && m.contains_key(s[j]) && m[s[j]] == a;
                if j == s.len() - 1 {
                    assert(spec_resolved(m, s)[spec_resolved(m, s).len() - 1] == a);
                } else {
                    assert(t[j] == s[j]);
                    assert(rest.contains(a));
                    let k = choose|k: int| 0 <= k < rest.len() && rest[k] == a;
                    assert(spec_resolved(m, s)[k] == a);
                }
            }
        }
    }
}

/// The committee size that the rate limits scale with.
fn max_committee_size(lookups: &CommitteeLookups) -> (r: usize)
    requires
        lookups.wf(),
    ensures
        r == lookups.spec_committee_size(),
        r <= u16::MAX,
{
    match &lookups.current {
        Some(c) => {
            proof {
                c.lemma_wf();
            }
            c.num_members()
        },
        None => MAX_COMMITTEE_SIZE as usize,
    }
}

/// The cache limits fit in a `u128`.
proof fn lemma_cache_bound(gc: int, size: int)
    requires
        0 <= gc <= u64::MAX,
        0 <= size <= u16::MAX,
    ensures
        2 * gc * size <= u128::MAX,
        2 * gc * size * MAX_TRANSMISSIONS_PER_BATCH <= u128::MAX,
{
    assert(2 * gc * size <= 2 * u64::MAX * u16::MAX) by (nonlinear_arith)
        requires
            0 <= gc <= u64::MAX,
            0 <= size <= u16::MAX,
    ;
    assert(2 * gc * size * 250 <= 2 * u64::MAX * u16::MAX * 250) by (nonlinear_arith)
        requires
            0 <= 2 * gc * size <= 2 * u64::MAX * u16::MAX,
    ;
}

} // verus!
