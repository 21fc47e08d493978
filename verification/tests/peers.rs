use snarkos_node_bft::committee::Committee;
use snarkos_node_bft::gateway::{
    previous_lookback_rounds, verify_challenge_response, CommitteeLookups, DisconnectReason, Gateway, GatewayError,
    EventKind, InboundAction, InboundEvent, OutboundKind, MAX_CONNECTION_ATTEMPTS, MAX_VALIDATORS_TO_SEND,
};
use snarkos_node_bft::helpers::cache::Cache;
use snarkos_node_bft::helpers::partition::assign_to_worker;
use snarkos_node_bft::helpers::resolver::Resolver;
use snarkos_node_bft::types::{PeerIp, TransmissionID};
use snarkos_node_bft::MAX_BATCH_DELAY_IN_MS;

fn ip(a: u8, b: u8, c: u8, d: u8, port: u16) -> PeerIp {
    PeerIp::new(a, b, c, d, port)
}

#[test]
fn test_seen_outbound_validators_requests() {
    let mut cache = Cache::new();
    let input = ip(1, 2, 3, 4, 1234);

    // Check the map is empty.
    assert!(!cache.contains_outbound_validators_request(input));

    // Insert some requests.
    for _ in 0..3 {
        cache.increment_outbound_validators_requests(input);
        assert!(cache.contains_outbound_validators_request(input));
    }

    // Remove a request.
    cache.decrement_outbound_validators_requests(input);
    assert!(cache.contains_outbound_validators_request(input));

    // Clear all requests.
    cache.clear_outbound_validators_requests(input);
    assert!(!cache.contains_outbound_validators_request(input));
}

#[test]
fn test_validators_request_then_response_restores_count() {
    let mut cache = Cache::new();
    let peer = ip(1, 2, 3, 4, 1234);
    assert_eq!(cache.increment_outbound_validators_requests(peer), 1);
    assert_eq!(cache.increment_outbound_validators_requests(peer), 2);
    assert_eq!(cache.increment_outbound_validators_requests(peer), 3);
    assert_eq!(cache.decrement_outbound_validators_requests(peer), 2);
    assert_eq!(cache.increment_outbound_validators_requests(peer), 3);
    assert_eq!(cache.decrement_outbound_validators_requests(peer), 2);
    // A peer without a count is left with none outstanding.
    let other = ip(5, 6, 7, 8, 1);
    cache.increment_outbound_validators_requests(other);
    assert_eq!(cache.decrement_outbound_validators_requests(other), 0);
    assert!(!cache.contains_outbound_validators_request(other));
}

#[test]
fn test_resolver() {
    let mut resolver = Resolver::new();
    let listener_ip = ip(127, 0, 0, 1, 1234);
    let peer_addr = ip(127, 0, 0, 1, 4321);
    let address = 0xabcdef;

    assert!(resolver.get_listener(peer_addr).is_none());
    assert!(resolver.get_address(listener_ip).is_none());
    assert!(resolver.get_ambiguous(listener_ip).is_none());
    assert!(resolver.get_peer_ip_for_address(address).is_none());

    resolver.insert_peer(listener_ip, peer_addr, address);

    assert_eq!(resolver.get_listener(peer_addr).unwrap(), listener_ip);
    assert_eq!(resolver.get_address(listener_ip).unwrap(), address);
    assert_eq!(resolver.get_ambiguous(listener_ip).unwrap(), peer_addr);
    assert_eq!(resolver.get_peer_ip_for_address(address).unwrap(), listener_ip);

    resolver.remove_peer(listener_ip);

    assert!(resolver.get_listener(peer_addr).is_none());
    assert!(resolver.get_address(listener_ip).is_none());
    assert!(resolver.get_ambiguous(listener_ip).is_none());
    assert!(resolver.get_peer_ip_for_address(address).is_none());
}

fn committee(addresses: &[u64]) -> Committee {
    Committee::new(0, addresses.iter().map(|&a| (a, 1_000)).collect()).unwrap()
}

fn lookups(members: &[u64]) -> CommitteeLookups {
    CommitteeLookups { lookback: Some(committee(members)), current: Some(committee(members)), previous_lookbacks: None }
}

fn gateway() -> Gateway {
    Gateway::new(Some(ip(10, 0, 0, 1, 5000)), vec![ip(10, 0, 0, 9, 5000)], None, 100, 3, 5)
}

#[test]
fn test_gateway_default_ips() {
    assert_eq!(Gateway::new(None, Vec::new(), Some(3), 100, 1, 1).local_ip(), ip(127, 0, 0, 1, 5003));
    assert_eq!(Gateway::new(None, Vec::new(), None, 100, 1, 1).local_ip(), ip(0, 0, 0, 0, 5000));
}

#[test]
fn test_is_local_and_valid_peer_ip() {
    let g = gateway();
    assert!(g.is_local_ip(ip(10, 0, 0, 1, 5000)));
    assert!(g.is_local_ip(ip(127, 0, 0, 1, 5000)));
    assert!(g.is_local_ip(ip(0, 0, 0, 0, 5000)));
    assert!(!g.is_local_ip(ip(127, 0, 0, 1, 5001)));
    assert!(g.is_valid_peer_ip(ip(10, 0, 0, 2, 5000), false));
    assert!(!g.is_valid_peer_ip(ip(10, 0, 0, 2, 5000), true));
    assert!(!g.is_valid_peer_ip(ip(255, 255, 255, 255, 1), false));
    assert!(!g.is_valid_peer_ip(ip(0, 0, 0, 0, 1), false));
}

#[test]
fn test_connection_rules() {
    let mut g = gateway();
    let peer = ip(10, 0, 0, 2, 5000);
    assert_eq!(g.check_connection_attempt(ip(10, 0, 0, 1, 5000)), Err(GatewayError::SelfConnect(ip(10, 0, 0, 1, 5000))));
    assert_eq!(g.check_connection_attempt(peer), Ok(()));
    assert_eq!(g.ensure_peer_is_allowed(100, peer), Ok(()));
    // The peer is now shaking hands.
    assert!(g.is_connecting_ip(peer));
    assert_eq!(g.check_connection_attempt(peer), Err(GatewayError::AlreadyConnecting(peer)));
    assert_eq!(g.ensure_peer_is_allowed(100, peer), Err(GatewayError::AlreadyShakingHands(peer)));
    g.remove_connecting_peer(peer);
    g.insert_connected_peer(peer, ip(10, 0, 0, 2, 40000), 2);
    assert!(g.is_connected_ip(peer));
    assert!(g.is_connected_address(2));
    assert_eq!(g.number_of_connected_peers(), 1);
    assert_eq!(g.connected_addresses(), vec![2]);
    assert_eq!(g.check_connection_attempt(peer), Err(GatewayError::AlreadyConnected(peer)));
    assert_eq!(g.handle_disconnect(ip(10, 0, 0, 2, 40000)), Some(peer));
    assert!(!g.is_connected_ip(peer));
    assert_eq!(g.number_of_connected_peers(), 0);
}

#[test]
fn test_connection_attempts_are_limited() {
    let mut g = gateway();
    let peer = ip(10, 0, 0, 3, 6000);
    for _ in 0..MAX_CONNECTION_ATTEMPTS {
        assert_eq!(g.ensure_peer_is_allowed(100, peer), Ok(()));
        g.remove_connecting_peer(peer);
    }
    assert_eq!(g.ensure_peer_is_allowed(100, peer), Err(GatewayError::TooManyAttempts(peer, MAX_CONNECTION_ATTEMPTS + 1)));
    g.remove_connecting_peer(peer);
    // Loopback peers are not limited.
    let local = ip(127, 0, 0, 1, 6000);
    for _ in 0..(MAX_CONNECTION_ATTEMPTS + 2) {
        assert_eq!(g.ensure_peer_is_allowed(100, local), Ok(()));
        g.remove_connecting_peer(local);
    }
}

#[test]
fn test_authorization() {
    let mut g = gateway();
    let l = lookups(&[1, 2, 3]);
    assert!(g.is_authorized_validator_address(2, &l));
    assert!(!g.is_authorized_validator_address(7, &l));
    let previous = CommitteeLookups { lookback: None, current: None, previous_lookbacks: Some(vec![committee(&[7])]) };
    assert!(g.is_authorized_validator_address(7, &previous));
    // A trusted validator is authorized by its IP alone.
    assert!(g.is_authorized_validator_ip(ip(10, 0, 0, 9, 5000), &l));
    let peer = ip(10, 0, 0, 2, 5000);
    assert!(!g.is_authorized_validator_ip(peer, &l));
    g.insert_connected_peer(peer, ip(10, 0, 0, 2, 40000), 2);
    assert!(g.is_authorized_validator_ip(peer, &l));
    assert_eq!(previous_lookback_rounds(4, 9), vec![4, 6, 8]);
    assert_eq!(previous_lookback_rounds(4, 8), vec![4, 6]);
    assert_eq!(previous_lookback_rounds(9, 4), Vec::<u64>::new());
}

#[test]
fn test_cache_limits() {
    let g = gateway();
    let l = lookups(&[1, 2, 3]);
    assert_eq!(g.max_cache_certificates(&l), 2 * 100 * 3);
    assert_eq!(g.max_cache_transmissions(&l), 2 * 100 * 3 * 250);
    assert_eq!(g.max_cache_events(&l), 2 * 100 * 3 * 250);
    assert_eq!(g.max_cache_duplicates(&l), 9);
    let none = CommitteeLookups { lookback: None, current: None, previous_lookbacks: None };
    assert_eq!(g.max_cache_duplicates(&none), 100 * 100);
}

#[test]
fn test_inbound_rules() {
    let mut g = gateway();
    let l = lookups(&[1, 2, 3]);
    let peer = ip(10, 0, 0, 2, 5000);
    let addr = ip(10, 0, 0, 2, 40000);
    // An unknown address is not resolved.
    assert_eq!(g.inbound(100, addr, &InboundEvent::BatchPropose, &l, 1).err(), Some(GatewayError::UnresolvedPeer(addr)));
    // An unauthorized peer is dropped.
    g.insert_connected_peer(peer, addr, 9);
    assert_eq!(g.inbound(100, addr, &InboundEvent::BatchPropose, &l, 1).err(), Some(GatewayError::NotAuthorized(peer, EventKind::BatchPropose)));
    g.remove_connected_peer(peer);
    g.insert_connected_peer(peer, addr, 2);
    assert!(matches!(g.inbound(100, addr, &InboundEvent::BatchPropose, &l, 1), Ok(InboundAction::Forward(p)) if p == peer));
    let bad_range = InboundEvent::BlockRequest { start_height: 5, end_height: 5 };
    assert_eq!(g.inbound(100, addr, &bad_range, &l, 1).err(), Some(GatewayError::InvalidBlockRange(peer, 5, 5)));
    assert_eq!(GatewayError::InvalidBlockRange(peer, 5, 5).message(), "Block request from '10.0.0.2:5000' has an invalid range (5..5)");
    assert_eq!(GatewayError::NotAuthorized(peer, EventKind::BatchPropose).message(), "[MemoryPool] Dropping 'BatchPropose' from '10.0.0.2:5000' (not authorized)");
    let big_range = InboundEvent::BlockRequest { start_height: 5, end_height: 11 };
    assert_eq!(g.inbound(100, addr, &big_range, &l, 1).err(), Some(GatewayError::ExcessiveBlockRange(peer, 5, 11)));
    let range = InboundEvent::BlockRequest { start_height: 5, end_height: 10 };
    assert!(matches!(g.inbound(100, addr, &range, &l, 1), Ok(InboundAction::ServeBlocks(p, 5, 10)) if p == peer));
    assert_eq!(g.inbound(100, addr, &InboundEvent::ChallengeRequest, &l, 1).err(), Some(GatewayError::ProtocolViolation(peer)));
    assert_eq!(g.inbound(100, addr, &InboundEvent::Disconnect(DisconnectReason::NoReasonGiven), &l, 1).err(), Some(GatewayError::PeerDisconnected(peer, DisconnectReason::NoReasonGiven)));
    let old_ping = InboundEvent::PrimaryPing { version: 2, locators_valid: true };
    assert_eq!(g.inbound(100, addr, &old_ping, &l, 1).err(), Some(GatewayError::OutdatedVersion(peer, 2)));
    let bad_locators = InboundEvent::PrimaryPing { version: 3, locators_valid: false };
    assert_eq!(g.inbound(100, addr, &bad_locators, &l, 1).err(), Some(GatewayError::InvalidBlockLocators(peer)));
    let ping = InboundEvent::PrimaryPing { version: 3, locators_valid: true };
    assert!(matches!(g.inbound(100, addr, &ping, &l, 1), Ok(InboundAction::Forward(_))));
    // A validators response needs a request.
    let response = InboundEvent::ValidatorsResponse { num_validators: 3 };
    assert_eq!(g.inbound(100, addr, &response, &l, 1).err(), Some(GatewayError::UnrequestedValidators(peer)));
    g.record_validators_request(peer);
    assert!(matches!(g.inbound(100, addr, &response, &l, 1), Ok(InboundAction::ConnectToValidators(_))));
    let too_many = InboundEvent::ValidatorsResponse { num_validators: MAX_VALIDATORS_TO_SEND + 1 };
    assert_eq!(g.inbound(100, addr, &too_many, &l, 1).err(), Some(GatewayError::TooManyValidators(peer)));
    // A worker ping is split among the workers.
    let ids = vec![TransmissionID::Solution(1, 2), TransmissionID::Solution(3, 4)];
    match g.inbound(100, addr, &InboundEvent::WorkerPing(ids.clone()), &l, 2) {
        Ok(InboundAction::ToWorkers(p, v)) => {
            assert_eq!(p, peer);
            assert_eq!(v, vec![(ids[0], assign_to_worker(ids[0], 2)), (ids[1], assign_to_worker(ids[1], 2))]);
        }
        _ => panic!("the ping was not dispatched"),
    }
    let big_ping = InboundEvent::WorkerPing(vec![TransmissionID::Ratification; 26]);
    assert_eq!(g.inbound(100, addr, &big_ping, &l, 1).err(), Some(GatewayError::TooManyTransmissions(peer)));
}

#[test]
fn test_inbound_duplicates_are_ignored() {
    let mut g = gateway();
    let l = lookups(&[1, 2]);
    let peer = ip(10, 0, 0, 2, 5000);
    let addr = ip(10, 0, 0, 2, 40000);
    g.insert_connected_peer(peer, addr, 2);
    // With two members, at most three duplicates of a certificate request pass.
    let request = InboundEvent::CertificateRequest(77);
    for _ in 0..3 {
        assert!(matches!(g.inbound(200, addr, &request, &l, 1), Ok(InboundAction::Forward(_))));
    }
    assert!(matches!(g.inbound(200, addr, &request, &l, 1), Ok(InboundAction::Ignore)));
    // After the interval, the request passes again.
    let later = 200 + (MAX_BATCH_DELAY_IN_MS / 1000) as i64 + 1;
    assert!(matches!(g.inbound(later, addr, &request, &l, 1), Ok(InboundAction::Forward(_))));
}

#[test]
fn test_outbound_rate_limit() {
    let mut g = gateway();
    let l = lookups(&[1]);
    let peer = ip(10, 0, 0, 2, 5000);
    // One member: 200 certificate requests per interval.
    for _ in 0..200 {
        g.note_outbound_at(300, peer, OutboundKind::Certificate);
        assert!(g.may_send_at(300, peer, OutboundKind::Certificate, &l));
    }
    assert!(!g.may_send_at(300, peer, OutboundKind::Certificate, &l));
}

#[test]
fn test_validators_to_share_and_dial() {
    let mut g = gateway();
    let l = lookups(&[1, 2, 3, 4]);
    let good = ip(10, 0, 0, 2, 5000);
    let bogon = ip(192, 168, 0, 2, 5000);
    g.insert_connected_peer(good, ip(10, 0, 0, 2, 1), 2);
    g.insert_connected_peer(bogon, ip(192, 168, 0, 2, 1), 3);
    assert_eq!(g.validators_to_share(&vec![bogon]), vec![good]);
    assert!(g.should_connect_to_validator(ip(10, 0, 0, 4, 5000), 4, 1, false, &l));
    assert!(!g.should_connect_to_validator(ip(10, 0, 0, 4, 5000), 1, 1, false, &l));
    assert!(!g.should_connect_to_validator(good, 4, 1, false, &l));
    assert!(!g.should_connect_to_validator(ip(10, 0, 0, 5, 5000), 2, 1, false, &l));
    assert!(!g.should_connect_to_validator(ip(10, 0, 0, 4, 5000), 8, 1, false, &l));
    assert!(g.should_connect_to_trusted(ip(10, 0, 0, 9, 5000)));
    assert!(g.should_request_validators());
}

#[test]
fn test_handshake_checks() {
    let mut g = gateway();
    let l = lookups(&[1, 2]);
    assert_eq!(g.verify_challenge_request(2, 1, &l), Some(DisconnectReason::OutdatedClientVersion));
    assert_eq!(g.verify_challenge_request(3, 9, &l), Some(DisconnectReason::ProtocolViolation));
    assert_eq!(g.verify_challenge_request(3, 1, &l), None);
    g.insert_connected_peer(ip(10, 0, 0, 2, 5000), ip(10, 0, 0, 2, 1), 1);
    assert_eq!(g.verify_challenge_request(3, 1, &l), Some(DisconnectReason::ProtocolViolation));
    assert_eq!(verify_challenge_response(5, 5, true), None);
    assert_eq!(verify_challenge_response(5, 6, true), Some(DisconnectReason::InvalidChallengeResponse));
    assert_eq!(verify_challenge_response(5, 5, false), Some(DisconnectReason::InvalidChallengeResponse));
}

#[test]
fn test_handle_min_connected_validators() {
    let mut g = gateway();
    // Without connections, nobody is asked.
    assert_eq!(g.handle_min_connected_validators(), None);
    let peers = [ip(10, 0, 0, 2, 5000), ip(10, 0, 0, 3, 5000)];
    g.insert_connected_peer(peers[0], ip(10, 0, 0, 2, 1), 2);
    g.insert_connected_peer(peers[1], ip(10, 0, 0, 3, 1), 3);
    let asked = g.handle_min_connected_validators().unwrap();
    assert!(peers.contains(&asked));
    assert!(g.cache().contains_outbound_validators_request(asked));
    // The response is then accepted.
    let l = lookups(&[2, 3]);
    let addr = if asked == peers[0] { ip(10, 0, 0, 2, 1) } else { ip(10, 0, 0, 3, 1) };
    let response = InboundEvent::ValidatorsResponse { num_validators: 1 };
    assert!(matches!(g.inbound(100, addr, &response, &l, 1), Ok(InboundAction::ConnectToValidators(p)) if p == asked));
    // The response for the single request leaves no outstanding request.
    assert!(!g.cache().contains_outbound_validators_request(asked));
}

#[test]
fn test_validators_for_response() {
    let mut g = gateway();
    let peers = [ip(10, 0, 0, 2, 5000), ip(10, 0, 0, 3, 5000), ip(10, 0, 0, 4, 5000)];
    for (i, p) in peers.iter().enumerate() {
        g.insert_connected_peer(*p, ip(10, 0, 0, 2 + i as u8, 1), 2 + i as u64);
    }
    let mut sent = g.validators_for_response(&vec![peers[2]]);
    sent.sort_by_key(|(p, _)| p.ip);
    assert_eq!(sent, vec![(peers[0], 2), (peers[1], 3)]);
}

#[test]
fn test_maximum_peers_reached() {
    let mut g = gateway();
    for i in 0..100u16 {
        g.insert_connected_peer(ip(10, 1, (i / 200) as u8, (i % 200) as u8 + 1, 5000), ip(10, 2, 0, 1, 1000 + i), 1000 + i as u64);
    }
    assert_eq!(g.max_connected_peers(), 100);
    let peer = ip(10, 3, 0, 1, 5000);
    assert_eq!(g.check_connection_attempt(peer), Err(GatewayError::MaximumPeersReached(peer)));
}

#[test]
fn test_spamming_events() {
    // One garbage-collection round and one member: at most 500 events per interval.
    let mut g = Gateway::new(Some(ip(10, 0, 0, 1, 5000)), Vec::new(), None, 1, 3, 5);
    let l = lookups(&[2]);
    let peer = ip(10, 0, 0, 2, 5000);
    let addr = ip(10, 0, 0, 2, 40000);
    g.insert_connected_peer(peer, addr, 2);
    for _ in 0..499 {
        assert!(g.inbound(100, addr, &InboundEvent::BatchPropose, &l, 1).is_ok());
    }
    assert_eq!(g.inbound(100, addr, &InboundEvent::BatchPropose, &l, 1).err(), Some(GatewayError::SpammingEvents(peer, 500)));
    assert_eq!(GatewayError::SpammingEvents(peer, 500).message(), "Dropping '10.0.0.2:5000' for spamming events (num_events = 500)");
}
