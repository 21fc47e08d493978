//! The resolver of peers: the listener address of each connected peer, the (ambiguous)
//! address it connected from, and its Aleo address, each mapped both ways.
use vstd::prelude::*;
use crate::assoc::AssocMap;
use crate::types::{Address, PeerIp};

verus! {

/// What the resolver holds, as the logic sees it.
pub struct ResolverView {
    /// The map of the listener address to the (ambiguous) peer address.
    pub from_listener: Map<PeerIp, PeerIp>,
    /// The map of the (ambiguous) peer address to the listener address.
    pub to_listener: Map<PeerIp, PeerIp>,
    /// The map of the listener address to the Aleo address.
    pub peer_addresses: Map<PeerIp, Address>,
    /// The map of the Aleo address to the listener address.
    pub address_peers: Map<Address, PeerIp>,
}

/// The resolver after a peer is inserted.
pub open spec fn spec_insert_peer(r: ResolverView, listener_ip: PeerIp, peer_addr: PeerIp, address: Address) -> ResolverView {
    ResolverView {
        from_listener: r.from_listener.insert(listener_ip, peer_addr),
        to_listener: r.to_listener.insert(peer_addr, listener_ip),
        peer_addresses: r.peer_addresses.insert(listener_ip, address),
        address_peers: r.address_peers.insert(address, listener_ip),
    }
}

/// The resolver after a peer is removed: its listener mappings, and the reverse mappings of
/// what they held.
pub open spec fn spec_remove_peer(r: ResolverView, listener_ip: PeerIp) -> ResolverView {
    ResolverView {
        from_listener: r.from_listener.remove(listener_ip),
        to_listener: if r.from_listener.contains_key(listener_ip) {
            r.to_listener.remove(r.from_listener[listener_ip])
        } else {
            r.to_listener
        },
        peer_addresses: r.peer_addresses.remove(listener_ip),
        address_peers: if r.peer_addresses.contains_key(listener_ip) {
            r.address_peers.remove(r.peer_addresses[listener_ip])
        } else {
            r.address_peers
        },
    }
}

/// The resolver of peers.
pub struct Resolver {
    from_listener: AssocMap<PeerIp, PeerIp>,
    to_listener: AssocMap<PeerIp, PeerIp>,
    peer_addresses: AssocMap<PeerIp, Address>,
    address_peers: AssocMap<Address, PeerIp>,
}

impl View for Resolver {
    type V = ResolverView;

    closed spec fn view(&self) -> ResolverView {
        ResolverView {
            from_listener: self.from_listener@,
            to_listener: self.to_listener@,
            peer_addresses: self.peer_addresses@,
            address_peers: self.address_peers@,
        }
    }
}

impl Resolver {
    /// The maps are well formed.
    pub closed spec fn wf(&self) -> bool {
        &&& self.from_listener.wf()
        &&& self.to_listener.wf()
        &&& self.peer_addresses.wf()
        &&& self.address_peers.wf()
    }

    /// Initializes a new instance of the resolver.
    pub fn new() -> (r: Resolver)
        ensures
            r.wf(),
            r@.from_listener == Map::<PeerIp, PeerIp>::empty(),
            r@.to_listener == Map::<PeerIp, PeerIp>::empty(),
            r@.peer_addresses == Map::<PeerIp, Address>::empty(),
            r@.address_peers == Map::<Address, PeerIp>::empty(),
    {
        Resolver {
            from_listener: AssocMap::new(),
            to_listener: AssocMap::new(),
            peer_addresses: AssocMap::new(),
            address_peers: AssocMap::new(),
        }
    }

    /// Returns the listener address for the given (ambiguous) peer address, if it exists.
    pub fn get_listener(&self, peer_addr: PeerIp) -> (r: Option<PeerIp>)
        requires
            self.wf(),
        ensures
            r == self@.to_listener.get(peer_addr),
    {
        match self.to_listener.get(&peer_addr) {
            Some(x) => Some(*x),
            None => None,
        }
    }

    /// Returns the (ambiguous) peer address for the given listener address, if it exists.
    pub fn get_ambiguous(&self, peer_ip: PeerIp) -> (r: Option<PeerIp>)
        requires
            self.wf(),
        ensures
            r == self@.from_listener.get(peer_ip),
    {
        match self.from_listener.get(&peer_ip) {
            Some(x) => Some(*x),
            None => None,
        }
    }

    /// Returns the address for the given peer IP.
    pub fn get_address(&self, peer_ip: PeerIp) -> (r: Option<Address>)
        requires
            self.wf(),
        ensures
            r == self@.peer_addresses.get(peer_ip),
    {
        match self.peer_addresses.get(&peer_ip) {
            Some(x) => Some(*x),
            None => None,
        }
    }

    /// Returns the peer IP for the given address.
    pub fn get_peer_ip_for_address(&self, address: Address) -> (r: Option<PeerIp>)
        requires
            self.wf(),
        ensures
            r == self@.address_peers.get(address),
    {
        match self.address_peers.get(&address) {
            Some(x) => Some(*x),
            None => None,
        }
    }

    /// Inserts a bidirectional mapping of the listener address and the (ambiguous) peer
    /// address, alongside a bidirectional mapping of the listener address and the Aleo
    /// address.
    pub fn insert_peer(&mut self, listener_ip: PeerIp, peer_addr: PeerIp, address: Address)
        requires
            old(self).wf(),
        ensures
            final(self).wf(),
            final(self)@ == spec_insert_peer(old(self)@, listener_ip, peer_addr, address),
    {
        self.from_listener.insert(listener_ip, peer_addr);
        self.to_listener.insert(peer_addr, listener_ip);
        self.peer_addresses.insert(listener_ip, address);
        self.address_peers.insert(address, listener_ip);
    }

    /// Removes the bidirectional mapping of the listener address and the (ambiguous) peer
    /// address, alongside the bidirectional mapping of the listener address and the Aleo
    /// address.
    pub fn remove_peer(&mut self, listener_ip: PeerIp)
        requires
            old(self).wf(),
        ensures
            final(self).wf(),
            final(self)@ == spec_remove_peer(old(self)@, listener_ip),
    {
        if let Some(peer_addr) = self.from_listener.remove(&listener_ip) {
            self.to_listener.remove(&peer_addr);
        }
        if let Some(address) = self.peer_addresses.remove(&listener_ip) {
            self.address_peers.remove(&address);
        }
    }
}

/// A peer that is inserted and then removed leaves nothing behind in a resolver that did not
/// know its listener address, its (ambiguous) address or its Aleo address.
pub proof fn lemma_insert_then_remove(r: ResolverView, listener_ip: PeerIp, peer_addr: PeerIp, address: Address)
    requires
        !r.from_listener.contains_key(listener_ip),
        !r.to_listener.contains_key(peer_addr),
        !r.peer_addresses.contains_key(listener_ip),
        !r.address_peers.contains_key(address),
    ensures
        spec_remove_peer(spec_insert_peer(r, listener_ip, peer_addr, address), listener_ip) == r,
{
    let r2 = spec_remove_peer(spec_insert_peer(r, listener_ip, peer_addr, address), listener_ip);
    assert(r2.from_listener =~= r.from_listener);
    assert(r2.to_listener =~= r.to_listener);
    assert(r2.peer_addresses =~= r.peer_addresses);
    assert(r2.address_peers =~= r.address_peers);
}

} // verus!
