//! The monitoring state of one upstream endpoint.

use vstd::prelude::*;
use crate::args::Args;
use crate::error::Error;
use crate::error::ErrorView;
use crate::network::NetworkId;
use crate::node::Node;
use crate::node::NodeView;
use crate::params::PathParams;
use crate::rpc::Caps;
use crate::rpc::CapsView;
use crate::rpc::Connections;
use crate::transport::TransportKind;

verus! {

/// The state of the monitor of one upstream endpoint.
#[derive(Debug)]
pub struct Connection {
    verbose: bool,
    caps: Option<Caps>,
    is_synced: bool,
    clients: u64,
    peers: u64,
    node: Node,
    params: PathParams,
    delegate: Option<u64>,
    is_connected: bool,
    is_online: bool,
    last_connect: Option<u64>,
    ttl: u64,
}

/// The mathematical value of a [`Connection`].
pub struct ConnectionView {
    pub verbose: bool,
    /// What the node reported about itself in this connection epoch.
    pub caps: Option<CapsView>,
    /// The latest sync flag observed.
    pub is_synced: bool,
    /// The latest count of RPC clients of the node.
    pub clients: u64,
    /// The latest count of peers of the node.
    pub peers: u64,
    pub node: NodeView,
    pub params: PathParams,
    /// The identity of the connection this one defers to, if any.
    pub delegate: Option<u64>,
    /// Whether the RPC channel is connected.
    pub is_connected: bool,
    /// Whether the latest refresh succeeded with the node synced.
    pub is_online: bool,
    /// When the current connection epoch began, in milliseconds, if one is
    /// being timed.
    pub last_connect: Option<u64>,
    /// How long a connection epoch may last, in milliseconds.
    pub ttl: u64,
}

/// A change of the state of one connection that concerns no other.
#[derive(Debug)]
pub enum Transition {
    /// The RPC channel came up at the given time; the epoch may last `ttl`.
    Connected { now: u64, ttl: u64 },
    /// The RPC channel went down.
    Disconnected,
    /// The epoch outlived its time to live.
    Expired,
    /// The node reported its capabilities.
    Caps(Caps),
    /// What the node reported about itself is forgotten.
    ClearCaps,
    /// The node reported whether it is synced.
    Synced(bool),
    /// The node reported its connection counts.
    Counts(Connections),
    /// A refresh ended well or badly.
    Online(bool),
}

/// The mathematical value of a [`Transition`].
pub enum TransitionView {
    Connected { now: u64, ttl: u64 },
    Disconnected,
    Expired,
    Caps(CapsView),
    ClearCaps,
    Synced(bool),
    Counts(Connections),
    Online(bool),
}

impl View for Transition {
    type V = TransitionView;

    open spec fn view(&self) -> TransitionView {
        match self {
            Transition::Connected { now, ttl } => TransitionView::Connected { now: *now, ttl: *ttl },
            Transition::Disconnected => TransitionView::Disconnected,
            Transition::Expired => TransitionView::Expired,
            Transition::Caps(c) => TransitionView::Caps(c@),
            Transition::ClearCaps => TransitionView::ClearCaps,
            Transition::Synced(b) => TransitionView::Synced(*b),
            Transition::Counts(c) => TransitionView::Counts(*c),
            Transition::Online(b) => TransitionView::Online(*b),
        }
    }
}

impl TransitionView {
    /// Capabilities carried by the transition are consistent.
    pub open spec fn wf(self) -> bool {
        self matches TransitionView::Caps(c) ==> c.wf()
    }
}

/// The state of a connection that was just created for `node`.
pub open spec fn fresh_connection(node: NodeView, verbose: bool) -> ConnectionView {
    ConnectionView {
        verbose,
        caps: None,
        is_synced: false,
        clients: 0,
        peers: 0,
        node,
        params: node.params,
        delegate: None,
        is_connected: false,
        is_online: false,
        last_connect: None,
        ttl: 0,
    }
}

impl ConnectionView {
    /// The identity of the connection: that of its node.
    pub open spec fn uid(self) -> u64 {
        self.node.uid
    }

    /// Whether the connection defers to nobody.
    pub open spec fn is_delegate(self) -> bool {
        self.delegate is None
    }

    /// The number of sockets the node serves, clients and peers together,
    /// capped at the largest 64-bit number.
    pub open spec fn sockets(self) -> u64 {
        if self.clients + self.peers <= u64::MAX {
            (self.clients + self.peers) as u64
        } else {
            u64::MAX
        }
    }

    /// The identifier of the host of the node; zero while it is unknown.
    pub open spec fn system_id(self) -> u64 {
        match self.caps {
            Some(c) => c.system_id,
            None => 0,
        }
    }

    /// Whether the node, by its own counts, has room for another client: its
    /// capabilities are known, it serves fewer clients than its client limit
    /// and fewer sockets than its descriptor limit.
    pub open spec fn has_room(self) -> bool {
        match self.caps {
            Some(c) => self.clients < c.clients_limit && self.clients + self.peers < c.fd_limit,
            None => false,
        }
    }

    /// The status shown for the connection.
    pub open spec fn status(self) -> Seq<char> {
        if self.is_connected {
            if !self.is_delegate() {
                "delegator"@
            } else if self.is_synced {
                "online"@
            } else {
                "syncing"@
            }
        } else {
            "offline"@
        }
    }

    /// Whether the current epoch has outlived its time to live at `now`.
    pub open spec fn expired(self, now: u64) -> bool {
        match self.last_connect {
            Some(t) => now - t > self.ttl,
            None => false,
        }
    }

    /// The parts of the state agree with each other.
    pub open spec fn wf(self) -> bool {
        &&& self.node.wf()
        &&& self.params == self.node.params
        &&& (self.caps matches Some(c) ==> c.wf())
    }

    /// The state after a transition.
    pub open spec fn after(self, t: TransitionView) -> ConnectionView {
        match t {
            TransitionView::Connected { now, ttl } => ConnectionView {
                last_connect: Some(now),
                ttl,
                is_connected: true,
                caps: None,
                ..self
            },
            TransitionView::Disconnected => ConnectionView {
                is_connected: false,
                is_online: false,
                last_connect: None,
                ..self
            },
            TransitionView::Expired => ConnectionView { last_connect: None, caps: None, ..self },
            TransitionView::Caps(c) => ConnectionView { caps: Some(c), ..self },
            TransitionView::ClearCaps => ConnectionView { caps: None, ..self },
            TransitionView::Synced(b) => ConnectionView { is_synced: b, ..self },
            TransitionView::Counts(c) => ConnectionView {
                clients: c.clients,
                peers: c.peers,
                ..self
            },
            TransitionView::Online(b) => ConnectionView { is_online: b, ..self },
        }
    }

    /// The state with another link.
    pub open spec fn bound_to(self, delegate: Option<u64>) -> ConnectionView {
        ConnectionView { delegate, ..self }
    }
}

impl View for Connection {
    type V = ConnectionView;

    closed spec fn view(&self) -> ConnectionView {
        ConnectionView {
            verbose: self.verbose,
            caps: match self.caps {
                Some(c) => Some(c@),
                None => None,
            },
            is_synced: self.is_synced,
            clients: self.clients,
            peers: self.peers,
            node: self.node@,
            params: self.params,
            delegate: self.delegate,
            is_connected: self.is_connected,
            is_online: self.is_online,
            last_connect: self.last_connect,
            ttl: self.ttl,
        }
    }
}

/// Whether connections can be made over a transport.
pub open spec fn connectable(kind: TransportKind) -> bool {
    kind != TransportKind::Grpc
}

impl Connection {
    /// Creates the monitor state for `node`: offline, without counts, not
    /// deferring to anyone. A node whose transport is not one that
    /// connections can be made over is refused.
    pub fn try_new(node: Node, args: &Args) -> (r: Result<Connection, Error>)
        ensures
            connectable(node@.transport_kind) ==> (r matches Ok(c) && c@ == fresh_connection(
                node@,
                args.verbose,
            )),
            !connectable(node@.transport_kind) ==> (r matches Err(e) && e@
                == ErrorView::ConnectionProtocolEncoding),
    {
        Connection::try_fresh(node, args.verbose)
    }

    /// Creates the monitor state for `node` with the given verbosity, as
    /// [`Connection::try_new`] does.
    pub(crate) fn try_fresh(node: Node, verbose: bool) -> (r: Result<Connection, Error>)
        ensures
            connectable(node@.transport_kind) ==> (r matches Ok(c) && c@ == fresh_connection(
                node@,
                verbose,
            )),
            !connectable(node@.transport_kind) ==> (r matches Err(e) && e@
                == ErrorView::ConnectionProtocolEncoding),
    {
        match node.transport_kind() {
            TransportKind::Grpc => Err(Error::ConnectionProtocolEncoding),
            _ => Ok(Connection::fresh(node, verbose)),
        }
    }

    /// Creates the monitor state for a node whose transport is known to be
    /// one that connections can be made over.
    pub(crate) fn fresh(node: Node, verbose: bool) -> (c: Connection)
        ensures
            c@ == fresh_connection(node@, verbose),
    {
        let params = *node.params();
        Connection {
            verbose,
            caps: None,
            is_synced: false,
            clients: 0,
            peers: 0,
            node,
            params,
            delegate: None,
            is_connected: false,
            is_online: false,
            last_connect: None,
            ttl: 0,
        }
    }

    /// Tells whether verbose mode is on.
    pub fn verbose(&self) -> (b: bool)
        ensures
            b == self@.verbose,
    {
        self.verbose
    }

    /// Tells whether the RPC channel is connected.
    pub fn is_connected(&self) -> (b: bool)
        ensures
            b == self@.is_connected,
    {
        self.is_connected
    }

    /// Tells whether the latest refresh succeeded with the node synced.
    pub fn is_online(&self) -> (b: bool)
        ensures
            b == self@.is_online,
    {
        self.is_online
    }

    /// Tells whether the node was last seen synced.
    pub fn is_synced(&self) -> (b: bool)
        ensures
            b == self@.is_synced,
    {
        self.is_synced
    }

    /// Returns the number of RPC clients of the node.
    pub fn clients(&self) -> (n: u64)
        ensures
            n == self@.clients,
    {
        self.clients
    }

    /// Returns the number of peers of the node.
    pub fn peers(&self) -> (n: u64)
        ensures
            n == self@.peers,
    {
        self.peers
    }

    /// Returns the number of sockets of the node, clients and peers together,
    /// capped at the largest 64-bit number.
    pub fn sockets(&self) -> (n: u64)
        ensures
            n == self@.sockets(),
    {
        self.clients.saturating_add(self.peers)
    }

    /// Returns what the node reported about itself in this epoch.
    pub fn caps(&self) -> (caps: Option<&Caps>)
        ensures
            match caps {
                Some(c) => self@.caps == Some(c@),
                None => self@.caps is None,
            },
    {
        self.caps.as_ref()
    }

    /// Returns the identifier of the host of the node, zero while unknown.
    pub fn system_id(&self) -> (id: u64)
        ensures
            id == self@.system_id(),
    {
        match &self.caps {
            Some(c) => c.system_id(),
            None => 0,
        }
    }

    /// Returns the address of the node.
    pub fn address(&self) -> (s: &str)
        ensures
            s@ == self@.node.address,
    {
        self.node.address()
    }

    /// Returns the descriptor of the node.
    pub fn node(&self) -> (node: &Node)
        ensures
            node@ == self@.node,
    {
        &self.node
    }

    /// Returns the identity of the connection.
    pub fn uid(&self) -> (uid: u64)
        ensures
            uid == self@.uid(),
    {
        self.node.uid()
    }

    /// Returns the bucket of the connection.
    pub fn params(&self) -> (p: PathParams)
        ensures
            p == self@.params,
    {
        self.params
    }

    /// Returns the network of the node.
    pub fn network_id(&self) -> (id: NetworkId)
        ensures
            id == self@.node.network,
    {
        self.node.network()
    }

    /// Tells whether the connection defers to nobody.
    pub fn is_delegate(&self) -> (b: bool)
        ensures
            b == self@.is_delegate(),
    {
        self.delegate.is_none()
    }

    /// Returns the identity of the connection this one defers to, if any.
    pub fn link(&self) -> (d: Option<u64>)
        ensures
            d == self@.delegate,
    {
        self.delegate
    }

    /// Lets this connection defer to the connection of the given identity,
    /// or to nobody.
    pub fn bind_delegate(&mut self, delegate: Option<u64>)
        ensures
            final(self)@ == old(self)@.bound_to(delegate),
    {
        self.delegate = delegate;
    }

    /// Returns the status shown for the connection: `offline` while it is
    /// not connected; else `delegator` if it defers to another connection,
    /// else `online` or `syncing` by its sync flag.
    pub fn status(&self) -> (s: &'static str)
        ensures
            s@ == self@.status(),
    {
        if self.is_connected {
            if !self.is_delegate() {
                "delegator"
            } else if self.is_synced {
                "online"
            } else {
                "syncing"
            }
        } else {
            "offline"
        }
    }

    /// Tells whether the node has room for another client by its own counts.
    pub fn has_room(&self) -> (b: bool)
        ensures
            b == self@.has_room(),
    {
        match &self.caps {
            Some(c) => {
                let total = self.clients.checked_add(self.peers);
                self.clients < c.clients_limit() && match total {
                    Some(t) => t < c.fd_limit(),
                    None => false,
                }
            },
            None => false,
        }
    }

    /// Tells whether the current epoch has outlived its time to live.
    pub fn expired(&self, now: u64) -> (b: bool)
        ensures
            b == self@.expired(now),
    {
        match self.last_connect {
            Some(t) => now > t && now - t > self.ttl,
            None => false,
        }
    }

    /// Applies a transition to the state.
    pub fn apply(&mut self, t: Transition)
        ensures
            final(self)@ == old(self)@.after(t@),
            t@.wf(),
    {
        match &t {
            Transition::Caps(c) => {
                c.attest();
            },
            _ => {},
        }
        match t {
            Transition::Connected { now, ttl } => {
                self.last_connect = Some(now);
                self.ttl = ttl;
                self.is_connected = true;
                self.caps = None;
            },
            Transition::Disconnected => {
                self.is_connected = false;
                self.is_online = false;
                self.last_connect = None;
            },
            Transition::Expired => {
                self.last_connect = None;
                self.caps = None;
            },
            Transition::Caps(c) => {
                self.caps = Some(c);
            },
            Transition::ClearCaps => {
                self.caps = None;
            },
            Transition::Synced(b) => {
                self.is_synced = b;
            },
            Transition::Counts(c) => {
                self.clients = c.clients;
                self.peers = c.peers;
            },
            Transition::Online(b) => {
                self.is_online = b;
            },
        }
    }
}

} // verus!
