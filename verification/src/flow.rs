//! Network flows in their canonical form.

use crate::net::IpAddr;
use vstd::prelude::*;

verus! {

/// Stable identifier for one runtime flow.
#[derive(Clone, Copy, Debug, PartialEq, Eq, Hash, Structural)]
pub struct FlowId(u64);

impl FlowId {
    pub closed spec fn value(self) -> u64 {
        self.0
    }

    pub fn new(value: u64) -> (r: FlowId)
        ensures
            r.value() == value,
    {
        FlowId(value)
    }

    pub fn get(self) -> (r: u64)
        ensures
            r == self.value(),
    {
        self.0
    }
}

/// Identity metadata supplied by the platform layer.
#[derive(Debug, PartialEq, Eq)]
pub struct SourceContext {
    pub uid: Option<u32>,
    pub package: Option<String>,
}

/// Destination identity kept separate from DNS resolution state.
#[derive(Debug, PartialEq, Eq)]
pub enum DestinationHost {
    Domain(String),
    Ip(IpAddr),
}

#[derive(Debug, PartialEq, Eq)]
pub struct Destination {
    pub host: DestinationHost,
    pub port: u16,
}

#[derive(Clone, Copy, Debug, PartialEq, Eq, Structural)]
pub enum TransportProtocol {
    Tcp,
    Udp,
}

#[derive(Clone, Copy, Debug, PartialEq, Eq, Structural)]
pub enum NetworkKind {
    Unknown,
    Ethernet,
    Wifi,
    Cellular,
}

#[derive(Debug, PartialEq, Eq)]
pub struct NetworkContext {
    pub kind: NetworkKind,
    pub interface: Option<String>,
}

/// Canonical runtime representation of a network flow.
///
/// Import formats and platform-specific objects must be converted before
/// entering this type.
#[derive(Debug, PartialEq, Eq)]
pub struct FlowContext {
    pub id: FlowId,
    pub source: SourceContext,
    pub destination: Destination,
    pub transport: TransportProtocol,
    pub network: NetworkContext,
}

pub open spec fn optional_text(s: Option<String>) -> Option<Seq<char>> {
    match s {
        Some(t) => Some(t@),
        None => None,
    }
}

#[verifier::ext_equal]
pub struct SourceView {
    pub uid: Option<u32>,
    pub package: Option<Seq<char>>,
}

#[verifier::ext_equal]
pub enum HostView {
    Domain(Seq<char>),
    Ip(IpAddr),
}

#[verifier::ext_equal]
pub struct DestinationView {
    pub host: HostView,
    pub port: u16,
}

#[verifier::ext_equal]
pub struct NetworkView {
    pub kind: NetworkKind,
    pub interface: Option<Seq<char>>,
}

#[verifier::ext_equal]
pub struct FlowView {
    pub id: FlowId,
    pub source: SourceView,
    pub destination: DestinationView,
    pub transport: TransportProtocol,
    pub network: NetworkView,
}

impl View for SourceContext {
    type V = SourceView;

    open spec fn view(&self) -> SourceView {
        SourceView { uid: self.uid, package: optional_text(self.package) }
    }
}

impl View for DestinationHost {
    type V = HostView;

    open spec fn view(&self) -> HostView {
        match self {
            DestinationHost::Domain(d) => HostView::Domain(d@),
            DestinationHost::Ip(a) => HostView::Ip(*a),
        }
    }
}

impl View for Destination {
    type V = DestinationView;

    open spec fn view(&self) -> DestinationView {
        DestinationView { host: self.host@, port: self.port }
    }
}

impl View for NetworkContext {
    type V = NetworkView;

    open spec fn view(&self) -> NetworkView {
        NetworkView { kind: self.kind, interface: optional_text(self.interface) }
    }
}

impl View for FlowContext {
    type V = FlowView;

    open spec fn view(&self) -> FlowView {
        FlowView {
            id: self.id,
            source: self.source@,
            destination: self.destination@,
            transport: self.transport,
            network: self.network@,
        }
    }
}

impl Default for SourceContext {
    fn default() -> (r: SourceContext)
        ensures
            r@ == (SourceView { uid: None, package: None }),
    {
        SourceContext { uid: None, package: None }
    }
}

impl Default for NetworkKind {
    fn default() -> (r: NetworkKind)
        ensures
            r == NetworkKind::Unknown,
    {
        NetworkKind::Unknown
    }
}

impl Default for NetworkContext {
    fn default() -> (r: NetworkContext)
        ensures
            r@ == (NetworkView { kind: NetworkKind::Unknown, interface: None }),
    {
        NetworkContext { kind: NetworkKind::Unknown, interface: None }
    }
}

impl Clone for SourceContext {
    fn clone(&self) -> (r: SourceContext)
        ensures
            r@ == self@,
    {
        SourceContext {
            uid: self.uid,
            package: match &self.package {
                Some(name) => Some(name.clone()),
                None => None,
            },
        }
    }
}

impl Clone for NetworkContext {
    fn clone(&self) -> (r: NetworkContext)
        ensures
            r@ == self@,
    {
        NetworkContext {
            kind: self.kind,
            interface: match &self.interface {
                Some(name) => Some(name.clone()),
                None => None,
            },
        }
    }
}

impl Clone for FlowContext {
    fn clone(&self) -> (r: FlowContext)
        ensures
            r@ == self@,
    {
        FlowContext {
            id: self.id,
            source: self.source.clone(),
            destination: self.destination.clone(),
            transport: self.transport,
            network: self.network.clone(),
        }
    }
}

impl Clone for DestinationHost {
    fn clone(&self) -> (r: DestinationHost)
        ensures
            r@ == self@,
    {
        match self {
            DestinationHost::Domain(d) => DestinationHost::Domain(d.clone()),
            DestinationHost::Ip(a) => DestinationHost::Ip(*a),
        }
    }
}

impl Clone for Destination {
    fn clone(&self) -> (r: Destination)
        ensures
            r@ == self@,
    {
        Destination { host: self.host.clone(), port: self.port }
    }
}

impl FlowContext {
    pub fn new(
        id: FlowId,
        source: SourceContext,
        destination: Destination,
        transport: TransportProtocol,
        network: NetworkContext,
    ) -> (r: FlowContext)
        ensures
            r@ == (FlowView {
                id,
                source: source@,
                destination: destination@,
                transport,
                network: network@,
            }),
    {
        FlowContext { id, source, destination, transport, network }
    }
}

} // verus!
