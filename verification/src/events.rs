//! The merged event stream consumed by the node, and the reports it emits.
//!
//! Every asynchronous outcome of the transport stack and of the protocol
//! modules (gateway mapping, identify, liveness) arrives as one value of
//! [`Event`].  The node answers each event with one [`Report`]: a structured
//! description of the log line the operator should see, ranked by
//! [`Severity`].

use vstd::prelude::*;

verus! {

/// How a report should be ranked when it is written out.
///
/// Operational state transitions (a mapping expired, no gateway found) are
/// warnings: lower than true errors, but distinguishable from plain success.
#[derive(Clone, Copy, Debug, PartialEq, Eq, Structural)]
pub enum Severity {
    Info,
    Warn,
    Error,
}

/// A lifecycle outcome of the gateway mapping protocol for the listening
/// port: a pure pass-through of gateway discovery/mapping results.
#[derive(Debug)]
pub enum GatewayEvent {
    /// An external address was successfully mapped for the listening port.
    NewExternalAddr(String),
    /// A previously mapped external address is no longer valid.
    ExpiredExternalAddr(String),
    /// Discovery finished: no mapping-capable gateway on the local network.
    GatewayNotFound,
    /// A gateway was found but its upstream address is itself not public.
    NonRoutableGateway,
}

/// A peer's self-reported metadata from one identify exchange.
#[derive(Debug, PartialEq)]
pub struct PeerInfo {
    pub protocol_version: String,
    pub agent_version: String,
    pub listen_addrs: Vec<String>,
    pub observed_addr: String,
}

/// The mathematical value of a [`PeerInfo`]: every field as a sequence.
pub struct PeerInfoV {
    pub protocol_version: Seq<char>,
    pub agent_version: Seq<char>,
    pub listen_addrs: Seq<Seq<char>>,
    pub observed_addr: Seq<char>,
}

impl View for PeerInfo {
    type V = PeerInfoV;

    open spec fn view(&self) -> PeerInfoV {
        PeerInfoV {
            protocol_version: self.protocol_version@,
            agent_version: self.agent_version@,
            listen_addrs: self.listen_addrs.deep_view(),
            observed_addr: self.observed_addr@,
        }
    }
}

/// An outcome of one identify exchange on an established connection.
#[derive(Debug)]
pub enum IdentifyEvent {
    /// The remote's metadata arrived.
    Received { peer: String, info: PeerInfo },
    /// The local node's own metadata was transmitted to this peer.
    Sent { peer: String },
    /// An unsolicited metadata update was sent to this peer.
    Pushed { peer: String },
    /// The exchange failed; the connection remains otherwise usable.
    Error { peer: Option<String>, reason: String },
}

/// The outcome of one liveness probe on an established connection.
#[derive(Debug)]
pub enum PingOutcome {
    /// The probe was answered within this round-trip time, in microseconds.
    Success { rtt_micros: u64 },
    /// The probe failed (timeout, stream error); reported for visibility
    /// only, the connection is not closed on this account.
    Failure { reason: String },
}

/// One liveness probe result for one peer.
#[derive(Debug)]
pub struct PingEvent {
    pub peer: String,
    pub result: PingOutcome,
}

/// One event of the merged stream the node's dispatch loop consumes.
#[derive(Debug)]
pub enum Event {
    /// The transport bound a new local listening address.
    NewListenAddr { address: String },
    /// A gateway mapping lifecycle outcome.
    Gateway(GatewayEvent),
    /// An identify exchange outcome.
    Identify(IdentifyEvent),
    /// A liveness probe outcome.
    Ping(PingEvent),
    /// The security and multiplexing handshake completed on a connection.
    ConnectionEstablished { peer: String, remote_addr: String },
    /// A connection's underlying stream closed, with a recorded cause.
    ConnectionClosed { peer: String, cause: Option<String> },
    /// An inbound connection attempt was observed.
    IncomingConnection { local_addr: String, remote_addr: String },
    /// An inbound connection attempt failed.
    IncomingConnectionError { local_addr: String, remote_addr: String, reason: String },
    /// An outbound connection attempt failed; never retried automatically.
    OutgoingConnectionError { peer: Option<String>, reason: String },
}

/// What the node reports for one handled event: the structured content of
/// exactly one log line.
#[derive(Debug, PartialEq)]
pub enum Report {
    /// A local listening address is bound.
    ListenAddrBound { address: String },
    /// The mapped external address can be used by remote peers to connect.
    MappedAddressUsable { address: String },
    /// External reachability over this address is lost.
    MappingExpired { address: String },
    /// No NAT traversal available; only manual or local addressing remains.
    GatewayAbsent,
    /// NAT traversal blocked by nested address translation.
    GatewayNonRoutable,
    /// A peer's protocol, agent and address metadata.
    PeerIdentified { peer: String, info: PeerInfo },
    /// The local metadata went out to this peer.
    IdentifySent { peer: String },
    /// An unsolicited local metadata update went out to this peer.
    IdentifyPushed { peer: String },
    /// An identify exchange failed; non-fatal.
    IdentifyFailed { peer: Option<String>, reason: String },
    /// A liveness probe succeeded with this round-trip time in microseconds.
    PingSuccess { peer: String, rtt_micros: u64 },
    /// A liveness probe failed; non-fatal.
    PingFailure { peer: String, reason: String },
    /// A connection is established and now recorded.
    ConnectionRecorded { peer: String, remote_addr: String },
    /// A connection's record is removed, with its recorded cause.
    ConnectionDropped { peer: String, cause: Option<String> },
    /// An inbound attempt was observed; informational.
    IncomingAttempt { local_addr: String, remote_addr: String },
    /// An inbound attempt failed; non-fatal.
    IncomingFailed { local_addr: String, remote_addr: String, reason: String },
    /// An outbound attempt failed; non-fatal, not retried.
    OutgoingFailed { peer: Option<String>, reason: String },
}

impl Report {
    /// The rank of this report per the error taxonomy: handshake, probe and
    /// connection failures are errors or warnings; mapping and gateway
    /// transitions are operational warnings; the rest is informational.
    pub open spec fn spec_severity(self) -> Severity {
        match self {
            Report::ListenAddrBound { .. } => Severity::Info,
            Report::MappedAddressUsable { .. } => Severity::Info,
            Report::MappingExpired { .. } => Severity::Warn,
            Report::GatewayAbsent => Severity::Warn,
            Report::GatewayNonRoutable => Severity::Warn,
            Report::PeerIdentified { .. } => Severity::Info,
            Report::IdentifySent { .. } => Severity::Info,
            Report::IdentifyPushed { .. } => Severity::Info,
            Report::IdentifyFailed { .. } => Severity::Error,
            Report::PingSuccess { .. } => Severity::Info,
            Report::PingFailure { .. } => Severity::Warn,
            Report::ConnectionRecorded { .. } => Severity::Info,
            Report::ConnectionDropped { .. } => Severity::Warn,
            Report::IncomingAttempt { .. } => Severity::Info,
            Report::IncomingFailed { .. } => Severity::Error,
            Report::OutgoingFailed { .. } => Severity::Error,
        }
    }

    /// The rank at which this report should be logged.
    pub fn severity(&self) -> (s: Severity)
        ensures
            s == self.spec_severity(),
    {
        match self {
            Report::ListenAddrBound { .. } => Severity::Info,
            Report::MappedAddressUsable { .. } => Severity::Info,
            Report::MappingExpired { .. } => Severity::Warn,
            Report::GatewayAbsent => Severity::Warn,
            Report::GatewayNonRoutable => Severity::Warn,
            Report::PeerIdentified { .. } => Severity::Info,
            Report::IdentifySent { .. } => Severity::Info,
            Report::IdentifyPushed { .. } => Severity::Info,
            Report::IdentifyFailed { .. } => Severity::Error,
            Report::PingSuccess { .. } => Severity::Info,
            Report::PingFailure { .. } => Severity::Warn,
            Report::ConnectionRecorded { .. } => Severity::Info,
            Report::ConnectionDropped { .. } => Severity::Warn,
            Report::IncomingAttempt { .. } => Severity::Info,
            Report::IncomingFailed { .. } => Severity::Error,
            Report::OutgoingFailed { .. } => Severity::Error,
        }
    }
}

} // verus!
