//! Diagnostic peer node core: a verified connectivity event state machine.
//!
//! The node drives automatic external-address acquisition through a NAT
//! gateway mapping protocol, tracks the lifecycle of inbound and outbound
//! connections, and correlates asynchronous network events (mapping changes,
//! connection transitions, identify and liveness results) into a coherent,
//! loggable node state.  The surrounding process (transport stack, gateway
//! protocol, I/O) delivers plain event values; everything the node decides or
//! records is verified here.

pub mod events;
pub mod state;
pub mod laws;
pub mod dial;
