//! The settings of the connection layer: what the transport and the swarm
//! are built with.

use vstd::prelude::*;

verus! {

/// How long the transport waits for a connection attempt, in seconds.
pub const TRANSPORT_TIMEOUT_SECS: u64 = 10;

/// How long an upgraded connection may take to come up, in seconds.
pub const CONNECTION_TIMEOUT_SECS: u64 = 30;

/// The size of the receive window and of the buffer of a multiplexed
/// connection, in bytes.
pub const YAMUX_BUFFER_SIZE: usize = 16 * 1024 * 1024;

/// What can be wrong with the settings.
#[derive(Clone, Copy, PartialEq, Eq, Structural, Debug)]
pub enum Error {
    /// A size that has to be above zero is zero.
    ZeroBufferSize,
}

/// The settings that the caller gives.
#[derive(Clone, Copy, PartialEq, Eq, Structural, Debug)]
pub struct Libp2pConfig {
    pub relay_client: bool,
    pub max_conns_pending_in: u32,
    pub max_conns_pending_out: u32,
    pub max_conns_in: u32,
    pub max_conns_out: u32,
    pub max_conns_per_peer: u32,
    pub notify_handler_buffer_size: usize,
    pub connection_event_buffer_size: usize,
    pub dial_concurrency_factor: u8,
}

/// The limits on connections, each set.
#[derive(Clone, Copy, PartialEq, Eq, Structural, Debug)]
pub struct ConnectionLimits {
    pub max_pending_incoming: Option<u32>,
    pub max_pending_outgoing: Option<u32>,
    pub max_established_incoming: Option<u32>,
    pub max_established_outgoing: Option<u32>,
    pub max_established_per_peer: Option<u32>,
}

/// What the swarm is built with.
#[derive(Clone, Copy, PartialEq, Eq, Structural, Debug)]
pub struct SwarmPlan {
    /// Whether connections may go through a relay.
    pub relay: bool,
    pub limits: ConnectionLimits,
    pub notify_handler_buffer_size: usize,
    pub connection_event_buffer_size: usize,
    pub dial_concurrency_factor: u8,
}

/// The plan that the settings `config` give.
pub open spec fn plan_of(config: Libp2pConfig) -> SwarmPlan {
    SwarmPlan {
        relay: config.relay_client,
        limits: ConnectionLimits {
            max_pending_incoming: Some(config.max_conns_pending_in),
            max_pending_outgoing: Some(config.max_conns_pending_out),
            max_established_incoming: Some(config.max_conns_in),
            max_established_outgoing: Some(config.max_conns_out),
            max_established_per_peer: Some(config.max_conns_per_peer),
        },
        notify_handler_buffer_size: config.notify_handler_buffer_size,
        connection_event_buffer_size: config.connection_event_buffer_size,
        dial_concurrency_factor: config.dial_concurrency_factor,
    }
}

/// Reads from the settings what the swarm is built with. The buffer of the
/// handlers has to hold something; the number of dials made at once has to
/// be above zero.
pub fn build_swarm(config: &Libp2pConfig) -> (r: Result<SwarmPlan, Error>)
    requires
        config.dial_concurrency_factor != 0,
    ensures
        config.notify_handler_buffer_size == 0 ==> r == Err::<SwarmPlan, Error>(
            Error::ZeroBufferSize,
        ),
        config.notify_handler_buffer_size != 0 ==> r == Ok::<SwarmPlan, Error>(plan_of(*config)),
{
    if config.notify_handler_buffer_size == 0 {
        return Err(Error::ZeroBufferSize);
    }
    Ok(
        SwarmPlan {
            relay: config.relay_client,
            limits: ConnectionLimits {
                max_pending_incoming: Some(config.max_conns_pending_in),
                max_pending_outgoing: Some(config.max_conns_pending_out),
                max_established_incoming: Some(config.max_conns_in),
                max_established_outgoing: Some(config.max_conns_out),
                max_established_per_peer: Some(config.max_conns_per_peer),
            },
            notify_handler_buffer_size: config.notify_handler_buffer_size,
            connection_event_buffer_size: config.connection_event_buffer_size,
            dial_concurrency_factor: config.dial_concurrency_factor,
        },
    )
}

} // verus!
