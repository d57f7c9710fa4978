//! The client side of a block exchange for content-addressed data, with the
//! small parts of a node that stand around it.
//!
//! The exchange is written as a deterministic core. Every operation takes
//! the current state and an event, and returns the next state together with
//! what a driver has to do: blocks to hand to callers, lookups to start,
//! and, when it asks for them, messages to send. Time comes in as a number
//! of milliseconds with each event. Nothing here reads a clock, opens a
//! socket or waits.
//!
//! From the leaves up: [`wantlist`], [`block_presence_manager`],
//! [`session_interest_manager`], [`session_peer_manager`],
//! [`peer_want_manager`], [`message_queue`], [`peer_manager`],
//! [`provider_query_manager`], [`session`], [`shared`],
//! [`session_manager`] and [`client`]. Each part has a view, a plain
//! mathematical value that says what it holds, and each operation says in
//! its contract how the view changes. What holds of all runs is stated in
//! proof functions beside the parts it speaks of.
//!
//! Around the exchange: [`ident`] and [`codec`] for identifiers, [`hamt`]
//! for sharded directories, [`content_loader`] and [`gateway`] for
//! gateways, [`rpc`] for the checks of the remote interfaces, [`swarm`] for
//! the settings of the connection layer, and [`process`] and [`cli`] for
//! the command line.

pub mod block_presence_manager;
pub mod cid_set;
pub mod cli;
pub mod client;
pub mod codec;
pub mod content_loader;
pub mod gateway;
pub mod hamt;
pub mod ident;
pub mod keymap;
pub mod keyset;
pub mod message;
pub mod message_queue;
pub mod peer_manager;
pub mod peer_want_manager;
pub mod process;
pub mod provider_query_manager;
pub mod rpc;
pub mod session;
pub mod session_interest_manager;
pub mod session_manager;
pub mod session_peer_manager;
pub mod shared;
pub mod swarm;
pub mod wantlist;
