//! In-process core of a connection-oriented protocol engine: an immutable
//! network-datagram value bound to its two endpoints, and a deduplicating,
//! totally-ordered event mailbox through which protocol components announce
//! state changes to a single polling consumer.

pub mod datagram;
pub mod events;
pub mod order;
