//! An immutable network datagram: opaque payload bytes bound to the source
//! and destination endpoints they travelled (or will travel) between.

use vstd::prelude::*;

verus! {

/// The host part of an endpoint: an IPv4 address as its four bytes packed
/// into a `u32`, or an IPv6 address as its sixteen bytes packed into a `u128`,
/// both in network order.
#[derive(Debug, Clone, Copy, PartialEq, Eq, Structural)]
pub enum IpAddress {
    V4(u32),
    V6(u128),
}

/// One end of a network path: a host address and a UDP port.
#[derive(Debug, Clone, Copy, PartialEq, Eq, Structural)]
pub struct Endpoint {
    pub ip: IpAddress,
    pub port: u16,
}

/// The mathematical content of a datagram: its two endpoints and the
/// sequence of payload bytes.
pub struct DatagramView {
    pub src: Endpoint,
    pub dst: Endpoint,
    pub payload: Seq<u8>,
}

/// One discrete unit of network payload together with its routing endpoints.
/// Immutable after construction: the socket layer builds one per packet sent
/// or received, and the parsing layer reads the payload only.
#[derive(Debug, Clone, PartialEq)]
pub struct Datagram {
    src: Endpoint,
    dst: Endpoint,
    d: Vec<u8>,
}

impl View for Datagram {
    type V = DatagramView;

    closed spec fn view(&self) -> DatagramView {
        DatagramView { src: self.src, dst: self.dst, payload: self.d@ }
    }
}

impl Datagram {
    /// Binds a payload to its endpoints. Infallible; takes ownership of the
    /// bytes, and every field reads back exactly as given.
    pub fn new(src: Endpoint, dst: Endpoint, d: Vec<u8>) -> (r: Datagram)
        ensures
            r@ == (DatagramView { src, dst, payload: d@ }),
    {
        Datagram { src, dst, d }
    }

    /// The endpoint the datagram came from.
    pub fn source(&self) -> (r: Endpoint)
        ensures
            r == self@.src,
    {
        self.src
    }

    /// The endpoint the datagram is addressed to.
    pub fn destination(&self) -> (r: Endpoint)
        ensures
            r == self@.dst,
    {
        self.dst
    }

    /// Read-only view of the payload bytes.
    pub fn payload(&self) -> (r: &Vec<u8>)
        ensures
            r@ == self@.payload,
    {
        &self.d
    }
}

} // verus!
