//! Client side of a length-prefixed JSON-RPC transport: a frame codec over
//! bytes and a correlator that matches replies to outstanding requests.

pub mod correlator;
pub mod framing;
pub mod rpc;
