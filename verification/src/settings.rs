//! What a connection is set up with.
use vstd::prelude::*;

verus! {

/// Most headers that one request gets.
pub const MAX_HEADERS: usize = 2016;

/// Most requests in one batch.
pub const MAX_ARRAY_BATCH: usize = 20;

/// What is written to the log of requests.
#[derive(Clone, Copy, Debug, PartialEq, Eq, Structural)]
pub struct RpcLogging {
    pub enabled: bool,
    /// Leave the parameters of requests out.
    pub hide_params: bool,
    /// Write a salted hash in place of the address of a client.
    pub anonymize_ip: bool,
}

/// How far the server takes part in the discovery of peers.
#[derive(Clone, Copy, Debug, PartialEq, Eq, Structural)]
pub enum Discovery {
    /// It does not know the requests for it.
    Absent,
    /// It knows them, and takes no part.
    Disabled,
    Enabled,
}

/// The kind of chain that is served.
#[derive(Clone, Copy, Debug, PartialEq, Eq, Structural)]
pub enum Chain {
    Bitcoin,
    /// One with several assets, whose values can be blinded.
    Liquid,
}

/// What a connection is set up with.
#[derive(Debug)]
pub struct Settings {
    pub chain: Chain,
    /// Most transactions in a history that is served.
    pub txs_limit: usize,
    pub rpc_logging: RpcLogging,
    /// Hashed together with the address of a client.
    pub salt: String,
    /// The address of the client.
    pub ip: String,
    pub port: u16,
    /// The version of this server.
    pub version: String,
    pub banner: String,
    pub discovery: Discovery,
}

/// Most transactions in a history that can be summed up: a digest takes fewer than
/// two to the power 61 bytes, and a transaction takes less than a thousand.
pub const MAX_SUMMED_UP: u64 = 0x8_0000_0000_0000;

/// Most characters of a salt and an address that can be hashed.
pub const MAX_SALTED: u64 = 0x400_0000_0000_0000;

impl Settings {
    /// One transaction more than the limit can be asked for, and the address of the
    /// client can be hashed.
    pub open spec fn wf(&self) -> bool {
        &&& self.txs_limit < usize::MAX
        &&& self.salt@.len() + self.ip@.len() <= MAX_SALTED
    }
}

} // verus!
