//! Fee statistics and the Electrum protocol engine of a block-chain index server.
pub mod chain;
pub mod commands;
pub mod connection;
pub mod dialogue;
pub mod dialogue_laws;
pub mod encoding_laws;
pub mod feerate;
pub mod fee_laws;
pub mod fees;
pub mod graph;
pub mod guarantees;
pub mod hash;
pub mod histogram;
pub mod history;
pub mod history_laws;
pub mod index_laws;
pub mod json;
pub mod liquid;
pub mod messages;
pub mod mining_laws;
pub mod package_laws;
pub mod package_parts;
pub mod packages;
pub mod params;
pub mod pending;
pub mod query;
pub mod reply_laws;
pub mod rounding;
pub mod server;
pub mod server_laws;
pub mod session;
pub mod session_laws;
pub mod settings;
pub mod subscription_laws;
pub mod text;
pub mod value_laws;
pub mod values;
