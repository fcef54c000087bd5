//! An iterative DNS resolver core: a provenance-preserving record store, the
//! planner that derives outstanding probes from it, and the rules that fold
//! a server's response back into the store.

pub mod db;
pub mod dns;
pub mod entry;
pub mod laws;
pub mod model;
pub mod name;
pub mod order;
pub mod rdata_hash;
pub mod record;
pub mod reingest;
