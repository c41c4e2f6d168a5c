//! DNA-DB core engine: strand storage, encoding, queries, transactions and
//! access control, with every operation stated in a contract and proved.
use vstd::prelude::*;

pub mod access_laws;
pub mod account_laws;
pub mod audit;
pub mod auth;
pub mod bench;
pub mod call_laws;
pub mod clock;
pub mod codec;
pub mod complement;
pub mod digest;
pub mod encoding;
pub mod group_commit;
pub mod histone;
pub mod histone_laws;
pub mod http;
pub mod ids;
pub mod integrity;
pub mod json_value;
pub mod lifecycle;
pub mod lifecycle_laws;
pub mod messages;
pub mod model;
pub mod mvcc;
pub mod mvcc_laws;
pub mod overlay;
pub mod overlay_laws;
pub mod pool_laws;
pub mod privacy;
pub mod processor;
pub mod query;
pub mod record_laws;
pub mod recovery;
pub mod replication;
pub mod runtime;
pub mod server_laws;
pub mod storage;
pub mod support;
pub mod text_laws;
pub mod tls;
pub mod transaction;
pub mod wire_format;

verus! {

/// Name under which the engine announces itself.
pub const ENGINE_NAME: &'static str = "dnadb-engine";

} // verus!
