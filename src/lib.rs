//! A collaborative workspace core: a typed block model with a parallel edit
//! log, atomic transactions over it, a plugin registry with a lazily refreshed
//! search index, the wire format and decisions of the peer synchronisation
//! protocol.

pub mod api;
pub mod block;
pub mod codec;
pub mod json;
pub mod plugins;
pub mod search;
pub mod sync;
pub mod text;
pub mod workspace;
