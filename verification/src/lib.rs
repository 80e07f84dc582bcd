//! An in-process RPC core: structural type descriptions and their export,
//! name-keyed dispatch over three namespaces, and the order in which a chain
//! of middleware stages runs.

pub mod datatype;
pub mod export;
pub mod middleware;
pub mod payload;
pub mod reach;
pub mod router;
pub mod selection;
pub mod ts;
pub mod typedefs;
