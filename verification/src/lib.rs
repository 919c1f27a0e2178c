//! An adaptor between a capture runtime and connectors that speak the Airbyte
//! source protocol: the rules by which requests, schemas, documents and
//! lifecycle events are carried from one protocol to the other, stated and proved.

pub mod catalog;
pub mod codec;
pub mod dates;
pub mod destination;
pub mod errors;
pub mod interceptor;
pub mod json;
pub mod json_text;
pub mod key_laws;
pub mod names;
pub mod normalize;
pub mod patch;
pub mod paths;
pub mod pointer;
pub mod remap_laws;
pub mod runner;
pub mod schema;
pub mod text;
