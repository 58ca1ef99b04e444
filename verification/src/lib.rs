//! The data model and wire-encoding rules of an OSCQuery-style discovery
//! protocol: an address-indexed tree of typed parameters, the codecs for
//! types, values, units and ranges, the JSON serialization of the tree, and
//! the per-request decision of what a query is answered with.
//!
//! Every operation here carries a contract and is verified against it; the
//! network transport around it lives outside the library.

pub mod error;
pub mod hostinfo;
pub mod json;
pub mod node;
pub mod oscunit;
pub mod oscvalue;
pub mod parameter;
pub mod query;
pub mod text;

pub use error::OscQueryError;
pub use hostinfo::{OscHostInfo, OscHostInfoExtension};
pub use node::OSCNode;
pub use oscunit::{OSCAngle, OSCDistance, OSCGain, OSCSpeed, OSCTime, OSCUnit};
pub use oscvalue::{OscScalar, OscValue};
pub use parameter::{OSCAccess, OscQueryParameter, OscRange, OscRangeBounds};
pub use query::OscQueryResponse;
