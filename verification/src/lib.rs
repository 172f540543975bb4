//! Client-side logic of the SQL Server Resolution Protocol (SSRP): request
//! encoding, reassembly of the length-framed response, and decoding of the
//! semicolon-delimited instance records.

pub mod error;
pub mod frame;
pub mod grammar;
pub mod instance;
pub mod parse;
pub mod request;
pub mod transport;
pub mod wire;

pub use error::SsrpError;
pub use instance::InstanceInfo;
