pub mod database;
pub mod dn;
pub mod entities;
pub mod filter;
pub mod roundtrip;
pub mod session;
pub mod dn_parser;
pub mod dn_text;

pub use dn::{Attribute, AttributeName, DN, RDN};
