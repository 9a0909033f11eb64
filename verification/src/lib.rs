//! Reading of the delegation statistics that the regional internet registries
//! publish, and the arithmetic that turns an IPv4 range into CIDR blocks.
pub mod data;
pub mod decimal;
pub mod ipv4;
pub mod ipv4_laws;
pub mod text;
pub mod reader;
pub mod opt;
pub mod processor;

pub use data::{RIPDate, RIPHeader, RIPRecord, RIPRegistry, RIPSummary, RIPSummaryTyp};
