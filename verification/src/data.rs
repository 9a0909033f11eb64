use vstd::prelude::*;

verus! {

/// Kind of the resources that a summary or a record line counts.
#[derive(Debug, PartialEq, Eq, Structural, Clone, Copy)]
pub enum RIPSummaryTyp {
    IPV4,
    IPV6,
    ASN,
}

/// The registry that published a line.
#[derive(Debug, PartialEq, Eq, Structural, Clone, Copy)]
pub enum RIPRegistry {
    APNIC,
    AFRINIC,
    ARIN,
    IANA,
    LACNIC,
    RIPENCC,
}

/// A summary line: how many records of one kind the file holds.
#[derive(Debug, PartialEq, Eq, Structural, Clone, Copy)]
pub struct RIPSummary {
    pub registry: RIPRegistry,
    pub typ: RIPSummaryTyp,
    pub count: u32,
}

/// A calendar day in UTC.
#[derive(Debug, PartialEq, Eq, Structural, Clone, Copy)]
pub struct RIPDate {
    pub year: i32,
    pub month: u32,
    pub day: u32,
}

/// The header line of a file: format version, registry, serial, number of
/// records and the dates that the file covers.
#[derive(Debug, PartialEq)]
pub struct RIPHeader {
    pub version: u8,
    pub registry: RIPRegistry,
    pub serial: String,
    pub records: u32,
    pub start_date: RIPDate,
    pub end_date: RIPDate,
}

/// A record line: one delegation of addresses or AS numbers.
#[derive(Debug, PartialEq)]
pub struct RIPRecord {
    pub registry: RIPRegistry,
    pub cc: String,
    pub typ: RIPSummaryTyp,
    pub start: String,
    pub value: u32,
    pub date: RIPDate,
    pub status: String,
    pub exts: Option<Vec<String>>,
}

} // verus!
