//! Resolved resource records.
use crate::network::IpAddress;
use vstd::prelude::*;

verus! {

/// An A or AAAA record, by the family of its address.
#[derive(Debug, Clone, PartialEq, Eq)]
pub struct ARecord {
    pub name: String,
    pub ip: IpAddress,
    pub ttl: u32,
}

/// A PTR record: the address and the name it points back to.
#[derive(Debug, Clone, PartialEq, Eq)]
pub struct PtrRecord {
    pub name: String,
    pub ip: IpAddress,
    pub ttl: u32,
}

/// An NS record of a zone.
#[derive(Debug, Clone, PartialEq, Eq)]
pub struct NsRecord {
    pub name: String,
    pub ttl: u32,
}

/// An MX record of a zone.
#[derive(Debug, Clone, PartialEq, Eq)]
pub struct MxRecord {
    pub name: String,
    pub ttl: u32,
    pub prio: u16,
}

/// A CNAME record.
#[derive(Debug, Clone, PartialEq, Eq)]
pub struct CnameRecord {
    pub name: String,
    pub target: String,
    pub ttl: u32,
}

/// An SRV record.
#[derive(Debug, Clone, PartialEq, Eq)]
pub struct SrvRecord {
    pub name: String,
    pub target: String,
    pub ttl: u32,
    pub prio: u16,
    pub weight: u16,
    pub port: u16,
}

} // verus!
