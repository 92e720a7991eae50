//! The errors that resolution reports.
use crate::network::{IpAddress, IpNet};
use vstd::prelude::*;

verus! {

/// Why a DNS name was rejected.
#[derive(Debug, Clone, Copy, PartialEq, Eq, Structural)]
pub enum NameFault {
    TooLong,
    NotQualified,
    EmptyLabel,
    LabelTooLong,
    WildcardNotLeftmost,
    WildcardNotWhole,
    HyphenAtEdge,
    InvalidChar,
}

/// Why an email address was rejected.
#[derive(Debug, Clone, Copy, PartialEq, Eq, Structural)]
pub enum EmailFault {
    TooLong,
    MissingAt,
    LocalEmpty,
    LocalTooLong,
    LocalDotAtEdge,
    LocalConsecutiveDots,
    LocalInvalidChar,
    DomainEmpty,
    DomainWithoutDot,
    DomainEmptyLabel,
    DomainLabelTooLong,
    DomainHyphenAtEdge,
    DomainInvalidChar,
    NumericTld,
}

/// Why an SRV owner name was rejected.
#[derive(Debug, Clone, Copy, PartialEq, Eq, Structural)]
pub enum SrvFault {
    TooFewParts,
    ServiceWithoutUnderscore,
    ProtocolWithoutUnderscore,
}

/// Why a TTL value was rejected.
#[derive(Debug, Clone, Copy, PartialEq, Eq, Structural)]
pub enum TtlFault {
    Zero,
    TooLarge,
    Negative,
}

} // verus!

verus! {

/// The part of a zone (or of the defaults) that an error arose in.
#[derive(Debug, Clone, Copy, PartialEq, Eq, Structural)]
pub enum ZoneField {
    Timers,
    Email,
    Nameserver,
    Mx,
    Hosts,
    Cname,
    Srv,
}

/// A failed resolution: the first rule that the input broke.
#[derive(Debug, PartialEq, Eq)]
pub enum ZoneError {
    /// A DNS name broke the name syntax.
    InvalidName { name: String, fault: NameFault },
    /// An email address broke the address syntax.
    InvalidEmail { email: String, fault: EmailFault },
    /// A relative host name with no zone to complete it against.
    NotQualified { host: String },
    /// An SRV owner name without service and protocol labels.
    InvalidSrvName { name: String, fault: SrvFault },
    /// An email without `@`.
    EmailWithoutAt { raw: String },
    /// A TTL outside 1..=2147483647.
    InvalidTtl { fault: TtlFault },
    /// The retry timer is not below the refresh timer.
    RetryNotBelowRefresh { retry: u32, refresh: u32 },
    /// Neither the zone nor the defaults name an email.
    MissingEmail { zone: String },
    /// A forward zone resolved to no nameserver.
    MissingNameserver { zone: String },
    /// Two PTR candidates for one address.
    DuplicatePtr { ip: IpAddress, name: String },
    /// Two reverse networks of one family share addresses.
    OverlappingNetworks { network: IpNet, other: IpNet },
    /// An error in one field of the named zone.
    InZone { zone: String, field: ZoneField, cause: Box<ZoneError> },
    /// An error in one field of the global defaults.
    InDefaults { field: ZoneField, cause: Box<ZoneError> },
}

} // verus!
