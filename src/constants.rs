//! Values that apply where neither the defaults nor a zone set a field.
use vstd::prelude::*;

verus! {

pub const DEFAULT_EXPIRE: u32 = 1209600;

pub const DEFAULT_MX_PRIO: u16 = 10;

pub const DEFAULT_NRC_TTL: u32 = 3600;

pub const DEFAULT_REFRESH: u32 = 7200;

pub const DEFAULT_RETRY: u32 = 3600;

pub const DEFAULT_SRV_PRIO: u16 = 10;

pub const DEFAULT_SRV_WEIGHT: u16 = 10;

pub const DEFAULT_TTL: u32 = 3600;

pub const DEFAULT_WITH_PTR: bool = true;

} // verus!
