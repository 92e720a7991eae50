//! The zone description as decoded from its dialect, and the session-wide
//! defaults derived from it.
use crate::constants::{
    DEFAULT_EXPIRE, DEFAULT_MX_PRIO, DEFAULT_NRC_TTL, DEFAULT_REFRESH, DEFAULT_RETRY,
    DEFAULT_SRV_PRIO, DEFAULT_SRV_WEIGHT, DEFAULT_TTL, DEFAULT_WITH_PTR,
};
use crate::error::{TtlFault, ZoneError, ZoneField};
use crate::network::{IpAddress, IpNet};
use crate::record::{ARecord, CnameRecord, MxRecord, NsRecord, PtrRecord, SrvRecord};
use crate::transform::{
    disjoint_nets, forward_ok_given, hosts_ptrs, lemma_ns_ok_count, nets_of, opt_pairs,
    reverse_entry_ok, reverse_entry_ok_given, ttl_or, zone_fqdn, ptr_views,
    forward_match, forward_ok, lemma_fqdn_completion, lemma_reverse_name_qualified, mailbox_address, parse_email, parse_forward, parse_reverse,
    reverse_items, reverse_match, reverse_ok, reverse_wf, soa_mailbox,
};
use crate::text::{chars_of, ends_dot, find_chars, find_from, occurs_at, string_of, trim, trim_chars};
use crate::validation::{index_from, slice_chars, valid_dns_name, valid_email, validate_dns_name};
use vstd::prelude::*;

verus! {

/// The largest TTL a record may carry.
pub const MAX_TTL: u32 = 2147483647;

/// A time to live, in seconds: between 1 and 2147483647.
#[derive(Debug, Clone, Copy, PartialEq, Eq, Structural)]
pub struct TTL(pub u32);

impl TTL {
    /// Whether the value lies in the allowed range.
    pub open spec fn wf(&self) -> bool {
        1 <= self.0 <= MAX_TTL
    }

    /// A TTL from an unsigned number: zero and values above 2147483647 are
    /// rejected.
    pub fn from_u64(v: u64) -> (r: Result<TTL, ZoneError>)
        ensures
            v == 0 ==> r == Err::<TTL, ZoneError>(ZoneError::InvalidTtl { fault: TtlFault::Zero }),
            v > MAX_TTL ==> r == Err::<TTL, ZoneError>(
                ZoneError::InvalidTtl { fault: TtlFault::TooLarge },
            ),
            1 <= v <= MAX_TTL ==> r == Ok::<TTL, ZoneError>(TTL(v as u32)),
    {
        if v > MAX_TTL as u64 {
            Err(ZoneError::InvalidTtl { fault: TtlFault::TooLarge })
        } else if v == 0 {
            Err(ZoneError::InvalidTtl { fault: TtlFault::Zero })
        } else {
            Ok(TTL(v as u32))
        }
    }

    /// A TTL from a signed number: negative values are rejected, the rest
    /// as for unsigned ones.
    pub fn from_i64(v: i64) -> (r: Result<TTL, ZoneError>)
        ensures
            v < 0 ==> r == Err::<TTL, ZoneError>(ZoneError::InvalidTtl { fault: TtlFault::Negative }),
            v == 0 ==> r == Err::<TTL, ZoneError>(ZoneError::InvalidTtl { fault: TtlFault::Zero }),
            v > MAX_TTL ==> r == Err::<TTL, ZoneError>(
                ZoneError::InvalidTtl { fault: TtlFault::TooLarge },
            ),
            1 <= v <= MAX_TTL ==> r == Ok::<TTL, ZoneError>(TTL(v as u32)),
    {
        if v < 0 {
            Err(ZoneError::InvalidTtl { fault: TtlFault::Negative })
        } else {
            TTL::from_u64(v as u64)
        }
    }
}

/// A nameserver given as a table.
#[derive(Debug)]
pub struct NameserverEntry {
    pub name: String,
    pub ttl: Option<TTL>,
}

/// A mail exchanger given as a table.
#[derive(Debug)]
pub struct MxEntry {
    pub name: String,
    pub prio: Option<u16>,
    pub ttl: Option<TTL>,
}

/// A host given as a table: its addresses, aliases and overrides.
#[derive(Debug)]
pub struct HostEntry {
    pub ip: SingleOrVecValue<IpAddress>,
    pub alias: Option<SingleOrVecValue<String>>,
    pub ttl: Option<TTL>,
    pub with_ptr: Option<bool>,
}

/// A host: bare addresses, or a table.
#[derive(Debug)]
pub enum HostValue {
    Ip(SingleOrVecValue<IpAddress>),
    Entry(HostEntry),
}

/// A CNAME given as a table.
#[derive(Debug)]
pub struct CnameEntry {
    pub target: String,
    pub ttl: Option<TTL>,
}

/// An SRV record as written.
#[derive(Debug)]
pub struct SrvEntry {
    pub target: String,
    pub port: u16,
    pub ttl: Option<TTL>,
    pub prio: Option<u16>,
    pub weight: Option<u16>,
}

/// An email address that passed the address syntax check.
#[derive(Debug, Clone)]
pub struct Email(pub String);

impl Email {
    /// Accepts `s` if it is a valid email address.
    pub fn new(s: &str) -> (r: Result<Email, ZoneError>)
        ensures
            r is Ok <==> valid_email(s@),
            r matches Ok(e) ==> e.0@ == s@,
            r is Err ==> r matches Err(ZoneError::InvalidEmail { .. }),
    {
        match crate::validation::validate_email(s) {
            Ok(()) => Ok(Email(s.to_owned())),
            Err(e) => Err(e),
        }
    }
}

/// SRV records by owner name, in the order written.
#[derive(Debug)]
pub struct SrvMap(pub Vec<(String, SrvEntry)>);

/// A value written either as a bare string or as a table.
#[derive(Debug)]
pub enum StringOrTableValue<T> {
    Entry(String),
    Table(T),
}

impl StringOrTableValue<MxEntry> {
    /// The table form: a bare name becomes a table with no overrides.
    pub fn to_entry(self) -> (r: MxEntry)
        ensures
            match self {
                StringOrTableValue::Entry(s) => r.name@ == s@ && r.prio is None && r.ttl is None,
                StringOrTableValue::Table(t) => r == t,
            },
    {
        match self {
            StringOrTableValue::Entry(val) => MxEntry { name: val, prio: None, ttl: None },
            StringOrTableValue::Table(val) => val,
        }
    }
}

/// A value written either once or as a list.
#[derive(Debug)]
pub enum SingleOrVecValue<T> {
    Single(T),
    Multiple(Vec<T>),
}

impl<T> SingleOrVecValue<T> {
    /// The values, in order.
    pub open spec fn items(&self) -> Seq<T> {
        match self {
            SingleOrVecValue::Single(v) => seq![*v],
            SingleOrVecValue::Multiple(v) => v@,
        }
    }

    /// The values as a list.
    pub fn to_vec(self) -> (r: Vec<T>)
        ensures
            r@ == self.items(),
    {
        match self {
            SingleOrVecValue::Single(val) => {
                let mut r: Vec<T> = Vec::new();
                r.push(val);
                assert(r@ =~= seq![val]);
                r
            },
            SingleOrVecValue::Multiple(vec) => vec,
        }
    }
}

/// The values of an optional list-or-single field; none when absent.
pub open spec fn opt_items<T>(o: Option<SingleOrVecValue<T>>) -> Seq<T> {
    match o {
        Some(v) => v.items(),
        None => Seq::empty(),
    }
}

/// The fields that forward and reverse zones share, as written.
#[derive(Debug)]
pub struct ZoneBaseEntry {
    pub serial: Option<u32>,
    pub email: Option<String>,
    pub expire: Option<u32>,
    pub nameserver: Option<SingleOrVecValue<StringOrTableValue<NameserverEntry>>>,
    pub nrc_ttl: Option<u32>,
    pub refresh: Option<u32>,
    pub retry: Option<u32>,
    pub ttl: Option<TTL>,
}

impl ZoneBaseEntry {
    /// A base with no field set.
    pub fn empty() -> (r: ZoneBaseEntry)
        ensures
            r.serial is None && r.email is None && r.expire is None && r.nameserver is None
                && r.nrc_ttl is None && r.refresh is None && r.retry is None && r.ttl is None,
    {
        ZoneBaseEntry {
            serial: None,
            email: None,
            expire: None,
            nameserver: None,
            nrc_ttl: None,
            refresh: None,
            retry: None,
            ttl: None,
        }
    }
}

/// The overrides of one reverse network.
#[derive(Debug)]
pub struct ReverseEntry {
    pub base: ZoneBaseEntry,
}

/// The reverse networks: bare networks, or networks with overrides.
#[derive(Debug)]
pub enum ReverseValue {
    Net(SingleOrVecValue<IpNet>),
    Entry(Vec<(IpNet, ReverseEntry)>),
}

/// The forward zones: keyed by name, or a list whose items carry a name.
#[derive(Debug)]
pub enum Zones {
    Keyed(Vec<(String, ZoneWithoutName)>),
    Array(Vec<Zone>),
}

/// A whole zone description.
#[derive(Debug)]
pub struct Content {
    pub defaults: RawDefaults,
    pub reverse: Option<ReverseValue>,
    pub zone: Option<Zones>,
}

/// The global defaults as written, with built-in values for what is left
/// out.
#[derive(Debug)]
pub struct RawDefaults {
    pub serial: Option<u32>,
    pub email: Option<Email>,
    pub expire: u32,
    pub mx: Option<SingleOrVecValue<StringOrTableValue<MxEntry>>>,
    pub mx_prio: u16,
    pub nameserver: Option<SingleOrVecValue<String>>,
    pub nrc_ttl: u32,
    pub refresh: u32,
    pub retry: u32,
    pub srv_prio: u16,
    pub srv_weight: u16,
    pub ttl: TTL,
    pub with_ptr: bool,
}

impl RawDefaults {
    /// The built-in defaults.
    pub fn default() -> (r: RawDefaults)
        ensures
            r.serial is None && r.email is None && r.mx is None && r.nameserver is None,
            r.expire == DEFAULT_EXPIRE && r.mx_prio == DEFAULT_MX_PRIO && r.nrc_ttl
                == DEFAULT_NRC_TTL && r.refresh == DEFAULT_REFRESH && r.retry == DEFAULT_RETRY
                && r.srv_prio == DEFAULT_SRV_PRIO && r.srv_weight == DEFAULT_SRV_WEIGHT && r.ttl
                == TTL(DEFAULT_TTL) && r.with_ptr == DEFAULT_WITH_PTR,
    {
        RawDefaults {
            serial: None,
            email: None,
            expire: DEFAULT_EXPIRE,
            mx: None,
            mx_prio: DEFAULT_MX_PRIO,
            nameserver: None,
            nrc_ttl: DEFAULT_NRC_TTL,
            refresh: DEFAULT_REFRESH,
            retry: DEFAULT_RETRY,
            srv_prio: DEFAULT_SRV_PRIO,
            srv_weight: DEFAULT_SRV_WEIGHT,
            ttl: TTL(DEFAULT_TTL),
            with_ptr: DEFAULT_WITH_PTR,
        }
    }
}

} // verus!

verus! {

/// The global defaults after resolution.
#[derive(Debug)]
pub struct SessionDefaults {
    pub serial: u32,
    pub email: Option<String>,
    pub expire: u32,
    pub mx: Vec<MxEntry>,
    pub mx_prio: u16,
    pub nameserver: Vec<String>,
    pub nrc_ttl: u32,
    pub refresh: u32,
    pub retry: u32,
    pub srv_prio: u16,
    pub srv_weight: u16,
    pub ttl: u32,
    pub with_ptr: bool,
}

/// Whether the raw email `raw` has an `@` and stands for a valid address.
pub open spec fn email_ok(raw: Seq<char>) -> bool {
    index_from(raw, '@', 0) >= 0 && valid_email(mailbox_address(raw))
}

/// The table form of a mail exchanger written either way.
pub open spec fn mx_entry_of(e: StringOrTableValue<MxEntry>) -> (Seq<char>, Option<u16>, Option<TTL>) {
    match e {
        StringOrTableValue::Entry(s) => (s@, None, None),
        StringOrTableValue::Table(t) => (t.name@, t.prio, t.ttl),
    }
}

/// What resolving `raw` with the generated serial `gen_serial` must yield
/// when it succeeds.
pub open spec fn session_defaults_of(raw: RawDefaults, gen_serial: u32, d: SessionDefaults) -> bool {
    &&& d.serial == (match raw.serial {
        Some(s) => s,
        None => gen_serial,
    })
    &&& d.email.is_some() == raw.email.is_some()
    &&& (raw.email matches Some(e) ==> d.email->0@ == soa_mailbox(e.0@))
    &&& d.expire == raw.expire && d.mx_prio == raw.mx_prio && d.nrc_ttl == raw.nrc_ttl
    &&& d.refresh == raw.refresh && d.retry == raw.retry && d.srv_prio == raw.srv_prio
    &&& d.srv_weight == raw.srv_weight && d.ttl == raw.ttl.0 && d.with_ptr == raw.with_ptr
    &&& d.nameserver@.len() == opt_items(raw.nameserver).len()
    &&& forall|i: int|
        0 <= i < d.nameserver@.len() ==> d.nameserver@[i]@ == (#[trigger] opt_items(
            raw.nameserver,
        )[i])@
    &&& d.mx@.len() == opt_items(raw.mx).len()
    &&& forall|i: int|
        0 <= i < d.mx@.len() ==> mx_entry_of(StringOrTableValue::Table(#[trigger] d.mx@[i]))
            == mx_entry_of(opt_items(raw.mx)[i])
}

/// Whether resolving `raw` succeeds: retry below refresh, a valid email if
/// one is given, and fully qualified valid default nameservers.
pub open spec fn session_defaults_ok(raw: RawDefaults) -> bool {
    &&& raw.retry < raw.refresh
    &&& (raw.email matches Some(e) ==> email_ok(e.0@))
    &&& forall|i: int|
        0 <= i < opt_items(raw.nameserver).len() ==> valid_dns_name(
            (#[trigger] opt_items(raw.nameserver)[i])@,
        )
}

/// `cause`, marked as arising in `field` of the defaults.
pub fn in_defaults(field: ZoneField, cause: ZoneError) -> (r: ZoneError)
    ensures
        r matches ZoneError::InDefaults { field: f, cause: c } && f == field && *c == cause,
{
    ZoneError::InDefaults { field, cause: Box::new(cause) }
}

impl SessionDefaults {
    /// Resolves the global defaults: the explicit serial wins over the
    /// generated one, retry must be below refresh, the email takes its SOA
    /// mailbox form, and each default nameserver must be a valid fully
    /// qualified name.
    pub fn from_raw(raw: RawDefaults, gen_serial: u32) -> (r: Result<SessionDefaults, ZoneError>)
        ensures
            r is Ok <==> session_defaults_ok(raw),
            r matches Ok(d) ==> session_defaults_of(raw, gen_serial, d),
            r matches Err(e) ==> e matches ZoneError::InDefaults { .. },
            raw.retry >= raw.refresh ==> (r matches Err(
                ZoneError::InDefaults { field: ZoneField::Timers, cause },
            ) && *cause == ZoneError::RetryNotBelowRefresh { retry: raw.retry, refresh: raw.refresh }),
    {
        let serial = match raw.serial {
            Some(s) => s,
            None => gen_serial,
        };
        if raw.retry >= raw.refresh {
            return Err(
                in_defaults(
                    ZoneField::Timers,
                    ZoneError::RetryNotBelowRefresh { retry: raw.retry, refresh: raw.refresh },
                ),
            );
        }
        let ghost raw_email = raw.email;
        let email = match raw.email {
            Some(validated) => {
                match parse_email(&validated.0) {
                    Ok(m) => Some(m),
                    Err(e) => {
                        return Err(in_defaults(ZoneField::Email, e));
                    },
                }
            },
            None => None,
        };
        let ghost ns_items = opt_items(raw.nameserver);
        let nameserver = match raw.nameserver {
            Some(v) => v.to_vec(),
            None => Vec::new(),
        };
        assert(nameserver@ =~= ns_items);
        let mut i: usize = 0;
        while i < nameserver.len()
            invariant
                i <= nameserver.len(),
                nameserver@ == ns_items,
                ns_items == opt_items(raw.nameserver),
                raw.retry < raw.refresh,
                raw_email == raw.email,
                raw_email matches Some(e) ==> email_ok(e.0@),
                forall|k: int| 0 <= k < i ==> valid_dns_name((#[trigger] ns_items[k])@),
            decreases nameserver.len() - i,
        {
            match validate_dns_name(nameserver[i].as_str()) {
                Ok(()) => {},
                Err(e) => {
                    assert(!valid_dns_name(ns_items[i as int]@));
                    return Err(in_defaults(ZoneField::Nameserver, e));
                },
            }
            i = i + 1;
        }
        let ghost mx_items = opt_items(raw.mx);
        let raw_mx = match raw.mx {
            Some(v) => v.to_vec(),
            None => Vec::new(),
        };
        assert(raw_mx@ =~= mx_items);
        let mut mx: Vec<MxEntry> = Vec::new();
        for item in it: raw_mx
            invariant
                it.seq() == mx_items,
                mx@.len() == it.index(),
                forall|q: int|
                    0 <= q < mx@.len() ==> mx_entry_of(StringOrTableValue::Table(#[trigger] mx@[q]))
                        == mx_entry_of(mx_items[q]),
        {
            let ghost before = item;
            let e = item.to_entry();
            assert(mx_entry_of(StringOrTableValue::Table(e)) == mx_entry_of(before));
            mx.push(e);
        }
        Ok(SessionDefaults {
            serial,
            email,
            expire: raw.expire,
            mx,
            mx_prio: raw.mx_prio,
            nameserver,
            nrc_ttl: raw.nrc_ttl,
            refresh: raw.refresh,
            retry: raw.retry,
            srv_prio: raw.srv_prio,
            srv_weight: raw.srv_weight,
            ttl: raw.ttl.0,
            with_ptr: raw.with_ptr,
        })
    }
}

} // verus!

verus! {

/// A forward zone as written in a list, carrying its own name.
#[derive(Debug)]
pub struct Zone {
    pub base: ZoneBaseEntry,
    pub name: String,
    pub mx: Option<SingleOrVecValue<StringOrTableValue<MxEntry>>>,
    pub mx_prio: Option<u16>,
    pub srv_prio: Option<u16>,
    pub srv_weight: Option<u16>,
    pub with_ptr: Option<bool>,
    pub hosts: Option<Vec<(String, HostValue)>>,
    pub cname: Option<Vec<(String, StringOrTableValue<CnameEntry>)>>,
    pub srv: Option<SrvMap>,
}

/// A forward zone as written under its name as key.
#[derive(Debug)]
pub struct ZoneWithoutName {
    pub base: ZoneBaseEntry,
    pub mx: Option<SingleOrVecValue<StringOrTableValue<MxEntry>>>,
    pub mx_prio: Option<u16>,
    pub srv_prio: Option<u16>,
    pub srv_weight: Option<u16>,
    pub with_ptr: Option<bool>,
    pub hosts: Option<Vec<(String, HostValue)>>,
    pub cname: Option<Vec<(String, StringOrTableValue<CnameEntry>)>>,
    pub srv: Option<SrvMap>,
}

impl ZoneWithoutName {
    /// The same zone, carrying `name`.
    pub fn with_name(self, name: String) -> (r: Zone)
        ensures
            r.name == name && r.base == self.base && r.mx == self.mx && r.mx_prio == self.mx_prio
                && r.srv_prio == self.srv_prio && r.srv_weight == self.srv_weight && r.with_ptr
                == self.with_ptr && r.hosts == self.hosts && r.cname == self.cname && r.srv
                == self.srv,
    {
        Zone {
            base: self.base,
            name,
            mx: self.mx,
            mx_prio: self.mx_prio,
            srv_prio: self.srv_prio,
            srv_weight: self.srv_weight,
            with_ptr: self.with_ptr,
            hosts: self.hosts,
            cname: self.cname,
            srv: self.srv,
        }
    }
}

/// What every resolved zone has: its SOA values and nameservers.
#[derive(Debug)]
pub struct ZoneBase {
    pub serial: u32,
    pub name: String,
    pub email: String,
    pub expire: u32,
    pub nameserver: Vec<NsRecord>,
    pub nrc_ttl: u32,
    pub refresh: u32,
    pub retry: u32,
    pub ttl: u32,
}

/// A resolved forward zone.
#[derive(Debug)]
pub struct ForwardZone {
    pub base: ZoneBase,
    pub mx: Vec<MxRecord>,
    pub hosts: Vec<ARecord>,
    pub cname: Vec<CnameRecord>,
    pub srv: Vec<SrvRecord>,
}

/// A resolved reverse zone: its PTR records, and how many address units
/// (octets or nibbles) each record's own name holds.
#[derive(Debug)]
pub struct ReverseZone {
    pub base: ZoneBase,
    pub ptr: Vec<PtrRecord>,
    pub split: usize,
}

} // verus!

verus! {

/// Whether no two PTR candidates of `pool` share an address.
pub open spec fn distinct_ips(pool: Seq<PtrRecord>) -> bool {
    forall|i: int, j: int| 0 <= i < j < pool.len() ==> (#[trigger] pool[i]).ip != (#[trigger] pool[j]).ip
}

/// Adds PTR candidates to the pool; a candidate whose address the pool
/// already holds is a duplicate.
pub fn add_ptrs(pool: &mut Vec<PtrRecord>, ptrs: Vec<PtrRecord>) -> (r: Result<(), ZoneError>)
    requires
        distinct_ips(old(pool)@),
    ensures
        r is Ok <==> distinct_ips(old(pool)@ + ptrs@),
        r is Ok ==> final(pool)@ == old(pool)@ + ptrs@,
        r is Err ==> r matches Err(ZoneError::DuplicatePtr { .. }),
{
    let ghost start = pool@;
    let ghost all = ptrs@;
    assert(start + all.take(0) =~= start);
    for ptr in it: ptrs
        invariant
            it.seq() == all,
            start == old(pool)@,
            all == ptrs@,
            pool@ == start + all.take(it.index() as int),
            distinct_ips(pool@),
    {
        let ghost i = it.index() as int;
        assert(all[i] == ptr);
        let mut k: usize = 0;
        while k < pool.len()
            invariant
                k <= pool.len(),
                pool@ == start + all.take(i),
                start == old(pool)@,
                all == ptrs@,
                0 <= i < all.len(),
                all[i] == ptr,
                forall|q: int| 0 <= q < k ==> (#[trigger] pool@[q]).ip != ptr.ip,
            decreases pool.len() - k,
        {
            if pool[k].ip == ptr.ip {
                assert(!distinct_ips(start + all)) by {
                    let s = start + all;
                    assert(s[k as int] == pool@[k as int]);
                    assert(s[start.len() + i] == ptr);
                }
                return Err(ZoneError::DuplicatePtr { ip: ptr.ip, name: ptr.name });
            }
            k = k + 1;
        }
        let ghost before = pool@;
        pool.push(ptr);
        assert(pool@ =~= start + all.take(i + 1));
        assert(distinct_ips(pool@)) by {
            assert forall|x: int, y: int| 0 <= x < y < pool@.len() implies (#[trigger] pool@[x]).ip
                != (#[trigger] pool@[y]).ip by {
                if y == before.len() {
                    assert(pool@[x] == before[x]);
                } else {
                    assert(pool@[x] == before[x]);
                    assert(pool@[y] == before[y]);
                }
            }
        }
    }
    assert(all.take(all.len() as int) =~= all);
    Ok(())
}

} // verus!

verus! {

/// A zone written under its name as key, carrying that name.
pub open spec fn named_zone(z: ZoneWithoutName, name: String) -> Zone {
    Zone {
        base: z.base,
        name,
        mx: z.mx,
        mx_prio: z.mx_prio,
        srv_prio: z.srv_prio,
        srv_weight: z.srv_weight,
        with_ptr: z.with_ptr,
        hosts: z.hosts,
        cname: z.cname,
        srv: z.srv,
    }
}

/// The forward zones in one list, whichever way they were written.
pub open spec fn zone_list(zones: Option<Zones>) -> Seq<Zone> {
    match zones {
        None => Seq::empty(),
        Some(Zones::Array(a)) => a@,
        Some(Zones::Keyed(m)) => m@.map_values(
            |p: (String, ZoneWithoutName)| named_zone(p.1, p.0),
        ),
    }
}

/// The sequences of `c` one after the other.
pub open spec fn concat_all(c: Seq<Seq<PtrRecord>>) -> Seq<PtrRecord>
    decreases c.len(),
{
    if c.len() == 0 {
        Seq::empty()
    } else {
        concat_all(c.drop_last()) + c.last()
    }
}

/// Whether `forward` and `reverse` are what `content` resolves to, given
/// the resolved defaults `d` and the PTR candidates `cands` of each forward
/// zone.
pub open spec fn resolved(
    forward: Seq<ForwardZone>,
    reverse: Seq<ReverseZone>,
    content: Content,
    serial: u32,
    d: SessionDefaults,
    cands: Seq<Seq<PtrRecord>>,
) -> bool {
    let zones = zone_list(content.zone);
    &&& session_defaults_of(content.defaults, serial, d)
    &&& forward.len() == zones.len()
    &&& cands.len() == zones.len()
    &&& forall|i: int|
        0 <= i < zones.len() ==> forward_ok(#[trigger] zones[i], d) && forward_match(
            forward[i],
            cands[i],
            zones[i],
            d,
        )
    &&& distinct_ips(concat_all(cands))
    &&& reverse_ok(reverse_items(content.reverse), d)
    &&& reverse_match(reverse, reverse_items(content.reverse), d, concat_all(cands))
}

/// The forward zones of a description as one list.
fn zones_of(zones: Option<Zones>) -> (r: Vec<Zone>)
    ensures
        r@ == zone_list(zones),
{
    match zones {
        None => Vec::new(),
        Some(Zones::Array(a)) => a,
        Some(Zones::Keyed(m)) => {
            let ghost gm = m@;
            let mut out: Vec<Zone> = Vec::new();
            for pair in it: m
                invariant
                    it.seq() == gm,
                    out@ == gm.take(it.index() as int).map_values(
                        |p: (String, ZoneWithoutName)| named_zone(p.1, p.0),
                    ),
            {
                let ghost i = it.index() as int;
                let ghost gp = pair;
                let (name, zone) = pair;
                let z = zone.with_name(name);
                assert(z == named_zone(gp.1, gp.0));
                out.push(z);
                assert(out@ =~= gm.take(i + 1).map_values(
                    |p: (String, ZoneWithoutName)| named_zone(p.1, p.0),
                ));
            }
            assert(gm.take(gm.len() as int) =~= gm);
            out
        },
    }
}


/// The addresses of a zone's PTR candidates, under the given default TTL
/// and PTR flag.
pub open spec fn zone_cand_ips(z: Zone, ttl: u32, with_ptr: bool) -> Seq<IpAddress> {
    hosts_ptrs(
        opt_pairs(z.hosts),
        zone_fqdn(z.name@),
        ttl_or(z.base.ttl, ttl),
        z.with_ptr.unwrap_or(with_ptr),
    ).map_values(|t: (Seq<char>, IpAddress, u32)| t.1)
}

/// The addresses of the PTR candidates of all zones, in order.
pub open spec fn cand_ips(zones: Seq<Zone>, ttl: u32, with_ptr: bool) -> Seq<IpAddress>
    decreases zones.len(),
{
    if zones.len() == 0 {
        Seq::empty()
    } else {
        cand_ips(zones.drop_last(), ttl, with_ptr) + zone_cand_ips(zones.last(), ttl, with_ptr)
    }
}

/// Whether no address occurs twice in `s`.
pub open spec fn unique_ips(s: Seq<IpAddress>) -> bool {
    forall|i: int, j: int| 0 <= i < j < s.len() ==> #[trigger] s[i] != #[trigger] s[j]
}

/// The addresses of PTR records, in order.
pub open spec fn ips_of(s: Seq<PtrRecord>) -> Seq<IpAddress> {
    s.map_values(|p: PtrRecord| p.ip)
}

/// Whether the defaults of `content` resolve and each of its forward zones
/// resolves on its own against them.
pub open spec fn zones_resolve(content: Content) -> bool {
    let rd = content.defaults;
    let zones = zone_list(content.zone);
    &&& session_defaults_ok(rd)
    &&& forall|i: int|
        0 <= i < zones.len() ==> forward_ok_given(
            #[trigger] zones[i],
            rd.retry,
            rd.refresh,
            rd.email is Some,
            rd.ttl.0,
            rd.mx_prio,
            rd.srv_prio,
            rd.srv_weight,
            opt_items(rd.nameserver),
        )
}

/// Whether a decoded description resolves: its defaults and forward zones
/// resolve, no two PTR candidates share an address, the reverse networks
/// are pairwise disjoint and each of their zones resolves.
pub open spec fn document_ok(content: Content) -> bool {
    let rd = content.defaults;
    let items = reverse_items(content.reverse);
    &&& zones_resolve(content)
    &&& unique_ips(cand_ips(zone_list(content.zone), rd.ttl.0, rd.with_ptr))
    &&& disjoint_nets(nets_of(items))
    &&& forall|i: int|
        0 <= i < items.len() ==> reverse_entry_ok_given(
            #[trigger] items[i],
            rd.retry,
            rd.refresh,
            rd.email is Some,
            rd.ttl.0,
            opt_items(rd.nameserver),
        )
}

proof fn lemma_distinct_unique(s: Seq<PtrRecord>)
    ensures
        distinct_ips(s) == unique_ips(ips_of(s)),
{
    if distinct_ips(s) {
        assert forall|i: int, j: int| 0 <= i < j < ips_of(s).len() implies #[trigger] ips_of(s)[i]
            != #[trigger] ips_of(s)[j] by {
            assert(s[i].ip != s[j].ip);
        }
    }
    if unique_ips(ips_of(s)) {
        assert forall|i: int, j: int| 0 <= i < j < s.len() implies (#[trigger] s[i]).ip != (
        #[trigger] s[j]).ip by {
            assert(ips_of(s)[i] != ips_of(s)[j]);
        }
    }
}

proof fn lemma_cand_prefix(zones: Seq<Zone>, ttl: u32, with_ptr: bool, j: int)
    requires
        0 <= j <= zones.len(),
    ensures
        cand_ips(zones.take(j), ttl, with_ptr).len() <= cand_ips(zones, ttl, with_ptr).len(),
        forall|k: int|
            0 <= k < cand_ips(zones.take(j), ttl, with_ptr).len() ==> #[trigger] cand_ips(
                zones.take(j),
                ttl,
                with_ptr,
            )[k] == cand_ips(zones, ttl, with_ptr)[k],
    decreases zones.len() - j,
{
    if j == zones.len() {
        assert(zones.take(j) =~= zones);
    } else {
        lemma_cand_prefix(zones, ttl, with_ptr, j + 1);
        assert(zones.take(j + 1).drop_last() =~= zones.take(j));
        let a = cand_ips(zones.take(j), ttl, with_ptr);
        let b = cand_ips(zones.take(j + 1), ttl, with_ptr);
        assert(b == a + zone_cand_ips(zones.take(j + 1).last(), ttl, with_ptr));
        assert forall|k: int| 0 <= k < a.len() implies #[trigger] a[k] == cand_ips(
            zones,
            ttl,
            with_ptr,
        )[k] by {
            assert(b[k] == a[k]);
        }
    }
}

proof fn lemma_unique_prefix(zones: Seq<Zone>, ttl: u32, with_ptr: bool, j: int)
    requires
        0 <= j <= zones.len(),
        unique_ips(cand_ips(zones, ttl, with_ptr)),
    ensures
        unique_ips(cand_ips(zones.take(j), ttl, with_ptr)),
{
    lemma_cand_prefix(zones, ttl, with_ptr, j);
    let a = cand_ips(zones.take(j), ttl, with_ptr);
    let w = cand_ips(zones, ttl, with_ptr);
    assert forall|x: int, y: int| 0 <= x < y < a.len() implies #[trigger] a[x] != #[trigger] a[y] by {
        assert(a[x] == w[x] && a[y] == w[y]);
    }
}

/// What the resolved defaults decide of a zone depends only on the raw
/// defaults' values.
proof fn lemma_defaults_decide(raw: RawDefaults, serial: u32, d: SessionDefaults, z: Zone, e: (IpNet, ReverseEntry))
    requires
        session_defaults_of(raw, serial, d),
    ensures
        forward_ok(z, d) == forward_ok_given(
            z,
            raw.retry,
            raw.refresh,
            raw.email is Some,
            raw.ttl.0,
            raw.mx_prio,
            raw.srv_prio,
            raw.srv_weight,
            opt_items(raw.nameserver),
        ),
        reverse_entry_ok(e, d) == reverse_entry_ok_given(
            e,
            raw.retry,
            raw.refresh,
            raw.email is Some,
            raw.ttl.0,
            opt_items(raw.nameserver),
        ),
{
    lemma_ns_ok_count(
        z.base.nameserver,
        zone_fqdn(z.name@),
        ttl_or(z.base.ttl, d.ttl),
        d.nameserver@,
        opt_items(raw.nameserver),
    );
    lemma_ns_ok_count(
        e.1.base.nameserver,
        crate::transform::reverse_zone_name(e.0),
        ttl_or(e.1.base.ttl, d.ttl),
        d.nameserver@,
        opt_items(raw.nameserver),
    );
}

/// Resolves a decoded zone description: the defaults with the generated
/// serial, then each forward zone, pooling their PTR candidates (two for
/// one address are an error), then the reverse zones, which claim the
/// pooled candidates. It succeeds exactly when the description resolves
/// (`document_ok`); when only the PTR addresses clash, the error is the
/// duplicate PTR.
pub fn resolve(content: Content, serial: u32) -> (r: Result<(Vec<ForwardZone>, Vec<ReverseZone>), ZoneError>)
    requires
        reverse_wf(content.reverse),
    ensures
        r is Ok <==> document_ok(content),
        zones_resolve(content) && !unique_ips(
            cand_ips(zone_list(content.zone), content.defaults.ttl.0, content.defaults.with_ptr),
        ) ==> r matches Err(ZoneError::DuplicatePtr { .. }),
        r is Ok ==> exists|d: SessionDefaults, cands: Seq<Seq<PtrRecord>>|
            #[trigger] resolved(r->Ok_0.0@, r->Ok_0.1@, content, serial, d, cands),
        r is Ok ==> (forall|i: int|
            0 <= i < r->Ok_0.0@.len() ==> ends_dot((#[trigger] r->Ok_0.0@[i]).base.name@)) && (
        forall|j: int|
            0 <= j < r->Ok_0.1@.len() ==> ends_dot((#[trigger] r->Ok_0.1@[j]).base.name@)),
{
    let ghost zl = zone_list(content.zone);
    let ghost gc = content;
    let ghost rd = content.defaults;
    let ghost items = reverse_items(content.reverse);
    let defaults = match SessionDefaults::from_raw(content.defaults, serial) {
        Ok(d) => d,
        Err(e) => {
            return Err(e);
        },
    };
    assert(zl.take(0) =~= Seq::<Zone>::empty());
    assert(ips_of(concat_all(Seq::<Seq<PtrRecord>>::empty())) =~= cand_ips(zl.take(0), rd.ttl.0, rd.with_ptr));
    let zones = zones_of(content.zone);
    let mut pool: Vec<PtrRecord> = Vec::new();
    let mut forward: Vec<ForwardZone> = Vec::new();
    let ghost mut cands: Seq<Seq<PtrRecord>> = Seq::empty();
    assert(distinct_ips(pool@));
    for zone in it: zones
        invariant
            it.seq() == zl,
            gc == content,
            zl == zone_list(gc.zone),
            forward@.len() == it.index(),
            cands.len() == it.index(),
            forall|k: int|
                0 <= k < it.index() ==> forward_ok(#[trigger] zl[k], defaults) && forward_match(
                    forward@[k],
                    cands[k],
                    zl[k],
                    defaults,
                ),
            pool@ == concat_all(cands),
            distinct_ips(pool@),
            rd == gc.defaults,
            session_defaults_ok(rd),
            session_defaults_of(rd, serial, defaults),
            ips_of(pool@) == cand_ips(zl.take(it.index() as int), rd.ttl.0, rd.with_ptr),
            forall|k: int|
                0 <= k < it.index() ==> forward_ok_given(
                    #[trigger] zl[k],
                    rd.retry,
                    rd.refresh,
                    rd.email is Some,
                    rd.ttl.0,
                    rd.mx_prio,
                    rd.srv_prio,
                    rd.srv_weight,
                    opt_items(rd.nameserver),
                ),
    {
        let ghost i = it.index() as int;
        proof {
            lemma_defaults_decide(rd, serial, defaults, zl[i], arbitrary());
        }
        let (z, ptrs) = match parse_forward(zone, &defaults) {
            Ok(v) => v,
            Err(e) => {
                assert(!zones_resolve(gc));
                return Err(e);
            },
        };
        let ghost gp = ptrs@;
        let ghost old_pool = pool@;
        proof {
            let zc = zone_cand_ips(zl[i], rd.ttl.0, rd.with_ptr);
            assert(ips_of(gp) =~= zc) by {
                assert(ptr_views(gp).len() == gp.len());
                assert forall|k: int| 0 <= k < gp.len() implies ips_of(gp)[k] == zc[k] by {
                    assert(ptr_views(gp)[k].1 == gp[k].ip);
                }
            }
            assert(zl.take(i + 1).drop_last() =~= zl.take(i));
            assert(zl.take(i + 1).last() == zl[i]);
            assert(ips_of(old_pool + gp) =~= ips_of(old_pool) + ips_of(gp));
            assert(ips_of(old_pool + gp) == cand_ips(zl.take(i + 1), rd.ttl.0, rd.with_ptr));
        }
        forward.push(z);
        match add_ptrs(&mut pool, ptrs) {
            Ok(()) => {},
            Err(e) => {
                proof {
                    lemma_distinct_unique(old_pool + gp);
                    if unique_ips(cand_ips(zl, rd.ttl.0, rd.with_ptr)) {
                        lemma_unique_prefix(zl, rd.ttl.0, rd.with_ptr, i + 1);
                    }
                }
                return Err(e);
            },
        }
        proof {
            let old_c = cands;
            cands = old_c.push(gp);
            assert(cands.drop_last() =~= old_c);
            assert(cands.last() == gp);
            assert(forall|k: int| 0 <= k < i ==> cands[k] == old_c[k]);
        }
        assert(pool@ == concat_all(cands));
    }
    proof {
        assert(zl.take(zl.len() as int) =~= zl);
        lemma_distinct_unique(pool@);
        assert forall|k: int| 0 <= k < items.len() implies reverse_entry_ok(
            #[trigger] items[k],
            defaults,
        ) == reverse_entry_ok_given(
            items[k],
            rd.retry,
            rd.refresh,
            rd.email is Some,
            rd.ttl.0,
            opt_items(rd.nameserver),
        ) by {
            lemma_defaults_decide(rd, serial, defaults, arbitrary(), items[k]);
        }
    }
    let reverse = match parse_reverse(content.reverse, &defaults, pool) {
        Ok(v) => v,
        Err(e) => {
            return Err(e);
        },
    };
    let r: Result<(Vec<ForwardZone>, Vec<ReverseZone>), ZoneError> = Ok((forward, reverse));
    assert(r->Ok_0.0@ == forward@);
    assert(resolved(r->Ok_0.0@, r->Ok_0.1@, content, serial, defaults, cands));
    assert forall|i: int| 0 <= i < forward@.len() implies ends_dot(
        (#[trigger] forward@[i]).base.name@,
    ) by {
        lemma_fqdn_completion(zl[i].name@, Seq::empty());
    }
    assert forall|j: int| 0 <= j < reverse@.len() implies ends_dot(
        (#[trigger] reverse@[j]).base.name@,
    ) by {
        lemma_reverse_name_qualified(reverse_items(gc.reverse)[j].0);
    }
    r
}

} // verus!

verus! {

/// The most specific source location in a decoder's message: from its
/// first `at line ` up to a second ` at line `, else to the end of that
/// line, else at most 50 characters; trimmed. Empty when the message names
/// no line.
pub open spec fn location_in(msg: Seq<char>) -> Seq<char> {
    let p = find_from(msg, "at line "@, 0);
    if p < 0 {
        Seq::empty()
    } else {
        let rest = msg.skip(p);
        let q = find_from(rest, " at line "@, 8);
        let n = find_from(rest, seq!['\n'], 0);
        if q >= 0 {
            trim(rest.take(q))
        } else if n >= 0 {
            trim(rest.take(n))
        } else if rest.len() <= 50 {
            trim(rest)
        } else {
            trim(rest.take(50))
        }
    }
}

/// The most specific source location that a decoder's message names.
pub fn extract_location(error_msg: &str) -> (r: String)
    ensures
        r@ == location_in(error_msg@),
{
    let msg = chars_of(error_msg);
    let at = chars_of("at line ");
    let p = match find_chars(&msg, &at, 0) {
        None => {
            return string_of(&Vec::new());
        },
        Some(p) => p,
    };
    assert(p <= msg.len()) by {
        lemma_find_from_bounds(msg@, at@, 0);
    }
    let rest = slice_chars(&msg, p, msg.len());
    assert(rest@ =~= msg@.skip(p as int));
    let next = chars_of(" at line ");
    let mut newline: Vec<char> = Vec::new();
    newline.push('\n');
    assert(newline@ =~= seq!['\n']);
    let end = match find_chars(&rest, &next, 8) {
        Some(q) => q,
        None => match find_chars(&rest, &newline, 0) {
            Some(n) => n,
            None => if rest.len() <= 50 {
                rest.len()
            } else {
                50
            },
        },
    };
    proof {
        lemma_find_from_bounds(rest@, next@, 8);
        lemma_find_from_bounds(rest@, newline@, 0);
    }
    let piece = slice_chars(&rest, 0, end);
    assert(rest@.take(rest.len() as int) =~= rest@);
    assert(piece@ =~= rest@.take(end as int));
    string_of(&trim_chars(&piece))
}

pub proof fn lemma_find_from_bounds(s: Seq<char>, pat: Seq<char>, i: int)
    ensures
        find_from(s, pat, i) == -1 || (i <= find_from(s, pat, i) && find_from(s, pat, i) + pat.len()
            <= s.len()),
    decreases s.len() + 1 - i,
{
    if !(i < 0 || i + pat.len() > s.len()) && !occurs_at(s, pat, i) {
        lemma_find_from_bounds(s, pat, i + 1);
    }
}

} // verus!
