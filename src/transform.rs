//! Normalization of names and derivation of the records of each zone.
use crate::error::{SrvFault, ZoneError, ZoneField};
use crate::network::{
    contains, digits, digits_of, lemma_common_address_overlaps, net_contains, nets_overlap, overlaps,
    IpAddress, IpNet,
};
use crate::parser::{
    email_ok, mx_entry_of, opt_items, ForwardZone, ReverseEntry, ReverseValue, ReverseZone,
    SessionDefaults, Zone, ZoneBase, ZoneBaseEntry, CnameEntry, HostValue, MxEntry, NameserverEntry, SingleOrVecValue,
    SrvEntry, SrvMap, StringOrTableValue, TTL,
};
use crate::record::{ARecord, CnameRecord, MxRecord, NsRecord, PtrRecord, SrvRecord};
use crate::text::{
    chars_of, decimal, decimal_chars, ends_dot, hex_digit, hex_digit_char, join, join_chars,
    is_trimmed, lemma_split_nonempty, lemma_trim_is_trimmed, lemma_trim_of_trimmed, push_all, split, split_chars, string_of, trim, trim_chars, views,
};
use crate::validation::{
    email_check, email_fault, find_char, index_from, lemma_index_from_bounds, slice_chars,
    valid_dns_name, valid_email, validate_dns_name,
};
use vstd::prelude::*;

verus! {

/// The fully qualified form of host `name` within zone `zone`: the trimmed
/// name if it already ends with a dot, the zone itself for `@`, otherwise
/// the name followed by a dot and the zone. Nothing when the name is
/// relative and the zone is empty.
pub open spec fn host_fqdn(name: Seq<char>, zone: Seq<char>) -> Option<Seq<char>> {
    let h = trim(name);
    if ends_dot(h) {
        Some(h)
    } else if zone.len() == 0 {
        None
    } else if h == seq!['@'] {
        Some(zone)
    } else {
        Some(h + seq!['.'] + zone)
    }
}

/// The fully qualified form of host `name` within zone `zone`.
pub fn fqdn_chars(name: &Vec<char>, zone: &Vec<char>) -> (r: Option<Vec<char>>)
    ensures
        match r {
            Some(v) => host_fqdn(name@, zone@) == Some(v@),
            None => host_fqdn(name@, zone@) is None,
        },
{
    let h = trim_chars(name);
    if h.len() > 0 && h[h.len() - 1] == '.' {
        return Some(h);
    }
    if zone.len() == 0 {
        return None;
    }
    if h.len() == 1 && h[0] == '@' {
        assert(h@ =~= seq!['@']);
        let mut z: Vec<char> = Vec::new();
        push_all(&mut z, zone);
        assert(z@ =~= zone@);
        return Some(z);
    }
    assert(h@ != seq!['@']) by {
        if h@ == seq!['@'] {
            assert(h@[0] == '@');
        }
    }
    let mut r = h;
    r.push('.');
    push_all(&mut r, zone);
    Some(r)
}

/// Converts a host name to a fully qualified name within `zone_name`.
pub fn parse_host_str(name: &str, zone_name: &str) -> (r: Result<String, ZoneError>)
    ensures
        match r {
            Ok(s) => host_fqdn(name@, zone_name@) == Some(s@),
            Err(e) => host_fqdn(name@, zone_name@) is None && (e matches ZoneError::NotQualified {
                host,
            } && host@ == trim(name@)),
        },
{
    let n = chars_of(name);
    let z = chars_of(zone_name);
    match fqdn_chars(&n, &z) {
        Some(v) => Ok(string_of(&v)),
        None => {
            let h = trim_chars(&n);
            Err(ZoneError::NotQualified { host: string_of(&h) })
        },
    }
}

/// Whether `s` starts with an underscore.
pub open spec fn underscored(s: Seq<char>) -> bool {
    s.len() > 0 && s[0] == '_'
}

/// The first rule that the SRV owner name `name` breaks: it needs at least
/// two dot-separated parts, the first two starting with `_`.
pub open spec fn srv_fault(name: Seq<char>) -> Option<SrvFault> {
    let parts = split(trim(name), '.');
    if parts.len() < 2 {
        Some(SrvFault::TooFewParts)
    } else if !underscored(parts[0]) {
        Some(SrvFault::ServiceWithoutUnderscore)
    } else if !underscored(parts[1]) {
        Some(SrvFault::ProtocolWithoutUnderscore)
    } else {
        None
    }
}

/// The first rule that the SRV owner name `name` breaks, if any.
pub fn srv_check(name: &Vec<char>) -> (r: Option<SrvFault>)
    ensures
        r == srv_fault(name@),
{
    let t = trim_chars(name);
    let parts = split_chars(&t, '.');
    proof {
        lemma_split_nonempty(t@, '.');
    }
    assert(views(parts@)[0] == parts@[0]@);
    if parts.len() < 2 {
        return Some(SrvFault::TooFewParts);
    }
    assert(views(parts@)[1] == parts@[1]@);
    if !(parts[0].len() > 0 && parts[0][0] == '_') {
        return Some(SrvFault::ServiceWithoutUnderscore);
    }
    if !(parts[1].len() > 0 && parts[1][0] == '_') {
        return Some(SrvFault::ProtocolWithoutUnderscore);
    }
    None
}

/// Converts an SRV owner name (`_service._proto[.suffix]`) to a fully
/// qualified name within `zone_name`, after checking its first two labels.
pub fn parse_srv_name(name: &str, zone_name: &str) -> (r: Result<String, ZoneError>)
    ensures
        match r {
            Ok(s) => srv_fault(name@) is None && host_fqdn(trim(name@), zone_name@) == Some(s@),
            Err(e) => match srv_fault(name@) {
                Some(f) => e matches ZoneError::InvalidSrvName { name: n, fault } && n@ == trim(
                    name@,
                ) && fault == f,
                None => host_fqdn(trim(name@), zone_name@) is None && e matches ZoneError::NotQualified { .. },
            },
        },
{
    let n = chars_of(name);
    let t = trim_chars(&n);
    match srv_check(&n) {
        Some(fault) => Err(ZoneError::InvalidSrvName { name: string_of(&t), fault }),
        None => {
            let z = chars_of(zone_name);
            match fqdn_chars(&t, &z) {
                Some(v) => Ok(string_of(&v)),
                None => Err(ZoneError::NotQualified { host: string_of(&trim_chars(&t)) }),
            }
        },
    }
}

/// `s` with every `.` written as `\.`.
pub open spec fn escape_dots(s: Seq<char>) -> Seq<char>
    decreases s.len(),
{
    if s.len() == 0 {
        s
    } else {
        escape_dots(s.drop_last()) + if s.last() == '.' {
            seq!['\\', '.']
        } else {
            seq![s.last()]
        }
    }
}

/// The part of `raw` before its first `@`.
pub open spec fn email_local(raw: Seq<char>) -> Seq<char> {
    raw.take(index_from(raw, '@', 0))
}

/// The part of `raw` after its first `@`, with a trailing dot.
pub open spec fn email_domain_fqdn(raw: Seq<char>) -> Seq<char> {
    let d = raw.skip(index_from(raw, '@', 0) + 1);
    if ends_dot(d) {
        d
    } else {
        d.push('.')
    }
}

/// The address that the SOA mailbox of `raw` stands for: local part, `@`,
/// domain without its trailing dot.
pub open spec fn mailbox_address(raw: Seq<char>) -> Seq<char> {
    email_local(raw) + seq!['@'] + email_domain_fqdn(raw).drop_last()
}

/// The SOA mailbox encoding of `raw`: the local part with its dots
/// escaped, a dot, and the domain with a trailing dot.
pub open spec fn soa_mailbox(raw: Seq<char>) -> Seq<char> {
    escape_dots(email_local(raw)) + seq!['.'] + email_domain_fqdn(raw)
}

/// The characters of `s` with every `.` written as `\.`.
fn escape_dot_chars(s: &Vec<char>) -> (r: Vec<char>)
    ensures
        r@ == escape_dots(s@),
{
    let mut r: Vec<char> = Vec::new();
    let mut k: usize = 0;
    assert(s@.subrange(0, 0) =~= Seq::<char>::empty());
    while k < s.len()
        invariant
            k <= s.len(),
            r@ == escape_dots(s@.subrange(0, k as int)),
        decreases s.len() - k,
    {
        assert(s@.subrange(0, k + 1).drop_last() =~= s@.subrange(0, k as int));
        if s[k] == '.' {
            r.push('\\');
            r.push('.');
        } else {
            r.push(s[k]);
        }
        k = k + 1;
        assert(r@ =~= escape_dots(s@.subrange(0, k as int)));
    }
    assert(s@.subrange(0, s.len() as int) =~= s@);
    r
}

/// Converts `user@domain` to its SOA mailbox form `user.domain.`, with the
/// dots of the local part escaped, and checks the address it stands for.
pub fn parse_email(raw: &str) -> (r: Result<String, ZoneError>)
    ensures
        r is Ok <==> index_from(raw@, '@', 0) >= 0 && valid_email(mailbox_address(raw@)),
        r matches Ok(m) ==> m@ == soa_mailbox(raw@),
        index_from(raw@, '@', 0) < 0 ==> (r matches Err(ZoneError::EmailWithoutAt { raw: x })
            && x@ == raw@),
        index_from(raw@, '@', 0) >= 0 && !valid_email(mailbox_address(raw@)) ==> (r matches Err(
            ZoneError::InvalidEmail { email, fault },
        ) && email@ == mailbox_address(raw@) && email_fault(mailbox_address(raw@)) == Some(fault)),
{
    let s = chars_of(raw);
    let at = match find_char(&s, '@') {
        None => {
            return Err(ZoneError::EmailWithoutAt { raw: raw.to_owned() });
        },
        Some(i) => i,
    };
    proof {
        lemma_index_from_bounds(s@, '@', 0);
    }
    let local = slice_chars(&s, 0, at);
    let mut dom = slice_chars(&s, at + 1, s.len());
    assert(local@ =~= email_local(raw@));
    assert(dom@ =~= raw@.skip(at + 1));
    if !(dom.len() > 0 && dom[dom.len() - 1] == '.') {
        dom.push('.');
    }
    assert(dom@ == email_domain_fqdn(raw@));
    let mut address = local.clone();
    assert(address@ == local@);
    address.push('@');
    let bare = slice_chars(&dom, 0, dom.len() - 1);
    assert(bare@ =~= dom@.drop_last());
    push_all(&mut address, &bare);
    assert(address@ =~= mailbox_address(raw@));
    match email_check(&address) {
        Some(fault) => Err(ZoneError::InvalidEmail { email: string_of(&address), fault }),
        None => {
            let mut m = escape_dot_chars(&local);
            m.push('.');
            push_all(&mut m, &dom);
            assert(m@ =~= soa_mailbox(raw@));
            Ok(string_of(&m))
        },
    }
}

/// The label text of one address unit: an octet in decimal, or a nibble as
/// one hexadecimal digit.
pub open spec fn unit_label(v4: bool, d: int) -> Seq<char> {
    if v4 {
        decimal(d as nat)
    } else {
        seq![hex_digit(d)]
    }
}

/// The label texts of address units.
pub open spec fn unit_labels(v4: bool, ds: Seq<int>) -> Seq<Seq<char>> {
    ds.map_values(|d: int| unit_label(v4, d))
}

/// The units of an address, least significant first: four octets for
/// IPv4, thirty-two nibbles for IPv6.
pub open spec fn address_units(ip: IpAddress) -> Seq<int> {
    match ip {
        IpAddress::V4(x) => digits(x as int, 256, 4),
        IpAddress::V6(x) => digits(x as int, 16, 32),
    }
}

/// The name of the reverse zone of `net`: the units that the prefix covers
/// in whole, most significant last, then `in-addr.arpa.` or `ip6.arpa.`.
pub open spec fn reverse_zone_name(net: IpNet) -> Seq<char> {
    match net {
        IpNet::V4 { addr, prefix } => join(
            unit_labels(true, digits(addr as int, 256, 4).subrange(4 - prefix / 8, 4)),
            '.',
        ) + ".in-addr.arpa."@,
        IpNet::V6 { addr, prefix } => join(
            unit_labels(false, digits(addr as int, 16, 32).subrange(32 - prefix / 4, 32)),
            '.',
        ) + ".ip6.arpa."@,
    }
}

/// How many units lie below the prefix of `net`, rounded down.
pub open spec fn reverse_split(net: IpNet) -> nat {
    match net {
        IpNet::V4 { prefix, .. } => ((32 - prefix) / 8) as nat,
        IpNet::V6 { prefix, .. } => ((128 - prefix) / 4) as nat,
    }
}

/// The owner label of `ip` inside a reverse zone whose records hold
/// `split` units: its lowest units, least significant first.
pub open spec fn ptr_label(ip: IpAddress, split: nat) -> Seq<char> {
    let units = address_units(ip);
    let n = if split <= units.len() {
        split as int
    } else {
        units.len() as int
    };
    join(unit_labels(ip is V4, units.take(n)), '.')
}

/// The labels of the units `ds[from..to]`.
fn unit_label_chars(ds: &Vec<u8>, Ghost(all): Ghost<Seq<int>>, from: usize, to: usize, v4: bool) -> (r: Vec<Vec<char>>)
    requires
        from <= to <= ds@.len(),
        ds@.len() == all.len(),
        forall|i: int| 0 <= i < ds@.len() ==> ds@[i] as int == #[trigger] all[i],
        !v4 ==> forall|i: int| 0 <= i < ds@.len() ==> #[trigger] ds@[i] < 16,
    ensures
        views(r@) == unit_labels(v4, all.subrange(from as int, to as int)),
{
    let mut r: Vec<Vec<char>> = Vec::new();
    let mut k: usize = from;
    while k < to
        invariant
            from <= k <= to <= ds@.len(),
            ds@.len() == all.len(),
            forall|i: int| 0 <= i < ds@.len() ==> ds@[i] as int == #[trigger] all[i],
            !v4 ==> forall|i: int| 0 <= i < ds@.len() ==> #[trigger] ds@[i] < 16,
            views(r@) == unit_labels(v4, all.subrange(from as int, k as int)),
        decreases to - k,
    {
        let d = ds[k];
        let label = if v4 {
            decimal_chars(d as u32)
        } else {
            let mut l: Vec<char> = Vec::new();
            l.push(hex_digit_char(d));
            assert(l@ =~= seq![hex_digit(d as int)]);
            l
        };
        assert(label@ == unit_label(v4, all[k as int]));
        let ghost prev = r@;
        r.push(label);
        assert(all.subrange(from as int, k + 1) =~= all.subrange(from as int, k as int).push(
            all[k as int],
        ));
        assert(views(r@) =~= views(prev).push(label@));
        k = k + 1;
        assert(views(r@) =~= unit_labels(v4, all.subrange(from as int, k as int)));
    }
    r
}

/// The name of the reverse zone of `network`, and how many address units
/// each of its records' own names holds.
pub fn create_reverse_zone_name(network: &IpNet) -> (r: (String, usize))
    requires
        network.wf(),
    ensures
        r.0@ == reverse_zone_name(*network),
        r.1 == reverse_split(*network),
{
    match *network {
        IpNet::V4 { addr, prefix } => {
            let split = ((32 - prefix) / 8) as usize;
            let zone_units = (prefix / 8) as usize;
            let ds = digits_of(addr as u128, 256, 4);
            let ghost all = digits(addr as int, 256, 4);
            proof {
                crate::network::lemma_digits_bound(addr as int, 256, 4);
            }
            let labels = unit_label_chars(&ds, Ghost(all), 4 - zone_units, 4, true);
            let mut name = join_chars(&labels, '.');
            let suffix = chars_of(".in-addr.arpa.");
            push_all(&mut name, &suffix);
            (string_of(&name), split)
        },
        IpNet::V6 { addr, prefix } => {
            let split = ((128 - prefix) / 4) as usize;
            let zone_units = (prefix / 4) as usize;
            let ds = digits_of(addr, 16, 32);
            let ghost all = digits(addr as int, 16, 32);
            proof {
                crate::network::lemma_digits_bound(addr as int, 16, 32);
                assert forall|i: int| 0 <= i < ds@.len() implies #[trigger] ds@[i] < 16 by {
                    assert(all[i] < 16);
                }
            }
            let labels = unit_label_chars(&ds, Ghost(all), 32 - zone_units, 32, false);
            let mut name = join_chars(&labels, '.');
            let suffix = chars_of(".ip6.arpa.");
            push_all(&mut name, &suffix);
            (string_of(&name), split)
        },
    }
}

/// The owner label of `address` inside a reverse zone whose records hold
/// `split` address units.
pub fn ip_name(address: &IpAddress, split: usize) -> (r: String)
    requires
        address is V4 ==> split <= 4,
    ensures
        r@ == ptr_label(*address, split as nat),
{
    match *address {
        IpAddress::V4(x) => {
            let ds = digits_of(x as u128, 256, 4);
            let ghost all = digits(x as int, 256, 4);
            proof {
                crate::network::lemma_digits_bound(x as int, 256, 4);
            }
            let labels = unit_label_chars(&ds, Ghost(all), 0, split, true);
            assert(all.subrange(0, split as int) =~= all.take(split as int));
            string_of(&join_chars(&labels, '.'))
        },
        IpAddress::V6(x) => {
            let n = if split <= 32 {
                split
            } else {
                32
            };
            let ds = digits_of(x, 16, 32);
            let ghost all = digits(x as int, 16, 32);
            proof {
                crate::network::lemma_digits_bound(x as int, 16, 32);
                assert forall|i: int| 0 <= i < ds@.len() implies #[trigger] ds@[i] < 16 by {
                    assert(all[i] < 16);
                }
            }
            let labels = unit_label_chars(&ds, Ghost(all), 0, n, false);
            assert(all.subrange(0, n as int) =~= all.take(n as int));
            string_of(&join_chars(&labels, '.'))
        },
    }
}

/// A record's TTL: its own if given, else the zone's.
pub open spec fn ttl_or(t: Option<TTL>, d: u32) -> u32 {
    match t {
        Some(x) => x.0,
        None => d,
    }
}

/// The (name, ttl, prio) an MX entry resolves to in `zone`, if its name
/// completes to a valid fully qualified name.
pub open spec fn mx_resolved(e: StringOrTableValue<MxEntry>, zone: Seq<char>, ttl: u32, prio: u16) -> Option<(Seq<char>, u32, u16)> {
    let (name, p, t) = mx_entry_of(e);
    match host_fqdn(name, zone) {
        Some(f) => if valid_dns_name(f) {
            Some((f, ttl_or(t, ttl), p.unwrap_or(prio)))
        } else {
            None
        },
        None => None,
    }
}

pub open spec fn mx_view(r: MxRecord) -> (Seq<char>, u32, u16) {
    (r.name@, r.ttl, r.prio)
}

/// Whether the MX field of a zone resolves.
pub open spec fn mx_ok(raw: Option<SingleOrVecValue<StringOrTableValue<MxEntry>>>, zone: Seq<char>, ttl: u32, prio: u16) -> bool {
    forall|i: int|
        0 <= i < opt_items(raw).len() ==> (#[trigger] mx_resolved(opt_items(raw)[i], zone, ttl, prio)) is Some
}

/// Whether `recs` are the MX records that the field resolves to: the
/// zone's own entries if it has the field, else the defaults.
pub open spec fn mx_match(
    recs: Seq<MxRecord>,
    raw: Option<SingleOrVecValue<StringOrTableValue<MxEntry>>>,
    zone: Seq<char>,
    ttl: u32,
    prio: u16,
    defaults: Seq<MxEntry>,
) -> bool {
    if raw is Some {
        &&& recs.len() == opt_items(raw).len()
        &&& forall|i: int|
            0 <= i < recs.len() ==> Some(mx_view(#[trigger] recs[i])) == mx_resolved(
                opt_items(raw)[i],
                zone,
                ttl,
                prio,
            )
    } else {
        &&& recs.len() == defaults.len()
        &&& forall|i: int|
            0 <= i < recs.len() ==> mx_view(#[trigger] recs[i]) == (
                defaults[i].name@,
                ttl_or(defaults[i].ttl, ttl),
                defaults[i].prio.unwrap_or(prio),
            )
    }
}

/// The MX records of a zone: its own entries, completed against the zone
/// and validated, or else the default mail exchangers as they are.
pub fn parse_mx(
    raw: Option<SingleOrVecValue<StringOrTableValue<MxEntry>>>,
    zone_name: &str,
    default_ttl: u32,
    default_mx_prio: u16,
    default_mx: &Vec<MxEntry>,
) -> (r: Result<Vec<MxRecord>, ZoneError>)
    ensures
        r is Ok <==> mx_ok(raw, zone_name@, default_ttl, default_mx_prio),
        r matches Ok(recs) ==> mx_match(
            recs@,
            raw,
            zone_name@,
            default_ttl,
            default_mx_prio,
            default_mx@,
        ),
{
    let ghost items = opt_items(raw);
    match raw {
        Some(entry) => {
            let mut out: Vec<MxRecord> = Vec::new();
            let entries = entry.to_vec();
            for e in it: entries
                invariant
                    it.seq() == items,
                    items == opt_items(raw),
                    raw is Some,
                    out@.len() == it.index(),
                    forall|q: int|
                        0 <= q < it.index() ==> Some(mx_view(#[trigger] out@[q])) == mx_resolved(
                            items[q],
                            zone_name@,
                            default_ttl,
                            default_mx_prio,
                        ),
            {
                let ghost ge = e;
                let (name, ttl, prio) = match e {
                    StringOrTableValue::Entry(n) => (n, default_ttl, default_mx_prio),
                    StringOrTableValue::Table(t) => (
                        t.name,
                        match t.ttl {
                            Some(x) => x.0,
                            None => default_ttl,
                        },
                        t.prio.unwrap_or(default_mx_prio),
                    ),
                };
                let fqdn = match parse_host_str(name.as_str(), zone_name) {
                    Ok(f) => f,
                    Err(err) => {
                        assert(mx_resolved(items[it.index() as int], zone_name@, default_ttl, default_mx_prio) is None);
                        return Err(err);
                    },
                };
                match validate_dns_name(fqdn.as_str()) {
                    Ok(()) => {},
                    Err(err) => {
                        assert(mx_resolved(items[it.index() as int], zone_name@, default_ttl, default_mx_prio) is None);
                        return Err(err);
                    },
                }
                let rec = MxRecord { name: fqdn, ttl, prio };
                assert(Some(mx_view(rec)) == mx_resolved(ge, zone_name@, default_ttl, default_mx_prio));
                out.push(rec);
            }
            assert forall|q: int| 0 <= q < items.len() implies (#[trigger] mx_resolved(
                items[q],
                zone_name@,
                default_ttl,
                default_mx_prio,
            )) is Some by {
                assert(Some(mx_view(out@[q])) == mx_resolved(items[q], zone_name@, default_ttl, default_mx_prio));
            }
            Ok(out)
        },
        None => {
            let mut out: Vec<MxRecord> = Vec::new();
            let mut i: usize = 0;
            while i < default_mx.len()
                invariant
                    i <= default_mx.len(),
                    raw is None,
                    out@.len() == i,
                    forall|q: int|
                        0 <= q < i ==> mx_view(#[trigger] out@[q]) == (
                            default_mx@[q].name@,
                            ttl_or(default_mx@[q].ttl, default_ttl),
                            default_mx@[q].prio.unwrap_or(default_mx_prio),
                        ),
                decreases default_mx.len() - i,
            {
                let d = &default_mx[i];
                let ttl = match d.ttl {
                    Some(x) => x.0,
                    None => default_ttl,
                };
                out.push(MxRecord { name: d.name.clone(), ttl, prio: d.prio.unwrap_or(default_mx_prio) });
                i = i + 1;
            }
            Ok(out)
        },
    }
}

/// The (name, ttl) of a nameserver written either way.
pub open spec fn ns_entry_of(e: StringOrTableValue<NameserverEntry>) -> (Seq<char>, Option<TTL>) {
    match e {
        StringOrTableValue::Entry(s) => (s@, None),
        StringOrTableValue::Table(t) => (t.name@, t.ttl),
    }
}

/// The (name, ttl) a nameserver entry resolves to in `zone`, if its name
/// completes to a valid fully qualified name.
pub open spec fn ns_resolved(e: StringOrTableValue<NameserverEntry>, zone: Seq<char>, ttl: u32) -> Option<(Seq<char>, u32)> {
    let (name, t) = ns_entry_of(e);
    match host_fqdn(name, zone) {
        Some(f) => if valid_dns_name(f) {
            Some((f, ttl_or(t, ttl)))
        } else {
            None
        },
        None => None,
    }
}

pub open spec fn ns_view(r: NsRecord) -> (Seq<char>, u32) {
    (r.name@, r.ttl)
}

/// Whether the nameserver field of a zone resolves to at least one
/// nameserver.
pub open spec fn ns_ok(
    raw: Option<SingleOrVecValue<StringOrTableValue<NameserverEntry>>>,
    zone: Seq<char>,
    ttl: u32,
    defaults: Seq<String>,
) -> bool {
    if raw is Some {
        &&& opt_items(raw).len() > 0
        &&& forall|i: int|
            0 <= i < opt_items(raw).len() ==> (#[trigger] ns_resolved(opt_items(raw)[i], zone, ttl)) is Some
    } else {
        defaults.len() > 0
    }
}

/// Whether `recs` are the NS records the field resolves to: the zone's own
/// entries if it has the field, else the default nameservers.
pub open spec fn ns_match(
    recs: Seq<NsRecord>,
    raw: Option<SingleOrVecValue<StringOrTableValue<NameserverEntry>>>,
    zone: Seq<char>,
    ttl: u32,
    defaults: Seq<String>,
) -> bool {
    if raw is Some {
        &&& recs.len() == opt_items(raw).len()
        &&& forall|i: int|
            0 <= i < recs.len() ==> Some(ns_view(#[trigger] recs[i])) == ns_resolved(
                opt_items(raw)[i],
                zone,
                ttl,
            )
    } else {
        &&& recs.len() == defaults.len()
        &&& forall|i: int| 0 <= i < recs.len() ==> ns_view(#[trigger] recs[i]) == (defaults[i]@, ttl)
    }
}

/// The NS records of a zone: its own entries, completed against the zone
/// and validated, or else the default nameservers. A zone left without a
/// nameserver is an error.
pub fn parse_ns(
    raw: Option<SingleOrVecValue<StringOrTableValue<NameserverEntry>>>,
    zone_name: &str,
    default_ttl: u32,
    default_ns: &Vec<String>,
) -> (r: Result<Vec<NsRecord>, ZoneError>)
    ensures
        r is Ok <==> ns_ok(raw, zone_name@, default_ttl, default_ns@),
        r matches Ok(recs) ==> ns_match(recs@, raw, zone_name@, default_ttl, default_ns@),
        (raw is Some && opt_items(raw).len() == 0) || (raw is None && default_ns@.len() == 0) ==> (
        r matches Err(ZoneError::MissingNameserver { zone }) && zone@ == zone_name@),
{
    let ghost items = opt_items(raw);
    match raw {
        Some(zone_ns) => {
            let entries = zone_ns.to_vec();
            if entries.len() == 0 {
                return Err(ZoneError::MissingNameserver { zone: zone_name.to_owned() });
            }
            let mut out: Vec<NsRecord> = Vec::new();
            for e in it: entries
                invariant
                    it.seq() == items,
                    items == opt_items(raw),
                    items.len() > 0,
                    raw is Some,
                    out@.len() == it.index(),
                    forall|q: int|
                        0 <= q < it.index() ==> Some(ns_view(#[trigger] out@[q])) == ns_resolved(
                            items[q],
                            zone_name@,
                            default_ttl,
                        ),
            {
                let ghost ge = e;
                let (name, ttl) = match e {
                    StringOrTableValue::Entry(n) => (n, default_ttl),
                    StringOrTableValue::Table(t) => (
                        t.name,
                        match t.ttl {
                            Some(x) => x.0,
                            None => default_ttl,
                        },
                    ),
                };
                let fqdn = match parse_host_str(name.as_str(), zone_name) {
                    Ok(f) => f,
                    Err(err) => {
                        assert(ns_resolved(items[it.index() as int], zone_name@, default_ttl) is None);
                        return Err(err);
                    },
                };
                match validate_dns_name(fqdn.as_str()) {
                    Ok(()) => {},
                    Err(err) => {
                        assert(ns_resolved(items[it.index() as int], zone_name@, default_ttl) is None);
                        return Err(err);
                    },
                }
                let rec = NsRecord { name: fqdn, ttl };
                assert(Some(ns_view(rec)) == ns_resolved(ge, zone_name@, default_ttl));
                out.push(rec);
            }
            assert forall|q: int| 0 <= q < items.len() implies (#[trigger] ns_resolved(
                items[q],
                zone_name@,
                default_ttl,
            )) is Some by {
                assert(Some(ns_view(out@[q])) == ns_resolved(items[q], zone_name@, default_ttl));
            }
            Ok(out)
        },
        None => {
            if default_ns.len() == 0 {
                return Err(ZoneError::MissingNameserver { zone: zone_name.to_owned() });
            }
            let mut out: Vec<NsRecord> = Vec::new();
            let mut i: usize = 0;
            while i < default_ns.len()
                invariant
                    i <= default_ns.len(),
                    raw is None,
                    out@.len() == i,
                    forall|q: int|
                        0 <= q < i ==> ns_view(#[trigger] out@[q]) == (default_ns@[q]@, default_ttl),
                decreases default_ns.len() - i,
            {
                out.push(NsRecord { name: default_ns[i].clone(), ttl: default_ttl });
                i = i + 1;
            }
            Ok(out)
        },
    }
}

/// The (target, ttl) of a CNAME written either way.
pub open spec fn cname_entry_of(e: StringOrTableValue<CnameEntry>) -> (Seq<char>, Option<TTL>) {
    match e {
        StringOrTableValue::Entry(s) => (s@, None),
        StringOrTableValue::Table(t) => (t.target@, t.ttl),
    }
}

/// The items of an optional keyed field; none when absent.
pub open spec fn opt_pairs<T>(o: Option<Vec<T>>) -> Seq<T> {
    match o {
        Some(v) => v@,
        None => Seq::empty(),
    }
}

/// The (name, target, ttl) a CNAME resolves to in `zone`, if both its
/// name and its target complete.
pub open spec fn cname_resolved(item: (String, StringOrTableValue<CnameEntry>), zone: Seq<char>, ttl: u32) -> Option<(Seq<char>, Seq<char>, u32)> {
    let (target, t) = cname_entry_of(item.1);
    match (host_fqdn(item.0@, zone), host_fqdn(target, zone)) {
        (Some(n), Some(g)) => Some((n, g, ttl_or(t, ttl))),
        _ => None,
    }
}

pub open spec fn cname_view(r: CnameRecord) -> (Seq<char>, Seq<char>, u32) {
    (r.name@, r.target@, r.ttl)
}


/// Whether every CNAME of the field resolves.
pub open spec fn cnames_ok(raw: Option<Vec<(String, StringOrTableValue<CnameEntry>)>>, zone: Seq<char>, ttl: u32) -> bool {
    forall|i: int|
        0 <= i < opt_pairs(raw).len() ==> (#[trigger] cname_resolved(opt_pairs(raw)[i], zone, ttl)) is Some
}

/// Whether `recs` are the CNAME records the field resolves to, in order.
pub open spec fn cnames_match(recs: Seq<CnameRecord>, raw: Option<Vec<(String, StringOrTableValue<CnameEntry>)>>, zone: Seq<char>, ttl: u32) -> bool {
    &&& recs.len() == opt_pairs(raw).len()
    &&& forall|i: int|
        0 <= i < recs.len() ==> Some(cname_view(#[trigger] recs[i])) == cname_resolved(
            opt_pairs(raw)[i],
            zone,
            ttl,
        )
}

/// Whether every SRV entry of the field resolves.
pub open spec fn srvs_ok(raw: Option<SrvMap>, zone: Seq<char>, ttl: u32, prio: u16, weight: u16) -> bool {
    forall|i: int|
        0 <= i < srv_items(raw).len() ==> (#[trigger] srv_resolved(
            srv_items(raw)[i],
            zone,
            ttl,
            prio,
            weight,
        )) is Some
}

/// Whether `recs` are the SRV records the field resolves to, in order.
pub open spec fn srvs_match(recs: Seq<SrvRecord>, raw: Option<SrvMap>, zone: Seq<char>, ttl: u32, prio: u16, weight: u16) -> bool {
    &&& recs.len() == srv_items(raw).len()
    &&& forall|i: int|
        0 <= i < recs.len() ==> Some(srv_view(#[trigger] recs[i])) == srv_resolved(
            srv_items(raw)[i],
            zone,
            ttl,
            prio,
            weight,
        )
}

/// Whether every host of the field resolves.
pub open spec fn hosts_ok(raw: Option<Vec<(String, HostValue)>>, zone: Seq<char>) -> bool {
    forall|i: int| 0 <= i < opt_pairs(raw).len() ==> host_ok(#[trigger] opt_pairs(raw)[i], zone)
}

/// The CNAME records of a zone, each name and target completed against
/// the zone.
pub fn parse_cname(
    raw: Option<Vec<(String, StringOrTableValue<CnameEntry>)>>,
    zone_name: &str,
    default_ttl: u32,
) -> (r: Result<Vec<CnameRecord>, ZoneError>)
    ensures
        r is Ok <==> cnames_ok(raw, zone_name@, default_ttl),
        r matches Ok(recs) ==> cnames_match(recs@, raw, zone_name@, default_ttl),
{
    let ghost items = opt_pairs(raw);
    let entries = match raw {
        Some(v) => v,
        None => Vec::new(),
    };
    assert(entries@ =~= items);
    let mut out: Vec<CnameRecord> = Vec::new();
    for item in it: entries
        invariant
            it.seq() == items,
            items == opt_pairs(raw),
            out@.len() == it.index(),
            forall|q: int|
                0 <= q < it.index() ==> Some(cname_view(#[trigger] out@[q])) == cname_resolved(
                    items[q],
                    zone_name@,
                    default_ttl,
                ),
    {
        let ghost gi = item;
        let (cname, entry) = item;
        let name = match parse_host_str(cname.as_str(), zone_name) {
            Ok(n) => n,
            Err(err) => {
                assert(cname_resolved(items[it.index() as int], zone_name@, default_ttl) is None);
                return Err(err);
            },
        };
        let (host, ttl) = match entry {
            StringOrTableValue::Entry(e) => (e, default_ttl),
            StringOrTableValue::Table(t) => (
                t.target,
                match t.ttl {
                    Some(x) => x.0,
                    None => default_ttl,
                },
            ),
        };
        let target = match parse_host_str(host.as_str(), zone_name) {
            Ok(g) => g,
            Err(err) => {
                assert(cname_resolved(items[it.index() as int], zone_name@, default_ttl) is None);
                return Err(err);
            },
        };
        let rec = CnameRecord { name, target, ttl };
        assert(Some(cname_view(rec)) == cname_resolved(gi, zone_name@, default_ttl));
        out.push(rec);
    }
    assert forall|q: int| 0 <= q < items.len() implies (#[trigger] cname_resolved(
        items[q],
        zone_name@,
        default_ttl,
    )) is Some by {
        assert(Some(cname_view(out@[q])) == cname_resolved(items[q], zone_name@, default_ttl));
    }
    Ok(out)
}

/// The items of an optional SRV field; none when absent.
pub open spec fn srv_items(o: Option<SrvMap>) -> Seq<(String, SrvEntry)> {
    match o {
        Some(m) => m.0@,
        None => Seq::empty(),
    }
}

/// The (name, target, ttl, prio, weight, port) an SRV entry resolves to in
/// `zone`, if its owner name is well formed and both names complete.
pub open spec fn srv_resolved(item: (String, SrvEntry), zone: Seq<char>, ttl: u32, prio: u16, weight: u16) -> Option<(Seq<char>, Seq<char>, u32, u16, u16, u16)> {
    let e = item.1;
    if srv_fault(item.0@) is Some {
        None
    } else {
        match (host_fqdn(trim(item.0@), zone), host_fqdn(e.target@, zone)) {
            (Some(n), Some(g)) => Some(
                (n, g, ttl_or(e.ttl, ttl), e.prio.unwrap_or(prio), e.weight.unwrap_or(weight), e.port),
            ),
            _ => None,
        }
    }
}

pub open spec fn srv_view(r: SrvRecord) -> (Seq<char>, Seq<char>, u32, u16, u16, u16) {
    (r.name@, r.target@, r.ttl, r.prio, r.weight, r.port)
}

/// The SRV records of a zone: each owner name checked and completed, each
/// target completed, against the zone.
pub fn parse_srv(
    raw: Option<SrvMap>,
    zone_name: &str,
    default_ttl: u32,
    default_srv_prio: u16,
    default_srv_weight: u16,
) -> (r: Result<Vec<SrvRecord>, ZoneError>)
    ensures
        r is Ok <==> srvs_ok(raw, zone_name@, default_ttl, default_srv_prio, default_srv_weight),
        r matches Ok(recs) ==> srvs_match(
            recs@,
            raw,
            zone_name@,
            default_ttl,
            default_srv_prio,
            default_srv_weight,
        ),
{
    let ghost items = srv_items(raw);
    let entries = match raw {
        Some(m) => m.0,
        None => Vec::new(),
    };
    assert(entries@ =~= items);
    let mut out: Vec<SrvRecord> = Vec::new();
    for item in it: entries
        invariant
            it.seq() == items,
            items == srv_items(raw),
            out@.len() == it.index(),
            forall|q: int|
                0 <= q < it.index() ==> Some(srv_view(#[trigger] out@[q])) == srv_resolved(
                    items[q],
                    zone_name@,
                    default_ttl,
                    default_srv_prio,
                    default_srv_weight,
                ),
    {
        let ghost gi = item;
        let (srv_name, entry) = item;
        let name = match parse_srv_name(srv_name.as_str(), zone_name) {
            Ok(n) => n,
            Err(err) => {
                assert(srv_resolved(items[it.index() as int], zone_name@, default_ttl, default_srv_prio, default_srv_weight) is None);
                return Err(err);
            },
        };
        let target = match parse_host_str(entry.target.as_str(), zone_name) {
            Ok(g) => g,
            Err(err) => {
                assert(srv_resolved(items[it.index() as int], zone_name@, default_ttl, default_srv_prio, default_srv_weight) is None);
                return Err(err);
            },
        };
        let ttl = match entry.ttl {
            Some(x) => x.0,
            None => default_ttl,
        };
        let rec = SrvRecord {
            name,
            target,
            ttl,
            prio: entry.prio.unwrap_or(default_srv_prio),
            weight: entry.weight.unwrap_or(default_srv_weight),
            port: entry.port,
        };
        assert(Some(srv_view(rec)) == srv_resolved(gi, zone_name@, default_ttl, default_srv_prio, default_srv_weight));
        out.push(rec);
    }
    assert forall|q: int| 0 <= q < items.len() implies (#[trigger] srv_resolved(
        items[q],
        zone_name@,
        default_ttl,
        default_srv_prio,
        default_srv_weight,
    )) is Some by {
        assert(Some(srv_view(out@[q])) == srv_resolved(items[q], zone_name@, default_ttl, default_srv_prio, default_srv_weight));
    }
    Ok(out)
}

/// The addresses, aliases, TTL and PTR flag of a host, with the zone's
/// values where the host sets none.
pub open spec fn host_parts(v: HostValue, ttl: u32, with_ptr: bool) -> (Seq<IpAddress>, Seq<String>, u32, bool) {
    match v {
        HostValue::Ip(ips) => (ips.items(), Seq::empty(), ttl, with_ptr),
        HostValue::Entry(e) => (
            e.ip.items(),
            opt_items(e.alias),
            ttl_or(e.ttl, ttl),
            e.with_ptr.unwrap_or(with_ptr),
        ),
    }
}

/// Whether a name's leftmost label is a wildcard.
pub open spec fn is_wildcard(name: Seq<char>) -> bool {
    name.len() > 0 && name[0] == '*'
}

/// The completed names of a host's aliases.
pub open spec fn alias_names(aliases: Seq<String>, zone: Seq<char>) -> Seq<Seq<char>> {
    aliases.map_values(|a: String| host_fqdn(a@, zone)->0)
}

/// Whether the name and every alias of a host complete in `zone`.
pub open spec fn host_ok(h: (String, HostValue), zone: Seq<char>) -> bool {
    let aliases = host_parts(h.1, 0, false).1;
    &&& host_fqdn(h.0@, zone) is Some
    &&& forall|k: int| 0 <= k < aliases.len() ==> (#[trigger] host_fqdn(aliases[k]@, zone)) is Some
}

/// The address records of one host: for each address in turn, one under
/// the host's name and one under each alias.
pub open spec fn host_a(fqdn: Seq<char>, aliases: Seq<Seq<char>>, ips: Seq<IpAddress>, ttl: u32) -> Seq<(Seq<char>, IpAddress, u32)>
    decreases ips.len(),
{
    if ips.len() == 0 {
        Seq::empty()
    } else {
        host_a(fqdn, aliases, ips.drop_last(), ttl) + seq![(fqdn, ips.last(), ttl)]
            + aliases.map_values(|a: Seq<char>| (a, ips.last(), ttl))
    }
}

/// The PTR candidates of one host: one per address when the flag is set
/// and the name is not a wildcard.
pub open spec fn host_ptrs(fqdn: Seq<char>, ips: Seq<IpAddress>, ttl: u32, with_ptr: bool) -> Seq<(Seq<char>, IpAddress, u32)> {
    if with_ptr && !is_wildcard(fqdn) {
        ips.map_values(|ip: IpAddress| (fqdn, ip, ttl))
    } else {
        Seq::empty()
    }
}

/// The address records of one host entry in `zone`.
pub open spec fn host_a_of(h: (String, HostValue), zone: Seq<char>, ttl: u32, with_ptr: bool) -> Seq<(Seq<char>, IpAddress, u32)> {
    let (ips, aliases, t, _w) = host_parts(h.1, ttl, with_ptr);
    host_a(host_fqdn(h.0@, zone)->0, alias_names(aliases, zone), ips, t)
}

/// The PTR candidates of one host entry in `zone`.
pub open spec fn host_ptrs_of(h: (String, HostValue), zone: Seq<char>, ttl: u32, with_ptr: bool) -> Seq<(Seq<char>, IpAddress, u32)> {
    let (ips, _aliases, t, w) = host_parts(h.1, ttl, with_ptr);
    host_ptrs(host_fqdn(h.0@, zone)->0, ips, t, w)
}

/// The address records of all hosts, in order.
pub open spec fn hosts_a(hosts: Seq<(String, HostValue)>, zone: Seq<char>, ttl: u32, with_ptr: bool) -> Seq<(Seq<char>, IpAddress, u32)>
    decreases hosts.len(),
{
    if hosts.len() == 0 {
        Seq::empty()
    } else {
        hosts_a(hosts.drop_last(), zone, ttl, with_ptr) + host_a_of(hosts.last(), zone, ttl, with_ptr)
    }
}

/// The PTR candidates of all hosts, in order.
pub open spec fn hosts_ptrs(hosts: Seq<(String, HostValue)>, zone: Seq<char>, ttl: u32, with_ptr: bool) -> Seq<(Seq<char>, IpAddress, u32)>
    decreases hosts.len(),
{
    if hosts.len() == 0 {
        Seq::empty()
    } else {
        hosts_ptrs(hosts.drop_last(), zone, ttl, with_ptr) + host_ptrs_of(hosts.last(), zone, ttl, with_ptr)
    }
}

pub open spec fn a_views(s: Seq<ARecord>) -> Seq<(Seq<char>, IpAddress, u32)> {
    s.map_values(|r: ARecord| (r.name@, r.ip, r.ttl))
}

pub open spec fn ptr_views(s: Seq<PtrRecord>) -> Seq<(Seq<char>, IpAddress, u32)> {
    s.map_values(|r: PtrRecord| (r.name@, r.ip, r.ttl))
}

/// Resolves one host, appending its address records and PTR candidates.
fn resolve_host(
    hostname: String,
    value: HostValue,
    zone_name: &str,
    default_ttl: u32,
    default_with_ptr: bool,
    a_records: &mut Vec<ARecord>,
    ptr_records: &mut Vec<PtrRecord>,
) -> (r: Result<(), ZoneError>)
    ensures
        r is Ok <==> host_ok((hostname, value), zone_name@),
        r is Ok ==> a_views(final(a_records)@) == a_views(old(a_records)@) + host_a_of(
            (hostname, value),
            zone_name@,
            default_ttl,
            default_with_ptr,
        ),
        r is Ok ==> ptr_views(final(ptr_records)@) == ptr_views(old(ptr_records)@) + host_ptrs_of(
            (hostname, value),
            zone_name@,
            default_ttl,
            default_with_ptr,
        ),
{
    let ghost h = (hostname, value);
    let fqdn = match parse_host_str(hostname.as_str(), zone_name) {
        Ok(f) => f,
        Err(e) => {
            return Err(e);
        },
    };
    let ghost parts = host_parts(value, default_ttl, default_with_ptr);
    let (ips, aliases, ttl, with_ptr) = match value {
        HostValue::Ip(ip) => (ip.to_vec(), Vec::new(), default_ttl, default_with_ptr),
        HostValue::Entry(entry) => (
            entry.ip.to_vec(),
            match entry.alias {
                Some(a) => a.to_vec(),
                None => Vec::new(),
            },
            match entry.ttl {
                Some(x) => x.0,
                None => default_ttl,
            },
            entry.with_ptr.unwrap_or(default_with_ptr),
        ),
    };
    assert(ips@ =~= parts.0 && aliases@ =~= parts.1 && ttl == parts.2 && with_ptr == parts.3);
    assert(host_parts(h.1, 0, false).1 == parts.1);
    let mut names: Vec<String> = Vec::new();
    let mut k: usize = 0;
    while k < aliases.len()
        invariant
            k <= aliases.len(),
            aliases@ == host_parts(h.1, 0, false).1,
            h == (hostname, value),
            names@.len() == k,
            forall|q: int|
                0 <= q < k ==> (#[trigger] host_fqdn(aliases@[q]@, zone_name@)) is Some && names@[q]@
                    == host_fqdn(aliases@[q]@, zone_name@)->0,
        decreases aliases.len() - k,
    {
        match parse_host_str(aliases[k].as_str(), zone_name) {
            Ok(n) => names.push(n),
            Err(e) => {
                assert(host_fqdn(aliases@[k as int]@, zone_name@) is None);
                return Err(e);
            },
        }
        k = k + 1;
    }
    let ghost anames = alias_names(aliases@, zone_name@);
    assert(views_of_strings(names@) =~= anames);
    let ghost a_start = a_views(a_records@);
    let ghost p_start = ptr_views(ptr_records@);
    let wildcard = fqdn_is_wildcard(&fqdn);
    let mut j: usize = 0;
    while j < ips.len()
        invariant
            j <= ips.len(),
            views_of_strings(names@) == anames,
            a_views(a_records@) == a_start + host_a(fqdn@, anames, ips@.take(j as int), ttl),
            ptr_views(ptr_records@) == p_start + host_ptrs(fqdn@, ips@.take(j as int), ttl, with_ptr),
            wildcard == is_wildcard(fqdn@),
        decreases ips.len() - j,
    {
        let ip = ips[j];
        assert(ips@.take(j + 1).drop_last() =~= ips@.take(j as int));
        assert(ips@.take(j + 1).last() == ip);
        let ghost before = a_views(a_records@);
        a_records.push(ARecord { name: fqdn.clone(), ip, ttl });
        assert(a_views(a_records@) =~= before + seq![(fqdn@, ip, ttl)]);
        let mut q: usize = 0;
        while q < names.len()
            invariant
                q <= names.len(),
                views_of_strings(names@) == anames,
                a_views(a_records@) == before + seq![(fqdn@, ip, ttl)] + anames.take(q as int).map_values(
                    |a: Seq<char>| (a, ip, ttl),
                ),
            decreases names.len() - q,
        {
            let ghost mid = a_views(a_records@);
            a_records.push(ARecord { name: names[q].clone(), ip, ttl });
            assert(anames[q as int] == names@[q as int]@);
            assert(anames.take(q + 1).map_values(|a: Seq<char>| (a, ip, ttl)) =~= anames.take(
                q as int,
            ).map_values(|a: Seq<char>| (a, ip, ttl)).push((names@[q as int]@, ip, ttl)));
            assert(a_views(a_records@) =~= mid.push((names@[q as int]@, ip, ttl)));
            q = q + 1;
        }
        assert(anames.take(names.len() as int) =~= anames);
        let ghost pbefore = ptr_views(ptr_records@);
        if with_ptr && !wildcard {
            ptr_records.push(PtrRecord { name: fqdn.clone(), ip, ttl });
            assert(ptr_views(ptr_records@) =~= pbefore.push((fqdn@, ip, ttl)));
        }
        j = j + 1;
        assert(host_ptrs(fqdn@, ips@.take(j as int), ttl, with_ptr) =~= host_ptrs(
            fqdn@,
            ips@.take(j - 1),
            ttl,
            with_ptr,
        ) + if with_ptr && !is_wildcard(fqdn@) {
            seq![(fqdn@, ip, ttl)]
        } else {
            Seq::empty()
        });
    }
    assert(ips@.take(ips.len() as int) =~= ips@);
    Ok(())
}

/// The character sequences of a sequence of strings.
pub open spec fn views_of_strings(s: Seq<String>) -> Seq<Seq<char>> {
    s.map_values(|x: String| x@)
}

/// Whether the name starts with the wildcard character.
fn fqdn_is_wildcard(name: &String) -> (r: bool)
    ensures
        r == is_wildcard(name@),
{
    let c = chars_of(name.as_str());
    c.len() > 0 && c[0] == '*'
}

/// The address records and PTR candidates of a zone's hosts. A host's
/// name and aliases are completed against the zone; each address gives a
/// record under the name and one under each alias, and a PTR candidate when
/// the host's flag is set and its name is not a wildcard.
pub fn parse_hosts(
    raw: Option<Vec<(String, HostValue)>>,
    zone_name: &str,
    default_ttl: u32,
    default_with_ptr: bool,
) -> (r: Result<(Vec<ARecord>, Vec<PtrRecord>), ZoneError>)
    ensures
        r is Ok <==> hosts_ok(raw, zone_name@),
        r matches Ok((a, p)) ==> a_views(a@) == hosts_a(
            opt_pairs(raw),
            zone_name@,
            default_ttl,
            default_with_ptr,
        ) && ptr_views(p@) == hosts_ptrs(opt_pairs(raw), zone_name@, default_ttl, default_with_ptr),
{
    let ghost items = opt_pairs(raw);
    let entries = match raw {
        Some(v) => v,
        None => Vec::new(),
    };
    assert(entries@ =~= items);
    let mut a_records: Vec<ARecord> = Vec::new();
    let mut ptr_records: Vec<PtrRecord> = Vec::new();
    assert(items.take(0) =~= Seq::<(String, HostValue)>::empty());
    assert(a_views(a_records@) =~= Seq::<(Seq<char>, IpAddress, u32)>::empty());
    assert(ptr_views(ptr_records@) =~= Seq::<(Seq<char>, IpAddress, u32)>::empty());
    for item in it: entries
        invariant
            it.seq() == items,
            items == opt_pairs(raw),
            forall|q: int| 0 <= q < it.index() ==> host_ok(#[trigger] items[q], zone_name@),
            a_views(a_records@) == hosts_a(
                items.take(it.index() as int),
                zone_name@,
                default_ttl,
                default_with_ptr,
            ),
            ptr_views(ptr_records@) == hosts_ptrs(
                items.take(it.index() as int),
                zone_name@,
                default_ttl,
                default_with_ptr,
            ),
    {
        let ghost i = it.index() as int;
        assert(items.take(i + 1).drop_last() =~= items.take(i));
        assert(items.take(i + 1).last() == item);
        let (hostname, value) = item;
        match resolve_host(
            hostname,
            value,
            zone_name,
            default_ttl,
            default_with_ptr,
            &mut a_records,
            &mut ptr_records,
        ) {
            Ok(()) => {},
            Err(e) => {
                return Err(e);
            },
        }
    }
    assert(items.take(items.len() as int) =~= items);
    Ok((a_records, ptr_records))
}

/// A zone name with a trailing dot, added if missing.
pub open spec fn zone_fqdn(name: Seq<char>) -> Seq<char> {
    if ends_dot(name) {
        name
    } else {
        name.push('.')
    }
}

/// Whether a zone's email resolves: its own, if given, must be valid;
/// otherwise the defaults must hold one.
pub open spec fn zone_email_ok(raw: Option<String>, d: SessionDefaults) -> bool {
    match raw {
        Some(e) => email_ok(e@),
        None => d.email is Some,
    }
}

/// The SOA mailbox of a zone: its own email's, or the default one.
pub open spec fn zone_email(raw: Option<String>, d: SessionDefaults) -> Seq<char> {
    match raw {
        Some(e) => soa_mailbox(e@),
        None => d.email->0@,
    }
}

/// The SOA mailbox of a zone: its own email's, or the default one.
fn resolve_email(raw: Option<String>, defaults: &SessionDefaults, zone: &String) -> (r: Result<String, ZoneError>)
    ensures
        r is Ok <==> zone_email_ok(raw, *defaults),
        r matches Ok(m) ==> m@ == zone_email(raw, *defaults),
        raw is None && defaults.email is None ==> (r matches Err(ZoneError::MissingEmail { zone: z })
            && z@ == zone@),
{
    match raw {
        Some(mail) => parse_email(mail.as_str()),
        None => match &defaults.email {
            Some(m) => Ok(m.clone()),
            None => Err(ZoneError::MissingEmail { zone: zone.clone() }),
        },
    }
}

/// The effective TTL of a zone.
pub open spec fn eff_ttl(raw: Option<TTL>, d: SessionDefaults) -> u32 {
    ttl_or(raw, d.ttl)
}

/// Whether a forward zone resolves against the defaults `d`.
pub open spec fn forward_ok(raw: Zone, d: SessionDefaults) -> bool {
    forward_ok_given(
        raw,
        d.retry,
        d.refresh,
        d.email is Some,
        d.ttl,
        d.mx_prio,
        d.srv_prio,
        d.srv_weight,
        d.nameserver@,
    )
}

/// Whether a forward zone resolves against defaults with the given retry,
/// refresh, email presence, TTL, priorities, weight and nameservers.
pub open spec fn forward_ok_given(
    raw: Zone,
    retry: u32,
    refresh: u32,
    has_email: bool,
    ttl: u32,
    mx_prio: u16,
    srv_prio: u16,
    srv_weight: u16,
    nameservers: Seq<String>,
) -> bool {
    let zone = zone_fqdn(raw.name@);
    let t = ttl_or(raw.base.ttl, ttl);
    &&& raw.base.retry.unwrap_or(retry) < raw.base.refresh.unwrap_or(refresh)
    &&& match raw.base.email {
        Some(e) => email_ok(e@),
        None => has_email,
    }
    &&& hosts_ok(raw.hosts, zone)
    &&& mx_ok(raw.mx, zone, t, raw.mx_prio.unwrap_or(mx_prio))
    &&& ns_ok(raw.base.nameserver, zone, t, nameservers)
    &&& cnames_ok(raw.cname, zone, t)
    &&& srvs_ok(raw.srv, zone, t, raw.srv_prio.unwrap_or(srv_prio), raw.srv_weight.unwrap_or(srv_weight))
}

/// Whether `z` and the PTR candidates `ptrs` are what the forward zone
/// `raw` resolves to: every field takes the zone's value if given, else
/// the default.
pub open spec fn forward_match(z: ForwardZone, ptrs: Seq<PtrRecord>, raw: Zone, d: SessionDefaults) -> bool {
    let zone = zone_fqdn(raw.name@);
    let ttl = eff_ttl(raw.base.ttl, d);
    let with_ptr = raw.with_ptr.unwrap_or(d.with_ptr);
    &&& z.base.name@ == zone
    &&& z.base.serial == raw.base.serial.unwrap_or(d.serial)
    &&& z.base.expire == raw.base.expire.unwrap_or(d.expire)
    &&& z.base.nrc_ttl == raw.base.nrc_ttl.unwrap_or(d.nrc_ttl)
    &&& z.base.refresh == raw.base.refresh.unwrap_or(d.refresh)
    &&& z.base.retry == raw.base.retry.unwrap_or(d.retry)
    &&& z.base.ttl == ttl
    &&& z.base.email@ == zone_email(raw.base.email, d)
    &&& ns_match(z.base.nameserver@, raw.base.nameserver, zone, ttl, d.nameserver@)
    &&& mx_match(z.mx@, raw.mx, zone, ttl, raw.mx_prio.unwrap_or(d.mx_prio), d.mx@)
    &&& a_views(z.hosts@) == hosts_a(opt_pairs(raw.hosts), zone, ttl, with_ptr)
    &&& ptr_views(ptrs) == hosts_ptrs(opt_pairs(raw.hosts), zone, ttl, with_ptr)
    &&& cnames_match(z.cname@, raw.cname, zone, ttl)
    &&& srvs_match(z.srv@, raw.srv, zone, ttl, raw.srv_prio.unwrap_or(d.srv_prio), raw.srv_weight.unwrap_or(d.srv_weight))
}

/// The characters of a zone name, with a trailing dot.
fn zone_fqdn_string(name: &String) -> (r: String)
    ensures
        r@ == zone_fqdn(name@),
{
    let mut z = chars_of(name.as_str());
    if !(z.len() > 0 && z[z.len() - 1] == '.') {
        z.push('.');
    }
    string_of(&z)
}

/// `cause`, marked as arising in `field` of zone `zone`.
pub fn in_zone(zone: &String, field: ZoneField, cause: ZoneError) -> (r: ZoneError)
    ensures
        r matches ZoneError::InZone { zone: z, field: f, cause: c } && z@ == zone@ && f == field
            && *c == cause,
{
    ZoneError::InZone { zone: zone.clone(), field, cause: Box::new(cause) }
}

/// Resolves a forward zone against the session defaults: its records and
/// the PTR candidates of its hosts. An error names the zone and the field
/// it arose in.
pub fn parse_forward(raw: Zone, defaults: &SessionDefaults) -> (r: Result<(ForwardZone, Vec<PtrRecord>), ZoneError>)
    ensures
        r is Ok <==> forward_ok(raw, *defaults),
        r matches Ok((z, p)) ==> forward_match(z, p@, raw, *defaults),
        r matches Err(e) ==> e matches ZoneError::InZone { zone, .. } && zone@ == zone_fqdn(raw.name@),
        raw.base.retry.unwrap_or(defaults.retry) >= raw.base.refresh.unwrap_or(defaults.refresh) ==> (
        r matches Err(ZoneError::InZone { field: ZoneField::Timers, cause, .. }) && *cause
            == ZoneError::RetryNotBelowRefresh {
            retry: raw.base.retry.unwrap_or(defaults.retry),
            refresh: raw.base.refresh.unwrap_or(defaults.refresh),
        }),
{
    let zone_name = zone_fqdn_string(&raw.name);
    let serial = raw.base.serial.unwrap_or(defaults.serial);
    let expire = raw.base.expire.unwrap_or(defaults.expire);
    let mx_prio = raw.mx_prio.unwrap_or(defaults.mx_prio);
    let nrc_ttl = raw.base.nrc_ttl.unwrap_or(defaults.nrc_ttl);
    let refresh = raw.base.refresh.unwrap_or(defaults.refresh);
    let retry = raw.base.retry.unwrap_or(defaults.retry);
    let srv_prio = raw.srv_prio.unwrap_or(defaults.srv_prio);
    let srv_weight = raw.srv_weight.unwrap_or(defaults.srv_weight);
    let ttl = match raw.base.ttl {
        Some(t) => t.0,
        None => defaults.ttl,
    };
    let with_ptr = raw.with_ptr.unwrap_or(defaults.with_ptr);
    if retry >= refresh {
        return Err(
            in_zone(&zone_name, ZoneField::Timers, ZoneError::RetryNotBelowRefresh { retry, refresh }),
        );
    }
    let email = match resolve_email(raw.base.email, defaults, &zone_name) {
        Ok(m) => m,
        Err(e) => {
            return Err(in_zone(&zone_name, ZoneField::Email, e));
        },
    };
    let (hosts, ptr) = match parse_hosts(raw.hosts, zone_name.as_str(), ttl, with_ptr) {
        Ok(v) => v,
        Err(e) => {
            return Err(in_zone(&zone_name, ZoneField::Hosts, e));
        },
    };
    let mx = match parse_mx(raw.mx, zone_name.as_str(), ttl, mx_prio, &defaults.mx) {
        Ok(v) => v,
        Err(e) => {
            return Err(in_zone(&zone_name, ZoneField::Mx, e));
        },
    };
    let nameserver = match parse_ns(
        raw.base.nameserver,
        zone_name.as_str(),
        ttl,
        &defaults.nameserver,
    ) {
        Ok(v) => v,
        Err(e) => {
            return Err(in_zone(&zone_name, ZoneField::Nameserver, e));
        },
    };
    let cname = match parse_cname(raw.cname, zone_name.as_str(), ttl) {
        Ok(v) => v,
        Err(e) => {
            return Err(in_zone(&zone_name, ZoneField::Cname, e));
        },
    };
    let srv = match parse_srv(raw.srv, zone_name.as_str(), ttl, srv_prio, srv_weight) {
        Ok(v) => v,
        Err(e) => {
            return Err(in_zone(&zone_name, ZoneField::Srv, e));
        },
    };
    Ok(
        (
            ForwardZone {
                base: ZoneBase {
                    serial,
                    name: zone_name,
                    email,
                    expire,
                    nameserver,
                    nrc_ttl,
                    refresh,
                    retry,
                    ttl,
                },
                mx,
                hosts,
                cname,
                srv,
            },
            ptr,
        ),
    )
}

/// The PTR candidates of `pool` that `net` holds, in pool order.
pub open spec fn ptrs_inside(pool: Seq<PtrRecord>, net: IpNet) -> Seq<PtrRecord>
    decreases pool.len(),
{
    if pool.len() == 0 {
        pool
    } else {
        ptrs_inside(pool.drop_last(), net) + if net_contains(net, pool.last().ip) {
            seq![pool.last()]
        } else {
            Seq::empty()
        }
    }
}

/// The PTR candidates of `pool` that `net` does not hold, in pool order.
pub open spec fn ptrs_outside(pool: Seq<PtrRecord>, net: IpNet) -> Seq<PtrRecord>
    decreases pool.len(),
{
    if pool.len() == 0 {
        pool
    } else {
        ptrs_outside(pool.drop_last(), net) + if net_contains(net, pool.last().ip) {
            Seq::empty()
        } else {
            seq![pool.last()]
        }
    }
}

/// What is left of `pool` after the networks `nets[..i]` have claimed
/// their candidates in turn.
pub open spec fn pool_before(pool: Seq<PtrRecord>, nets: Seq<IpNet>, i: int) -> Seq<PtrRecord>
    decreases i,
{
    if i <= 0 {
        pool
    } else {
        ptrs_outside(pool_before(pool, nets, i - 1), nets[i - 1])
    }
}

/// The declared reverse networks, each with its overrides (none for bare
/// networks).
pub open spec fn reverse_items(raw: Option<ReverseValue>) -> Seq<(IpNet, ReverseEntry)> {
    match raw {
        None => Seq::empty(),
        Some(ReverseValue::Net(nets)) => nets.items().map_values(
            |n: IpNet|
                (
                    n,
                    ReverseEntry {
                        base: ZoneBaseEntry {
                            serial: None,
                            email: None,
                            expire: None,
                            nameserver: None,
                            nrc_ttl: None,
                            refresh: None,
                            retry: None,
                            ttl: None,
                        },
                    },
                ),
        ),
        Some(ReverseValue::Entry(v)) => v@,
    }
}

/// Whether every declared network is well formed.
pub open spec fn reverse_wf(raw: Option<ReverseValue>) -> bool {
    match raw {
        None => true,
        Some(ReverseValue::Net(nets)) => forall|i: int|
            0 <= i < nets.items().len() ==> (#[trigger] nets.items()[i]).wf(),
        Some(ReverseValue::Entry(v)) => forall|i: int| 0 <= i < v@.len() ==> (#[trigger] v@[i]).0.wf(),
    }
}

/// Whether one reverse network's own zone resolves.
pub open spec fn reverse_entry_ok(e: (IpNet, ReverseEntry), d: SessionDefaults) -> bool {
    reverse_entry_ok_given(e, d.retry, d.refresh, d.email is Some, d.ttl, d.nameserver@)
}

/// Whether one reverse network's own zone resolves against defaults with
/// the given retry, refresh, email presence, TTL and nameservers.
pub open spec fn reverse_entry_ok_given(
    e: (IpNet, ReverseEntry),
    retry: u32,
    refresh: u32,
    has_email: bool,
    ttl: u32,
    nameservers: Seq<String>,
) -> bool {
    let b = e.1.base;
    &&& b.retry.unwrap_or(retry) < b.refresh.unwrap_or(refresh)
    &&& match b.email {
        Some(m) => email_ok(m@),
        None => has_email,
    }
    &&& ns_ok(b.nameserver, reverse_zone_name(e.0), ttl_or(b.ttl, ttl), nameservers)
}

/// Only the number of default nameservers decides whether a nameserver
/// field resolves.
pub proof fn lemma_ns_ok_count(
    raw: Option<SingleOrVecValue<StringOrTableValue<NameserverEntry>>>,
    zone: Seq<char>,
    ttl: u32,
    a: Seq<String>,
    b: Seq<String>,
)
    requires
        a.len() == b.len(),
    ensures
        ns_ok(raw, zone, ttl, a) == ns_ok(raw, zone, ttl, b),
{
}

/// Whether the networks in `nets` pairwise share no address.
pub open spec fn disjoint_nets(nets: Seq<IpNet>) -> bool {
    forall|i: int, j: int| 0 <= i < j < nets.len() ==> !nets_overlap(#[trigger] nets[i], #[trigger] nets[j])
}

pub open spec fn nets_of(items: Seq<(IpNet, ReverseEntry)>) -> Seq<IpNet> {
    items.map_values(|e: (IpNet, ReverseEntry)| e.0)
}

/// Whether `z` is the reverse zone of `e` that claimed `ptrs`.
pub open spec fn reverse_zone_match(z: ReverseZone, e: (IpNet, ReverseEntry), d: SessionDefaults, ptrs: Seq<PtrRecord>) -> bool {
    let b = e.1.base;
    let ttl = eff_ttl(b.ttl, d);
    &&& z.base.name@ == reverse_zone_name(e.0)
    &&& z.split == reverse_split(e.0)
    &&& z.base.serial == b.serial.unwrap_or(d.serial)
    &&& z.base.expire == b.expire.unwrap_or(d.expire)
    &&& z.base.nrc_ttl == b.nrc_ttl.unwrap_or(d.nrc_ttl)
    &&& z.base.refresh == b.refresh.unwrap_or(d.refresh)
    &&& z.base.retry == b.retry.unwrap_or(d.retry)
    &&& z.base.ttl == ttl
    &&& z.base.email@ == zone_email(b.email, d)
    &&& ns_match(z.base.nameserver@, b.nameserver, reverse_zone_name(e.0), ttl, d.nameserver@)
    &&& z.ptr@ == ptrs
}

/// Splits `pool` into the candidates `net` holds and the rest.
fn claim_ptrs(pool: Vec<PtrRecord>, net: &IpNet) -> (r: (Vec<PtrRecord>, Vec<PtrRecord>))
    requires
        net.wf(),
    ensures
        r.0@ == ptrs_inside(pool@, *net),
        r.1@ == ptrs_outside(pool@, *net),
{
    let ghost all = pool@;
    let mut inside: Vec<PtrRecord> = Vec::new();
    let mut outside: Vec<PtrRecord> = Vec::new();
    assert(all.take(0) =~= Seq::<PtrRecord>::empty());
    for p in it: pool
        invariant
            it.seq() == all,
            net.wf(),
            inside@ == ptrs_inside(all.take(it.index() as int), *net),
            outside@ == ptrs_outside(all.take(it.index() as int), *net),
    {
        let ghost i = it.index() as int;
        assert(all.take(i + 1).drop_last() =~= all.take(i));
        assert(all.take(i + 1).last() == p);
        if contains(net, &p.ip) {
            inside.push(p);
            assert(inside@ =~= ptrs_inside(all.take(i + 1), *net));
            assert(outside@ =~= ptrs_outside(all.take(i + 1), *net));
        } else {
            outside.push(p);
            assert(inside@ =~= ptrs_inside(all.take(i + 1), *net));
            assert(outside@ =~= ptrs_outside(all.take(i + 1), *net));
        }
    }
    assert(all.take(all.len() as int) =~= all);
    (inside, outside)
}

/// The declared reverse networks with their overrides.
fn reverse_entries(raw: Option<ReverseValue>) -> (r: Vec<(IpNet, ReverseEntry)>)
    ensures
        r@ == reverse_items(raw),
{
    match raw {
        None => Vec::new(),
        Some(ReverseValue::Entry(v)) => v,
        Some(ReverseValue::Net(nets)) => {
            let ghost ns = nets.items();
            let ghost gnets = nets;
            let list = nets.to_vec();
            let mut out: Vec<(IpNet, ReverseEntry)> = Vec::new();
            for n in it: list
                invariant
                    it.seq() == ns,
                    out@ == reverse_items(Some(ReverseValue::Net(gnets))).take(it.index() as int),
                    ns == gnets.items(),
            {
                let ghost i = it.index() as int;
                out.push((n, ReverseEntry { base: ZoneBaseEntry::empty() }));
                assert(out@ =~= reverse_items(Some(ReverseValue::Net(gnets))).take(i + 1));
            }
            assert(out@ =~= reverse_items(Some(ReverseValue::Net(gnets))));
            out
        },
    }
}

/// Resolves the declared reverse networks against the session defaults.
/// A network that shares addresses with an earlier one of its family is an
/// error; any other error names the reverse zone and the field it arose in. Each network's zone takes, in pool order, the PTR candidates it
/// holds (none of which another network holds); candidates no network
/// holds are dropped.
pub fn parse_reverse(raw: Option<ReverseValue>, defaults: &SessionDefaults, ptrs: Vec<PtrRecord>) -> (r: Result<Vec<ReverseZone>, ZoneError>)
    requires
        reverse_wf(raw),
    ensures
        r is Ok <==> reverse_ok(reverse_items(raw), *defaults),
        r matches Ok(zs) ==> reverse_match(zs@, reverse_items(raw), *defaults, ptrs@),
        r matches Err(e) ==> e matches ZoneError::OverlappingNetworks { .. } || e matches ZoneError::InZone { .. },
        (forall|i: int|
            0 <= i < reverse_items(raw).len() ==> reverse_entry_ok(
                #[trigger] reverse_items(raw)[i],
                *defaults,
            )) && r is Err ==> r matches Err(ZoneError::OverlappingNetworks { .. }),
        r matches Ok(zs) ==> forall|i: int|
            0 <= i < zs@.len() ==> (#[trigger] zs@[i]).ptr@ == ptrs_inside(
                ptrs@,
                reverse_items(raw)[i].0,
            ),
{
    let entries = reverse_entries(raw);
    let ghost items = entries@;
    let ghost nets = nets_of(items);
    let ghost orig = ptrs@;
    assert forall|i: int| 0 <= i < items.len() implies (#[trigger] items[i]).0.wf() by {
        match raw {
            Some(ReverseValue::Net(n)) => {
                assert(items[i].0 == n.items()[i]);
            },
            _ => {},
        }
    }
    let mut accepted: Vec<IpNet> = Vec::new();
    let mut pool = ptrs;
    let mut zones: Vec<ReverseZone> = Vec::new();
    assert(nets.take(0) =~= Seq::<IpNet>::empty());
    for entry in it: entries
        invariant
            it.seq() == items,
            items == reverse_items(raw),
            nets == nets_of(items),
            forall|i: int| 0 <= i < items.len() ==> (#[trigger] items[i]).0.wf(),
            accepted@ == nets.take(it.index() as int),
            disjoint_nets(nets.take(it.index() as int)),
            forall|k: int| 0 <= k < it.index() ==> reverse_entry_ok(#[trigger] items[k], *defaults),
            zones@.len() == it.index(),
            forall|k: int|
                0 <= k < it.index() ==> reverse_zone_match(
                    #[trigger] zones@[k],
                    items[k],
                    *defaults,
                    ptrs_inside(pool_before(orig, nets, k), nets[k]),
                ),
            pool@ == pool_before(orig, nets, it.index() as int),
    {
        let ghost i = it.index() as int;
        let (net, e) = entry;
        assert(nets[i] == net);
        let mut a: usize = 0;
        while a < accepted.len()
            invariant
                a <= accepted.len(),
                accepted@ == nets.take(i),
                nets == nets_of(items),
                items == reverse_items(raw),
                0 <= i < items.len(),
                nets[i] == net,
                forall|k: int| 0 <= k < items.len() ==> (#[trigger] items[k]).0.wf(),
                forall|b: int| 0 <= b < a ==> !nets_overlap(#[trigger] nets[b], net),
            decreases accepted.len() - a,
        {
            assert(items[a as int].0.wf());
            assert(nets[i].wf());
            if overlaps(&accepted[a], &net) {
                assert(!disjoint_nets(nets)) by {
                    assert(nets_overlap(nets[a as int], nets[i]));
                }
                return Err(ZoneError::OverlappingNetworks { network: net, other: accepted[a] });
            }
            a = a + 1;
        }
        accepted.push(net);
        assert(accepted@ =~= nets.take(i + 1));
        assert(disjoint_nets(nets.take(i + 1))) by {
            assert forall|x: int, y: int| 0 <= x < y < nets.take(i + 1).len() implies !nets_overlap(
                #[trigger] nets.take(i + 1)[x],
                #[trigger] nets.take(i + 1)[y],
            ) by {
                if y == i {
                    assert(!nets_overlap(nets[x], net));
                } else {
                    assert(nets.take(i + 1)[x] == nets.take(i)[x]);
                    assert(nets.take(i + 1)[y] == nets.take(i)[y]);
                }
            }
        }
        assert(net.wf());
        let (name, split) = create_reverse_zone_name(&net);
        let serial = e.base.serial.unwrap_or(defaults.serial);
        let expire = e.base.expire.unwrap_or(defaults.expire);
        let nrc_ttl = e.base.nrc_ttl.unwrap_or(defaults.nrc_ttl);
        let refresh = e.base.refresh.unwrap_or(defaults.refresh);
        let retry = e.base.retry.unwrap_or(defaults.retry);
        let ttl = match e.base.ttl {
            Some(t) => t.0,
            None => defaults.ttl,
        };
        if retry >= refresh {
            assert(!reverse_entry_ok(items[i], *defaults));
            return Err(
                in_zone(&name, ZoneField::Timers, ZoneError::RetryNotBelowRefresh { retry, refresh }),
            );
        }
        let email = match resolve_email(e.base.email, defaults, &name) {
            Ok(m) => m,
            Err(err) => {
                assert(!reverse_entry_ok(items[i], *defaults));
                return Err(in_zone(&name, ZoneField::Email, err));
            },
        };
        let nameserver = match parse_ns(e.base.nameserver, name.as_str(), ttl, &defaults.nameserver) {
            Ok(v) => v,
            Err(err) => {
                assert(!reverse_entry_ok(items[i], *defaults));
                return Err(in_zone(&name, ZoneField::Nameserver, err));
            },
        };
        let (claimed, rest) = claim_ptrs(pool, &net);
        pool = rest;
        let z = ReverseZone {
            base: ZoneBase {
                serial,
                name,
                email,
                expire,
                nameserver,
                nrc_ttl,
                refresh,
                retry,
                ttl,
            },
            ptr: claimed,
            split,
        };
        assert(reverse_zone_match(z, items[i], *defaults, ptrs_inside(pool_before(orig, nets, i), nets[i])));
        zones.push(z);
        assert(pool@ == pool_before(orig, nets, i + 1));
    }
    assert(nets.take(items.len() as int) =~= nets);
    assert forall|k: int| 0 <= k < zones@.len() implies (#[trigger] zones@[k]).ptr@ == ptrs_inside(
        orig,
        items[k].0,
    ) by {
        assert(reverse_zone_match(zones@[k], items[k], *defaults, ptrs_inside(pool_before(orig, nets, k), nets[k])));
        assert forall|q: int| 0 <= q < nets.len() implies (#[trigger] nets[q]).wf() by {
            assert(items[q].0.wf());
        }
        lemma_claims_by_containment(orig, nets, k);
    }
    Ok(zones)
}

/// Whether the declared reverse networks resolve: pairwise disjoint, and
/// each with a zone that resolves.
pub open spec fn reverse_ok(items: Seq<(IpNet, ReverseEntry)>, d: SessionDefaults) -> bool {
    &&& disjoint_nets(nets_of(items))
    &&& forall|i: int| 0 <= i < items.len() ==> reverse_entry_ok(#[trigger] items[i], d)
}

/// Whether `zs` are the reverse zones of the declared networks `items`,
/// each holding the candidates of `pool` it claimed in turn.
pub open spec fn reverse_match(zs: Seq<ReverseZone>, items: Seq<(IpNet, ReverseEntry)>, d: SessionDefaults, pool: Seq<PtrRecord>) -> bool {
    &&& zs.len() == items.len()
    &&& forall|i: int|
        0 <= i < items.len() ==> reverse_zone_match(
            #[trigger] zs[i],
            items[i],
            d,
            ptrs_inside(pool_before(pool, nets_of(items), i), items[i].0),
        )
}

/// Every resolved zone name ends with a dot; completing a zone name or a
/// trimmed host name that already ends with a dot changes nothing.
pub proof fn lemma_fqdn_completion(name: Seq<char>, zone: Seq<char>)
    ensures
        ends_dot(zone_fqdn(name)),
        ends_dot(name) ==> zone_fqdn(name) == name,
        ends_dot(name) && is_trimmed(name) ==> host_fqdn(name, zone) == Some(name),
{
    if is_trimmed(name) {
        lemma_trim_of_trimmed(name);
    }
}

/// Every reverse zone name ends with a dot.
pub proof fn lemma_reverse_name_qualified(net: IpNet)
    ensures
        ends_dot(reverse_zone_name(net)),
{
    reveal_strlit(".in-addr.arpa.");
    reveal_strlit(".ip6.arpa.");
}

/// No PTR candidate of a zone's hosts carries a wildcard name, whatever
/// the PTR flags say.
pub proof fn lemma_wildcard_no_ptr(hosts: Seq<(String, HostValue)>, zone: Seq<char>, ttl: u32, with_ptr: bool)
    ensures
        forall|k: int|
            0 <= k < hosts_ptrs(hosts, zone, ttl, with_ptr).len() ==> !is_wildcard(
                (#[trigger] hosts_ptrs(hosts, zone, ttl, with_ptr)[k]).0,
            ),
    decreases hosts.len(),
{
    if hosts.len() > 0 {
        lemma_wildcard_no_ptr(hosts.drop_last(), zone, ttl, with_ptr);
        let prev = hosts_ptrs(hosts.drop_last(), zone, ttl, with_ptr);
        let last = host_ptrs_of(hosts.last(), zone, ttl, with_ptr);
        assert(hosts_ptrs(hosts, zone, ttl, with_ptr) == prev + last);
        assert forall|k: int| 0 <= k < last.len() implies !is_wildcard(#[trigger] last[k].0) by {}
        assert forall|k: int| 0 <= k < (prev + last).len() implies !is_wildcard(
            (#[trigger] (prev + last)[k]).0,
        ) by {
            if k < prev.len() {
                assert((prev + last)[k] == prev[k]);
            } else {
                assert((prev + last)[k] == last[k - prev.len()]);
            }
        }
    }
}

/// The first rule that the SRV owner name `name` breaks, if any.
pub fn srv_name_fault(name: &str) -> (r: Option<SrvFault>)
    ensures
        r == srv_fault(name@),
{
    srv_check(&chars_of(name))
}

/// Claiming by a network that shares no address with `n` leaves what `n`
/// holds unchanged.
pub proof fn lemma_inside_after_disjoint_claim(pool: Seq<PtrRecord>, m: IpNet, n: IpNet)
    requires
        m.wf(),
        n.wf(),
        !nets_overlap(m, n),
    ensures
        ptrs_inside(ptrs_outside(pool, m), n) == ptrs_inside(pool, n),
    decreases pool.len(),
{
    if pool.len() > 0 {
        let rest = pool.drop_last();
        let l = pool.last();
        lemma_inside_after_disjoint_claim(rest, m, n);
        let o = ptrs_outside(rest, m);
        if net_contains(m, l.ip) {
            if net_contains(n, l.ip) {
                lemma_common_address_overlaps(m, n, l.ip);
            }
            assert(ptrs_outside(pool, m) =~= o);
        } else {
            assert(ptrs_outside(pool, m) =~= o.push(l));
            assert(o.push(l).drop_last() =~= o);
        }
    }
}

/// When the networks are pairwise disjoint, each network claims exactly
/// the candidates of the whole pool that it holds, whatever the earlier
/// networks claimed.
pub proof fn lemma_claims_by_containment(pool: Seq<PtrRecord>, nets: Seq<IpNet>, i: int)
    requires
        disjoint_nets(nets),
        forall|k: int| 0 <= k < nets.len() ==> (#[trigger] nets[k]).wf(),
        0 <= i < nets.len(),
    ensures
        ptrs_inside(pool_before(pool, nets, i), nets[i]) == ptrs_inside(pool, nets[i]),
{
    lemma_claims_upto(pool, nets, i, i);
}

proof fn lemma_claims_upto(pool: Seq<PtrRecord>, nets: Seq<IpNet>, i: int, j: int)
    requires
        disjoint_nets(nets),
        forall|k: int| 0 <= k < nets.len() ==> (#[trigger] nets[k]).wf(),
        0 <= j <= i < nets.len(),
    ensures
        ptrs_inside(pool_before(pool, nets, j), nets[i]) == ptrs_inside(pool, nets[i]),
    decreases j,
{
    if j > 0 {
        lemma_claims_upto(pool, nets, i, j - 1);
        assert(!nets_overlap(nets[j - 1], nets[i]));
        assert(nets[j - 1].wf() && nets[i].wf());
        lemma_inside_after_disjoint_claim(pool_before(pool, nets, j - 1), nets[j - 1], nets[i]);
    }
}

/// A host's PTR candidates all carry the host's own name, one per address
/// at most: its aliases never add a candidate.
pub proof fn lemma_ptrs_from_host_name_only(h: (String, HostValue), zone: Seq<char>, ttl: u32, with_ptr: bool)
    ensures
        host_ptrs_of(h, zone, ttl, with_ptr).len() <= host_parts(h.1, ttl, with_ptr).0.len(),
        forall|k: int|
            0 <= k < host_ptrs_of(h, zone, ttl, with_ptr).len() ==> (#[trigger] host_ptrs_of(
                h,
                zone,
                ttl,
                with_ptr,
            )[k]).0 == host_fqdn(h.0@, zone)->0,
{
}

/// Completing a host name twice changes nothing: in a trimmed, fully
/// qualified zone, what completion returns ends with a dot and comes back
/// unchanged from a second completion, in any zone.
pub proof fn lemma_host_fqdn_idempotent(name: Seq<char>, zone: Seq<char>, other: Seq<char>)
    requires
        ends_dot(zone),
        is_trimmed(zone),
    ensures
        host_fqdn(name, zone) is Some,
        ends_dot(host_fqdn(name, zone)->0),
        host_fqdn(host_fqdn(name, zone)->0, other) == host_fqdn(name, zone),
{
    let h = trim(name);
    lemma_trim_is_trimmed(name);
    let r = host_fqdn(name, zone)->0;
    if !ends_dot(h) && h != seq!['@'] {
        assert(r == h + seq!['.'] + zone);
        assert(r.last() == zone.last());
        if h.len() > 0 {
            assert(r[0] == h[0]);
        } else {
            assert(r[0] == '.');
        }
    }
    assert(is_trimmed(r));
    lemma_trim_of_trimmed(r);
}

} // verus!
