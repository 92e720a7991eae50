use chrono::{Datelike, Utc};
use zonefile_rs::error::{TtlFault, ZoneError, ZoneField};
use zonefile_rs::network::{IpAddress, IpNet};
use zonefile_rs::parser::{
    extract_location, resolve, Content, Email, HostEntry, HostValue, MxEntry, RawDefaults, ReverseEntry,
    ReverseValue, SessionDefaults, SingleOrVecValue, SrvEntry, SrvMap, StringOrTableValue, Zone,
    ZoneBaseEntry, ZoneWithoutName, Zones, TTL,
};
use zonefile_rs::order::{order_hosts, order_ptrs};
use zonefile_rs::record::{ARecord, PtrRecord};
use zonefile_rs::serial::{calc_serial, next_serial};
use zonefile_rs::transform::{parse_forward, parse_hosts, parse_mx, parse_ns, parse_reverse};

fn v4(a: u8, b: u8, c: u8, d: u8) -> IpAddress {
    IpAddress::V4(u32::from_be_bytes([a, b, c, d]))
}

fn net4(a: u8, b: u8, c: u8, d: u8, prefix: u8) -> IpNet {
    IpNet::v4(u32::from_be_bytes([a, b, c, d]), prefix).unwrap()
}

fn defaults() -> RawDefaults {
    let mut d = RawDefaults::default();
    d.email = Some(Email::new("hostmaster@example.com").unwrap());
    d.nameserver = Some(SingleOrVecValue::Single("ns1.example.com.".to_string()));
    d
}

fn zone(name: &str, hosts: Vec<(String, HostValue)>) -> Zone {
    ZoneWithoutName {
        base: ZoneBaseEntry::empty(),
        mx: None,
        mx_prio: None,
        srv_prio: None,
        srv_weight: None,
        with_ptr: None,
        hosts: Some(hosts),
        cname: None,
        srv: None,
    }
    .with_name(name.to_string())
}

fn host(name: &str, ip: IpAddress) -> (String, HostValue) {
    (name.to_string(), HostValue::Ip(SingleOrVecValue::Single(ip)))
}

fn content(zones: Vec<Zone>, reverse: Option<ReverseValue>) -> Content {
    Content { defaults: defaults(), reverse, zone: Some(Zones::Array(zones)) }
}

#[test]
fn zone_names_are_qualified() {
    let c = content(vec![zone("example.com", vec![host("www", v4(10, 0, 0, 1))])], None);
    let (fwd, rev) = resolve(c, 2025010100).unwrap();
    assert_eq!(fwd.len(), 1);
    assert_eq!(fwd[0].base.name, "example.com.");
    assert_eq!(fwd[0].base.serial, 2025010100);
    assert_eq!(fwd[0].base.email, "hostmaster.example.com.");
    assert_eq!(fwd[0].hosts[0].name, "www.example.com.");
    assert!(rev.is_empty());
    let c = content(vec![zone("example.org.", vec![])], None);
    let (fwd, _) = resolve(c, 1).unwrap();
    assert_eq!(fwd[0].base.name, "example.org.");
}

#[test]
fn keyed_zones_take_their_key_as_name() {
    let z = ZoneWithoutName {
        base: ZoneBaseEntry::empty(),
        mx: None,
        mx_prio: None,
        srv_prio: None,
        srv_weight: None,
        with_ptr: None,
        hosts: None,
        cname: None,
        srv: None,
    };
    let c = Content {
        defaults: defaults(),
        reverse: None,
        zone: Some(Zones::Keyed(vec![("lan".to_string(), z)])),
    };
    let (fwd, _) = resolve(c, 7).unwrap();
    assert_eq!(fwd[0].base.name, "lan.");
    assert_eq!(fwd[0].base.nameserver[0].name, "ns1.example.com.");
}

#[test]
fn overlapping_reverse_networks_fail() {
    let nets = vec![net4(10, 0, 0, 0, 8), net4(10, 1, 0, 0, 16)];
    let c = content(vec![], Some(ReverseValue::Net(SingleOrVecValue::Multiple(nets))));
    match resolve(c, 1) {
        Err(ZoneError::OverlappingNetworks { .. }) => {}
        other => panic!("unexpected result {:?}", other),
    }
}

#[test]
fn disjoint_reverse_networks_succeed() {
    let nets = vec![
        net4(10, 0, 0, 0, 16),
        net4(10, 1, 0, 0, 16),
        IpNet::v6(0xfd00 << 112, 64).unwrap(),
        IpNet::v6(0xfd01 << 112, 64).unwrap(),
    ];
    let c = content(vec![], Some(ReverseValue::Net(SingleOrVecValue::Multiple(nets))));
    let (_, rev) = resolve(c, 1).unwrap();
    assert_eq!(rev.len(), 4);
    assert_eq!(rev[0].base.name, "0.10.in-addr.arpa.");
    assert_eq!(rev[1].base.name, "1.10.in-addr.arpa.");
    assert_eq!(rev[2].base.name, "0.0.0.0.0.0.0.0.0.0.0.0.0.0.d.f.ip6.arpa.");
    assert_eq!(rev[2].split, 16);
}

#[test]
fn same_address_in_two_zones_is_a_duplicate_ptr() {
    let a = zone("a.example.", vec![host("www", v4(10, 0, 0, 1))]);
    let b = zone("b.example.", vec![host("web", v4(10, 0, 0, 1))]);
    match resolve(content(vec![a, b], None), 1) {
        Err(ZoneError::DuplicatePtr { ip, name }) => {
            assert_eq!(ip, v4(10, 0, 0, 1));
            assert_eq!(name, "web.b.example.");
        }
        other => panic!("unexpected result {:?}", other),
    }
}

#[test]
fn alias_at_host_address_is_no_duplicate() {
    let entry = HostEntry {
        ip: SingleOrVecValue::Single(v4(10, 0, 0, 1)),
        alias: Some(SingleOrVecValue::Multiple(vec!["alias".to_string(), "other.org.".to_string()])),
        ttl: None,
        with_ptr: None,
    };
    let z = zone("example.com.", vec![("www".to_string(), HostValue::Entry(entry))]);
    let nets = vec![net4(10, 0, 0, 0, 24)];
    let c = content(vec![z], Some(ReverseValue::Net(SingleOrVecValue::Multiple(nets))));
    let (fwd, rev) = resolve(c, 1).unwrap();
    let names: Vec<&str> = fwd[0].hosts.iter().map(|a| a.name.as_str()).collect();
    assert_eq!(names, vec!["www.example.com.", "alias.example.com.", "other.org."]);
    assert_eq!(rev[0].ptr.len(), 1);
    assert_eq!(rev[0].ptr[0].name, "www.example.com.");
}

#[test]
fn retry_not_below_refresh_fails_at_defaults() {
    let mut d = defaults();
    d.retry = d.refresh;
    match SessionDefaults::from_raw(d, 1) {
        Err(ZoneError::InDefaults { field: ZoneField::Timers, cause }) => match *cause {
            ZoneError::RetryNotBelowRefresh { retry, refresh } => assert_eq!(retry, refresh),
            other => panic!("unexpected cause {:?}", other),
        },
        other => panic!("unexpected result {:?}", other),
    }
}

#[test]
fn retry_not_below_refresh_fails_at_zone() {
    let d = SessionDefaults::from_raw(defaults(), 1).unwrap();
    let mut z = zone("example.com.", vec![]);
    z.base.retry = Some(9000);
    z.base.refresh = Some(8000);
    match parse_forward(z, &d) {
        Err(ZoneError::InZone { zone, field: ZoneField::Timers, cause }) => {
            assert_eq!(zone, "example.com.");
            assert_eq!(*cause, ZoneError::RetryNotBelowRefresh { retry: 9000, refresh: 8000 });
        }
        other => panic!("unexpected result {:?}", other),
    }
    let mut entry = ReverseEntry { base: ZoneBaseEntry::empty() };
    entry.base.retry = Some(100000);
    let raw = Some(ReverseValue::Entry(vec![(net4(10, 0, 0, 0, 8), entry)]));
    match parse_reverse(raw, &d, vec![]) {
        Err(ZoneError::InZone { zone, field: ZoneField::Timers, cause }) => {
            assert_eq!(zone, "10.in-addr.arpa.");
            assert!(matches!(*cause, ZoneError::RetryNotBelowRefresh { .. }));
        }
        other => panic!("unexpected result {:?}", other),
    }
}

#[test]
fn wildcard_host_gives_no_ptr() {
    let (a, p) = parse_hosts(
        Some(vec![host("*", v4(10, 0, 0, 9)), host("www", v4(10, 0, 0, 8))]),
        "example.com.",
        300,
        true,
    )
    .unwrap();
    assert_eq!(a.len(), 2);
    assert_eq!(a[0].name, "*.example.com.");
    assert_eq!(p.len(), 1);
    assert_eq!(p[0].name, "www.example.com.");
}

#[test]
fn host_overrides_apply() {
    let entry = HostEntry {
        ip: SingleOrVecValue::Multiple(vec![v4(10, 0, 0, 1), IpAddress::V6(1)]),
        alias: None,
        ttl: Some(TTL(60)),
        with_ptr: Some(false),
    };
    let (a, p) =
        parse_hosts(Some(vec![("@".to_string(), HostValue::Entry(entry))]), "example.com.", 300, true)
            .unwrap();
    assert_eq!(a.len(), 2);
    assert_eq!(a[1].ip, IpAddress::V6(1));
    assert_eq!(a[0].ttl, 60);
    assert_eq!(a[0].name, "example.com.");
    assert!(p.is_empty());
}

#[test]
fn reverse_zones_claim_their_ptrs() {
    let d = SessionDefaults::from_raw(defaults(), 5).unwrap();
    let ptr = |name: &str, ip: IpAddress| PtrRecord { name: name.to_string(), ip, ttl: 300 };
    let pool = vec![
        ptr("a.example.", v4(10, 0, 1, 1)),
        ptr("b.example.", v4(192, 168, 0, 1)),
        ptr("c.example.", v4(10, 0, 5, 1)),
        ptr("d.example.", v4(10, 0, 2, 1)),
    ];
    let raw = Some(ReverseValue::Net(SingleOrVecValue::Multiple(vec![net4(10, 0, 1, 0, 24), net4(10, 0, 4, 0, 22)])));
    let rev = parse_reverse(raw, &d, pool).unwrap();
    assert_eq!(rev[0].base.name, "1.0.10.in-addr.arpa.");
    assert_eq!(rev[0].ptr.len(), 1);
    assert_eq!(rev[0].ptr[0].name, "a.example.");
    assert_eq!(rev[1].base.name, "0.10.in-addr.arpa.");
    assert_eq!(rev[1].ptr.len(), 1);
    assert_eq!(rev[1].ptr[0].name, "c.example.");
    assert_eq!(rev[0].base.serial, 5);
    assert_eq!(rev[0].base.nameserver[0].name, "ns1.example.com.");
}

#[test]
fn missing_email_and_nameserver() {
    let mut raw = RawDefaults::default();
    raw.nameserver = Some(SingleOrVecValue::Single("ns1.example.com.".to_string()));
    let d = SessionDefaults::from_raw(raw, 1).unwrap();
    match parse_forward(zone("example.com.", vec![]), &d) {
        Err(ZoneError::InZone { zone, field: ZoneField::Email, cause }) => {
            assert_eq!(zone, "example.com.");
            assert!(matches!(*cause, ZoneError::MissingEmail { .. }));
        }
        other => panic!("unexpected result {:?}", other),
    }
    let d = SessionDefaults::from_raw(RawDefaults::default(), 1).unwrap();
    match parse_ns(None, "example.com.", 300, &d.nameserver) {
        Err(ZoneError::MissingNameserver { zone }) => assert_eq!(zone, "example.com."),
        other => panic!("unexpected result {:?}", other),
    }
    assert!(parse_ns(Some(SingleOrVecValue::Multiple(vec![])), "example.com.", 300, &vec![]).is_err());
}

#[test]
fn mx_records_from_zone_and_defaults() {
    let mut raw = defaults();
    raw.mx = Some(SingleOrVecValue::Single(StringOrTableValue::Entry("mail.example.com.".to_string())));
    let d = SessionDefaults::from_raw(raw, 1).unwrap();
    let own = parse_mx(
        Some(SingleOrVecValue::Multiple(vec![
            StringOrTableValue::Entry("mx1".to_string()),
            StringOrTableValue::Table(MxEntry { name: "mx2".to_string(), prio: Some(20), ttl: Some(TTL(30)) }),
        ])),
        "example.com.",
        300,
        10,
        &d.mx,
    )
    .unwrap();
    assert_eq!(own[0].name, "mx1.example.com.");
    assert_eq!(own[0].prio, 10);
    assert_eq!((own[1].prio, own[1].ttl), (20, 30));
    let inherited = parse_mx(None, "example.com.", 300, 10, &d.mx).unwrap();
    assert_eq!(inherited[0].name, "mail.example.com.");
    assert!(parse_mx(
        Some(SingleOrVecValue::Single(StringOrTableValue::Entry("bad name".to_string()))),
        "example.com.",
        300,
        10,
        &d.mx
    )
    .is_err());
}

#[test]
fn srv_and_cname_records() {
    let d = SessionDefaults::from_raw(defaults(), 1).unwrap();
    let mut z = zone("example.com.", vec![]);
    z.srv = Some(SrvMap(vec![(
        "_mqtt._tcp".to_string(),
        SrvEntry { target: "broker".to_string(), port: 1883, ttl: None, prio: None, weight: Some(5) },
    )]));
    z.cname = Some(vec![(
        "thermostat".to_string(),
        StringOrTableValue::Entry("device.other.org.".to_string()),
    )]);
    let (f, _) = parse_forward(z, &d).unwrap();
    assert_eq!(f.srv[0].name, "_mqtt._tcp.example.com.");
    assert_eq!(f.srv[0].target, "broker.example.com.");
    assert_eq!((f.srv[0].port, f.srv[0].weight, f.srv[0].prio), (1883, 5, 10));
    assert_eq!(f.cname[0].name, "thermostat.example.com.");
    assert_eq!(f.cname[0].target, "device.other.org.");
}

#[test]
fn ttl_bounds() {
    assert_eq!(TTL::from_u64(1).unwrap(), TTL(1));
    assert_eq!(TTL::from_u64(2147483647).unwrap(), TTL(2147483647));
    assert_eq!(TTL::from_u64(0), Err(ZoneError::InvalidTtl { fault: TtlFault::Zero }));
    assert_eq!(TTL::from_u64(2147483648), Err(ZoneError::InvalidTtl { fault: TtlFault::TooLarge }));
    assert_eq!(TTL::from_i64(-1), Err(ZoneError::InvalidTtl { fault: TtlFault::Negative }));
    assert_eq!(TTL::from_i64(3600).unwrap(), TTL(3600));
}

#[test]
fn test_calc_serial_first_time() {
    let serial = calc_serial(0);
    // Serial should be at least YYYYMMDD00. Only this lower bound is
    // checked: an upper bound tied to a fixed year stops holding once that
    // year is over.
    assert!(serial >= 2025000000);
}

#[test]
fn test_calc_serial_increment() {
    let old = 2020012301;
    let new = calc_serial(old);
    assert!(new > old);
    assert!(new >= 2025000000);
}

#[test]
fn test_calc_serial_date_based() {
    let old = 2020010199;
    let new = calc_serial(old);
    assert!(new >= 2025000000);
    assert!(new % 100 == 0);
}

#[test]
fn test_calc_serial_same_day_increment() {
    let now = Utc::now();
    let year = now.year() as u32;
    let month = now.month();
    let day = now.day();
    let today_base = year * 1_000_000 + month * 10_000 + day * 100;

    let serial1 = calc_serial(today_base + 5);
    assert_eq!(serial1, today_base + 6);

    let serial2 = calc_serial(serial1);
    assert_eq!(serial2, today_base + 7);
}

#[test]
fn next_serial_follows_the_date() {
    assert_eq!(next_serial(0, 2025, 1, 23), 2025012300);
    assert_eq!(next_serial(2025012300, 2025, 1, 23), 2025012301);
    assert_eq!(next_serial(2025012399, 2025, 1, 24), 2025012400);
    assert_eq!(next_serial(4000000000, 2025, 1, 24), 4000000001);
    assert_eq!(next_serial(5, 5000, 1, 1), 6);
}

#[test]
fn hosts_are_ordered_apex_first_then_name_then_address() {
    let rec = |name: &str, ip: IpAddress| ARecord { name: name.to_string(), ip, ttl: 300 };
    let hosts = vec![
        rec("www.example.com.", IpAddress::V6(1)),
        rec("b.example.com.", v4(10, 0, 0, 2)),
        rec("www.example.com.", v4(10, 0, 0, 9)),
        rec("example.com.", v4(10, 0, 0, 1)),
        rec("a.example.com.", v4(10, 0, 0, 3)),
    ];
    let ordered = order_hosts("example.com.", hosts);
    let names: Vec<(&str, IpAddress)> = ordered.iter().map(|r| (r.name.as_str(), r.ip)).collect();
    assert_eq!(
        names,
        vec![
            ("example.com.", v4(10, 0, 0, 1)),
            ("a.example.com.", v4(10, 0, 0, 3)),
            ("b.example.com.", v4(10, 0, 0, 2)),
            ("www.example.com.", v4(10, 0, 0, 9)),
            ("www.example.com.", IpAddress::V6(1)),
        ]
    );
    let ptr = |name: &str, ip: IpAddress| PtrRecord { name: name.to_string(), ip, ttl: 300 };
    let ordered = order_ptrs(vec![ptr("c.", IpAddress::V6(0)), ptr("b.", v4(10, 0, 0, 2)), ptr("a.", v4(9, 0, 0, 1))]);
    let names: Vec<&str> = ordered.iter().map(|p| p.name.as_str()).collect();
    assert_eq!(names, vec!["a.", "b.", "c."]);
}

#[test]
fn decoder_locations() {
    assert_eq!(extract_location("invalid type at line 3 column 5"), "at line 3 column 5");
    assert_eq!(
        extract_location("bad value at line 2 column 1 at line 9 column 4"),
        "at line 2 column 1"
    );
    assert_eq!(extract_location("oops at line 7 column 2\nmore text"), "at line 7 column 2");
    assert_eq!(extract_location("no position here"), "");
    let long = format!("at line 1 {}", "x".repeat(80));
    assert_eq!(extract_location(&long).chars().count(), 50);
}

#[test]
fn calc_serial_first_run_is_todays_seed() {
    let now = Utc::now();
    let today_base = now.year() as u32 * 1_000_000 + now.month() * 10_000 + now.day() * 100;
    let serial = calc_serial(0);
    assert!(serial >= today_base);
    assert_eq!(serial % 100, 0);
}

#[test]
fn zone_errors_name_zone_and_field() {
    let d = SessionDefaults::from_raw(defaults(), 1).unwrap();
    let mut z = zone("example.com", vec![]);
    z.mx = Some(SingleOrVecValue::Single(StringOrTableValue::Entry("bad name".to_string())));
    match parse_forward(z, &d) {
        Err(ZoneError::InZone { zone, field: ZoneField::Mx, cause }) => {
            assert_eq!(zone, "example.com.");
            assert!(matches!(*cause, ZoneError::InvalidName { .. }));
        }
        other => panic!("unexpected result {:?}", other),
    }
    let mut raw = defaults();
    raw.nameserver = Some(SingleOrVecValue::Single("ns1".to_string()));
    match SessionDefaults::from_raw(raw, 1) {
        Err(ZoneError::InDefaults { field: ZoneField::Nameserver, cause }) => {
            assert!(matches!(*cause, ZoneError::InvalidName { .. }));
        }
        other => panic!("unexpected result {:?}", other),
    }
}
