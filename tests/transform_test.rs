use ipnetwork::{Ipv4Network, Ipv6Network};
use zonefile_rs::error::{SrvFault, ZoneError};
use zonefile_rs::network::{IpAddress, IpNet};
use zonefile_rs::transform::{
    create_reverse_zone_name, ip_name, parse_email, parse_host_str, parse_srv_name,
    srv_name_fault,
};

fn segments(s: [u16; 8]) -> u128 {
    s.iter().fold(0u128, |acc, x| (acc << 16) | *x as u128)
}

fn v4_net(s: &str) -> IpNet {
    let n = s.parse::<Ipv4Network>().unwrap();
    IpNet::v4(u32::from(n.ip()), n.prefix()).unwrap()
}

fn v6_net(s: &str) -> IpNet {
    let n = s.parse::<Ipv6Network>().unwrap();
    IpNet::v6(u128::from(n.ip()), n.prefix()).unwrap()
}

#[test]
fn test_parse_host_str_fqdn() {
    let result = parse_host_str("example.com.", "zone.com.").unwrap();
    assert_eq!(result, "example.com.");
}

#[test]
fn test_parse_host_str_relative() {
    let result = parse_host_str("host", "example.com.").unwrap();
    assert_eq!(result, "host.example.com.");
}

#[test]
fn test_parse_host_str_apex() {
    let result = parse_host_str("@", "example.com.").unwrap();
    assert_eq!(result, "example.com.");
}

#[test]
fn test_parse_host_str_with_trim() {
    let result = parse_host_str("  host  ", "example.com.").unwrap();
    assert_eq!(result, "host.example.com.");
}

#[test]
fn test_parse_host_str_no_zone() {
    let result = parse_host_str("host", "");
    assert!(result.is_err());
}

#[test]
fn test_parse_srv_name_valid() {
    let result = parse_srv_name("_http._tcp", "example.com.").unwrap();
    assert_eq!(result, "_http._tcp.example.com.");
}

#[test]
fn test_parse_srv_name_fqdn() {
    let result = parse_srv_name("_http._tcp.example.com.", "zone.com.").unwrap();
    assert_eq!(result, "_http._tcp.example.com.");
}

#[test]
fn test_parse_srv_name_missing_underscore_service() {
    let result = parse_srv_name("http._tcp", "example.com.");
    assert!(result.is_err());
}

#[test]
fn test_parse_srv_name_missing_underscore_protocol() {
    let result = parse_srv_name("_http.tcp", "example.com.");
    assert!(result.is_err());
}

#[test]
fn test_parse_srv_name_too_short() {
    let result = parse_srv_name("_http", "example.com.");
    assert!(result.is_err());
}

#[test]
fn test_parse_email_valid() {
    let result = parse_email("admin@example.com").unwrap();
    assert_eq!(result, "admin.example.com.");
}

#[test]
fn test_parse_email_with_dot() {
    let result = parse_email("john.doe@example.com").unwrap();
    assert_eq!(result, "john\\.doe.example.com.");
}

#[test]
fn test_parse_email_already_fqdn() {
    let result = parse_email("admin@example.com.").unwrap();
    assert_eq!(result, "admin.example.com.");
}

#[test]
fn test_parse_email_no_at() {
    let result = parse_email("admin.example.com");
    assert!(result.is_err());
}

#[test]
fn test_create_reverse_zone_name_ipv4_24() {
    let net = v4_net("192.168.1.0/24");
    let (name, split) = create_reverse_zone_name(&net);
    assert_eq!(name, "1.168.192.in-addr.arpa.");
    assert_eq!(split, 1);
}

#[test]
fn test_create_reverse_zone_name_ipv4_16() {
    let net = v4_net("10.0.0.0/16");
    let (name, split) = create_reverse_zone_name(&net);
    assert_eq!(name, "0.10.in-addr.arpa.");
    assert_eq!(split, 2);
}

#[test]
fn test_create_reverse_zone_name_ipv6() {
    let net = v6_net("fd00:1234:5678:1::/64");
    let (name, split) = create_reverse_zone_name(&net);
    assert_eq!(name, "1.0.0.0.8.7.6.5.4.3.2.1.0.0.d.f.ip6.arpa.");
    assert_eq!(split, 16);
}

#[test]
fn test_ip_name_ipv4() {
    let ip = IpAddress::V4(u32::from_be_bytes([192, 168, 1, 10]));
    let name = ip_name(&ip, 1);
    assert_eq!(name, "10");
}

#[test]
fn test_ip_name_ipv4_split_2() {
    let ip = IpAddress::V4(u32::from_be_bytes([10, 0, 1, 5]));
    let name = ip_name(&ip, 2);
    assert_eq!(name, "5.1");
}

#[test]
fn test_ip_name_ipv6() {
    let ip = IpAddress::V6(segments([0xfd00, 0x1234, 0x5678, 0x1, 0, 0, 0, 0x5]));
    let name = ip_name(&ip, 4);
    assert_eq!(name, "5.0.0.0");
}

#[test]
fn reverse_zone_name_of_unaligned_prefixes_truncates() {
    let (name, split) = create_reverse_zone_name(&v4_net("10.1.0.0/20"));
    assert_eq!(name, "1.10.in-addr.arpa.");
    assert_eq!(split, 1);
    let (name, split) = create_reverse_zone_name(&v6_net("2001:db8::/34"));
    assert_eq!(name, "8.b.d.0.1.0.0.2.ip6.arpa.");
    assert_eq!(split, 23);
    let (name, split) = create_reverse_zone_name(&v4_net("10.0.0.0/8"));
    assert_eq!(name, "10.in-addr.arpa.");
    assert_eq!(split, 3);
}

#[test]
fn ip_name_of_full_addresses() {
    let ip = IpAddress::V4(u32::from_be_bytes([192, 168, 1, 10]));
    assert_eq!(ip_name(&ip, 4), "10.1.168.192");
    assert_eq!(ip_name(&ip, 0), "");
    let ip6 = IpAddress::V6(1);
    assert_eq!(ip_name(&ip6, 2), "1.0");
    assert_eq!(ip_name(&IpAddress::V6(0xab), 40).len(), 63);
}

#[test]
fn host_str_keeps_unicode_space_rules() {
    assert_eq!(parse_host_str("\u{3000}www\t", "example.com.").unwrap(), "www.example.com.");
    assert_eq!(parse_host_str(" @ ", "example.com.").unwrap(), "example.com.");
    match parse_host_str(" host ", "") {
        Err(ZoneError::NotQualified { host }) => assert_eq!(host, "host"),
        other => panic!("unexpected result {:?}", other),
    }
}

#[test]
fn fqdn_completion_of_a_qualified_name_changes_nothing() {
    let once = parse_host_str("www", "example.com.").unwrap();
    let twice = parse_host_str(&once, "other.org.").unwrap();
    assert_eq!(once, twice);
}

#[test]
fn srv_name_faults() {
    assert_eq!(srv_name_fault("_http"), Some(SrvFault::TooFewParts));
    assert_eq!(srv_name_fault("http._tcp"), Some(SrvFault::ServiceWithoutUnderscore));
    assert_eq!(srv_name_fault("_http.tcp"), Some(SrvFault::ProtocolWithoutUnderscore));
    assert_eq!(srv_name_fault("_http._tcp.sub"), None);
    match parse_srv_name(" _sip.udp ", "example.com.") {
        Err(ZoneError::InvalidSrvName { name, fault }) => {
            assert_eq!(name, "_sip.udp");
            assert_eq!(fault, SrvFault::ProtocolWithoutUnderscore);
        }
        other => panic!("unexpected result {:?}", other),
    }
}

#[test]
fn email_errors() {
    match parse_email("admin.example.com") {
        Err(ZoneError::EmailWithoutAt { raw }) => assert_eq!(raw, "admin.example.com"),
        other => panic!("unexpected result {:?}", other),
    }
    match parse_email("a..b@example.com") {
        Err(ZoneError::InvalidEmail { email, .. }) => assert_eq!(email, "a..b@example.com"),
        other => panic!("unexpected result {:?}", other),
    }
    assert!(parse_email("admin@example").is_err());
    assert_eq!(parse_email("first.last.x@sub.example.org.").unwrap(), "first\\.last\\.x.sub.example.org.");
}
