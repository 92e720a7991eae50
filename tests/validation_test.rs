use zonefile_rs::error::{EmailFault, NameFault, ZoneError};
use zonefile_rs::validation::{validate_dns_name, validate_email};

#[test]
fn test_validate_dns_name_valid() {
    assert!(validate_dns_name("example.com.").is_ok());
    assert!(validate_dns_name("sub.example.com.").is_ok());
    assert!(validate_dns_name("a.b.c.d.example.com.").is_ok());
    assert!(validate_dns_name("host-name.example.com.").is_ok());
    assert!(validate_dns_name("host_name.example.com.").is_ok());
    assert!(validate_dns_name("123.example.com.").is_ok());
}

#[test]
fn test_validate_dns_name_wildcard() {
    assert!(validate_dns_name("*.example.com.").is_ok());
    assert!(validate_dns_name("*.sub.example.com.").is_ok());
}

#[test]
fn test_validate_dns_name_wildcard_invalid() {
    assert!(validate_dns_name("sub.*.example.com.").is_err());
    assert!(validate_dns_name("*sub.example.com.").is_err());
    assert!(validate_dns_name("sub*.example.com.").is_err());
}

#[test]
fn test_validate_dns_name_missing_dot() {
    assert!(validate_dns_name("example.com").is_err());
    assert!(validate_dns_name("sub.example.com").is_err());
}

#[test]
fn test_validate_dns_name_too_long() {
    let long_name = "a".repeat(250) + ".com.";
    assert!(validate_dns_name(&long_name).is_err());
}

#[test]
fn test_validate_dns_name_label_too_long() {
    let long_label = "a".repeat(64) + ".example.com.";
    assert!(validate_dns_name(&long_label).is_err());
}

#[test]
fn test_validate_dns_name_empty_label() {
    assert!(validate_dns_name("..example.com.").is_err());
    assert!(validate_dns_name("sub..example.com.").is_err());
}

#[test]
fn test_validate_dns_name_hyphen() {
    assert!(validate_dns_name("va-lid.example.com.").is_ok());
    assert!(validate_dns_name("-invalid.example.com.").is_err());
    assert!(validate_dns_name("invalid-.example.com.").is_err());
}

#[test]
fn test_validate_dns_name_invalid_chars() {
    assert!(validate_dns_name("in valid.example.com.").is_err());
    assert!(validate_dns_name("in@valid.example.com.").is_err());
    assert!(validate_dns_name("in!valid.example.com.").is_err());
}

#[test]
fn test_validate_email_valid() {
    assert!(validate_email("admin@example.com").is_ok());
    assert!(validate_email("john.doe@example.com").is_ok());
    assert!(validate_email("user+tag@example.com").is_ok());
    assert!(validate_email("user_name@example.co.uk").is_ok());
    assert!(validate_email("test-user@sub.example.com").is_ok());
}

#[test]
fn test_validate_email_missing_at() {
    assert!(validate_email("admin.example.com").is_err());
    assert!(validate_email("adminexample.com").is_err());
}

#[test]
fn test_validate_email_invalid_local() {
    assert!(validate_email(".user@example.com").is_err());
    assert!(validate_email("user.@example.com").is_err());
    assert!(validate_email("user..name@example.com").is_err());
    assert!(validate_email("user name@example.com").is_err());
    assert!(validate_email("user@name@example.com").is_err());
}

#[test]
fn test_validate_email_invalid_domain() {
    assert!(validate_email("user@example").is_err());
    assert!(validate_email("user@.example.com").is_err());
    assert!(validate_email("user@example..com").is_err());
    assert!(validate_email("user@-example.com").is_err());
    assert!(validate_email("user@example-.com").is_err());
    assert!(validate_email("user@123").is_err());
}

fn name_fault(name: &str) -> NameFault {
    match validate_dns_name(name) {
        Err(ZoneError::InvalidName { fault, .. }) => fault,
        other => panic!("unexpected result {:?}", other),
    }
}

fn email_fault(email: &str) -> EmailFault {
    match validate_email(email) {
        Err(ZoneError::InvalidEmail { fault, .. }) => fault,
        other => panic!("unexpected result {:?}", other),
    }
}

#[test]
fn dns_name_faults_name_the_first_broken_rule() {
    assert_eq!(name_fault(&("a".repeat(250) + ".com.")), NameFault::TooLong);
    assert_eq!(name_fault("example.com"), NameFault::NotQualified);
    assert_eq!(name_fault("sub..example.com."), NameFault::EmptyLabel);
    assert_eq!(name_fault(&("a".repeat(64) + ".com.")), NameFault::LabelTooLong);
    assert_eq!(name_fault("sub.*.example.com."), NameFault::WildcardNotLeftmost);
    assert_eq!(name_fault("*sub.example.com."), NameFault::WildcardNotWhole);
    assert_eq!(name_fault("-a.example.com."), NameFault::HyphenAtEdge);
    assert_eq!(name_fault("a!b.example.com."), NameFault::InvalidChar);
}

#[test]
fn dns_name_edge_cases() {
    assert!(validate_dns_name(&("a".repeat(63) + ".com.")).is_ok());
    let exact = format!("{}.", "a".repeat(63)).repeat(3) + &"b".repeat(60) + ".";
    assert_eq!(exact.len(), 253);
    assert!(validate_dns_name(&exact).is_ok());
    assert_eq!(name_fault(&format!("c{}", exact)), NameFault::TooLong);
    assert_eq!(name_fault("."), NameFault::EmptyLabel);
    assert_eq!(name_fault("a.."), NameFault::EmptyLabel);
    assert_eq!(name_fault("_.."), NameFault::EmptyLabel);
    assert_eq!(name_fault(""), NameFault::NotQualified);
    assert!(validate_dns_name("exämple.com.").is_ok());
    match validate_dns_name("bad name.") {
        Err(ZoneError::InvalidName { name, .. }) => assert_eq!(name, "bad name."),
        other => panic!("unexpected result {:?}", other),
    }
}

#[test]
fn email_faults_name_the_first_broken_rule() {
    assert_eq!(email_fault(&format!("{}@example.com", "a".repeat(250))), EmailFault::TooLong);
    assert_eq!(email_fault("admin.example.com"), EmailFault::MissingAt);
    assert_eq!(email_fault("@example.com"), EmailFault::LocalEmpty);
    assert_eq!(email_fault(&format!("{}@example.com", "a".repeat(65))), EmailFault::LocalTooLong);
    assert_eq!(email_fault(".user@example.com"), EmailFault::LocalDotAtEdge);
    assert_eq!(email_fault("us..er@example.com"), EmailFault::LocalConsecutiveDots);
    assert_eq!(email_fault("us er@example.com"), EmailFault::LocalInvalidChar);
    assert_eq!(email_fault("user@"), EmailFault::DomainEmpty);
    assert_eq!(email_fault("user@example"), EmailFault::DomainWithoutDot);
    assert_eq!(email_fault("user@example..com"), EmailFault::DomainEmptyLabel);
    assert_eq!(email_fault(&format!("user@{}.com", "a".repeat(64))), EmailFault::DomainLabelTooLong);
    assert_eq!(email_fault("user@-example.com"), EmailFault::DomainHyphenAtEdge);
    assert_eq!(email_fault("user@exa_mple.com"), EmailFault::DomainInvalidChar);
    assert_eq!(email_fault("user@example.123"), EmailFault::NumericTld);
}
