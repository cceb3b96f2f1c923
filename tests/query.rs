use till::DNSQuery;

#[test]
fn accepts_host_names() {
    let q = DNSQuery::new("example.com").unwrap();
    assert_eq!(q.domain(), "example.com");
    assert!(DNSQuery::new("a-b.c9.example.org").is_ok());
}

#[test]
fn refuses_other_text() {
    assert_eq!(DNSQuery::new("not a domain").unwrap_err(), "Invalid domain: not a domain");
    assert!(DNSQuery::new("example.c").is_err());
    assert!(DNSQuery::new("-bad.com").is_err());
    assert!(DNSQuery::new("localhost").is_err());
    assert!(DNSQuery::new("").is_err());
}

#[test]
fn checked_follows_the_match() {
    assert_eq!(DNSQuery::checked("x y", true).unwrap().domain(), "x y");
    assert_eq!(DNSQuery::checked("example.com", false).unwrap_err(), "Invalid domain: example.com");
}
