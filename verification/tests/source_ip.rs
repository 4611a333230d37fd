use swindon::source_ip::{check, forwarded_source, network_contains, source_address, SourceChoice, Subnet};

fn h(name: &str, v: Option<u32>) -> (String, Option<u32>) {
    (name.to_string(), v)
}

#[test]
fn forwarded_header_last_one_wins() {
    let headers = vec![h("X-Real-Ip", Some(1)), h("Host", None), h("x-real-ip", Some(2))];
    assert_eq!(forwarded_source(&headers, "X-Real-IP"), SourceChoice::Forwarded(2));
}

#[test]
fn forwarded_header_invalid_denies() {
    let headers = vec![h("X-Real-Ip", None), h("x-real-ip", Some(2))];
    assert_eq!(forwarded_source(&headers, "X-Real-IP"), SourceChoice::Invalid);
    let headers = vec![h("X-Real-Ip", Some(1)), h("x-real-ip", None)];
    assert_eq!(forwarded_source(&headers, "X-Real-IP"), SourceChoice::Invalid);
}

#[test]
fn forwarded_header_absent_means_peer() {
    let headers = vec![h("Host", None)];
    assert_eq!(forwarded_source(&headers, "X-Real-IP"), SourceChoice::Peer);
    assert_eq!(forwarded_source::<u32>(&[], "X-Real-IP"), SourceChoice::Peer);
}

#[test]
fn source_address_trusts_only_trusted_peers() {
    let headers = vec![h("X-Real-Ip", Some(7))];
    assert_eq!(source_address(9, true, Some("x-real-ip"), &headers), Some(7));
    assert_eq!(source_address(9, false, Some("x-real-ip"), &headers), Some(9));
    assert_eq!(source_address(9, true, None, &headers), Some(9));
    let bad = vec![h("X-Real-Ip", None)];
    assert_eq!(source_address(9, true, Some("x-real-ip"), &bad), None);
    assert_eq!(source_address(9, true, Some("x-other"), &bad), Some(9));
}

fn ipv4(a: u8, b: u8, c: u8, d: u8) -> u128 {
    0xffff_0000_0000u128 | ((a as u128) << 24) | ((b as u128) << 16) | ((c as u128) << 8) | d as u128
}

#[test]
fn source_ip_check() {
    let local = [Subnet { first: ipv4(10, 0, 0, 0), last: ipv4(10, 255, 255, 255) }];
    let proxies = [Subnet { first: ipv4(192, 168, 1, 1), last: ipv4(192, 168, 1, 1) }];
    assert!(network_contains(&local, ipv4(10, 1, 2, 3)));
    assert!(!network_contains(&local, ipv4(11, 0, 0, 0)));
    // a client of the local network
    assert!(check(ipv4(10, 1, 2, 3), None, None, &[], Some(&local)));
    // an outside client
    assert!(!check(ipv4(8, 8, 8, 8), None, None, &[], Some(&local)));
    // no such network
    assert!(!check(ipv4(10, 1, 2, 3), None, None, &[], None));
    // through a trusted proxy, the header counts
    let headers = vec![("X-Real-Ip".to_string(), Some(ipv4(10, 0, 0, 7)))];
    assert!(check(ipv4(192, 168, 1, 1), Some(&proxies), Some("x-real-ip"), &headers, Some(&local)));
    // from anyone else it does not
    assert!(!check(ipv4(192, 168, 1, 2), Some(&proxies), Some("x-real-ip"), &headers, Some(&local)));
    // an invalid header denies
    let bad = vec![("X-Real-Ip".to_string(), None)];
    assert!(!check(ipv4(192, 168, 1, 1), Some(&proxies), Some("x-real-ip"), &bad, Some(&local)));
}
