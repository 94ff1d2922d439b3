use globalip_memo::find_old_addr;
use globalip_memo::format_ip;
use globalip_memo::output;
use globalip_memo::parse_ip;
use globalip_memo::IpAddress;
use globalip_memo::IpVersion;
use globalip_memo::V4Addr;
use globalip_memo::V6Addr;

fn v4(o0: u8, o1: u8, o2: u8, o3: u8) -> IpAddress {
    IpAddress::V4(V4Addr { o0, o1, o2, o3 })
}

#[test]
fn parse_v4_round_trip_with_whitespace() {
    let r = parse_ip(&IpVersion::IPv4, "  1.2.3.4  ");
    assert!(r.is_ok());
    assert_eq!(r.unwrap(), v4(1, 2, 3, 4));
    assert!(parse_ip(&IpVersion::IPv6, "1.2.3.4").is_err());
}

#[test]
fn parse_v4_rejects_malformed() {
    assert!(parse_ip(&IpVersion::IPv4, "").is_err());
    assert!(parse_ip(&IpVersion::IPv4, "1.2.3").is_err());
    assert!(parse_ip(&IpVersion::IPv4, "1.2.3.4.5").is_err());
    assert!(parse_ip(&IpVersion::IPv4, "256.1.1.1").is_err());
    assert!(parse_ip(&IpVersion::IPv4, "01.2.3.4").is_err());
    assert!(parse_ip(&IpVersion::IPv4, "1.2.3.4x").is_err());
    assert!(parse_ip(&IpVersion::IPv4, "a.b.c.d").is_err());
    let e = parse_ip(&IpVersion::IPv4, "nonsense").unwrap_err();
    assert_eq!(e.source(), globalip_memo::ErrorSource::Addr);
}

#[test]
fn parse_v4_accepts_bounds() {
    assert_eq!(parse_ip(&IpVersion::IPv4, "0.0.0.0").unwrap(), v4(0, 0, 0, 0));
    assert_eq!(
        parse_ip(&IpVersion::IPv4, "255.255.255.255").unwrap(),
        v4(255, 255, 255, 255)
    );
    assert_eq!(parse_ip(&IpVersion::IPv4, "203.0.113.5").unwrap(), v4(203, 0, 113, 5));
}

#[test]
fn parse_v6_forms() {
    let full = parse_ip(&IpVersion::IPv6, "1:2:3:4:5:6:7:8").unwrap();
    assert_eq!(
        full,
        IpAddress::V6(V6Addr { g0: 1, g1: 2, g2: 3, g3: 4, g4: 5, g5: 6, g6: 7, g7: 8 })
    );
    let loopback = parse_ip(&IpVersion::IPv6, "::1").unwrap();
    assert_eq!(
        loopback,
        IpAddress::V6(V6Addr { g0: 0, g1: 0, g2: 0, g3: 0, g4: 0, g5: 0, g6: 0, g7: 1 })
    );
    let mixed = parse_ip(&IpVersion::IPv6, "fe80::abcd").unwrap();
    assert_eq!(
        mixed,
        IpAddress::V6(V6Addr { g0: 0xfe80, g1: 0, g2: 0, g3: 0, g4: 0, g5: 0, g6: 0, g7: 0xabcd })
    );
    assert!(parse_ip(&IpVersion::IPv6, ":::").is_err());
    assert!(parse_ip(&IpVersion::IPv6, "1::2::3").is_err());
    assert!(parse_ip(&IpVersion::IPv6, "1:2:3:4:5:6:7").is_err());
    assert!(parse_ip(&IpVersion::IPv6, "1:2:3:4:5:6:7:8:9").is_err());
    assert!(parse_ip(&IpVersion::IPv6, "12345::").is_err());
    assert!(parse_ip(&IpVersion::IPv6, "::1 junk").is_err());
}

#[test]
fn format_then_parse_again() {
    let a = v4(192, 168, 0, 1);
    let t = format_ip(&a);
    assert_eq!(t, "192.168.0.1");
    assert_eq!(parse_ip(&IpVersion::IPv4, &t).unwrap(), a);
    let b = IpAddress::V6(V6Addr { g0: 0xfe80, g1: 0, g2: 0, g3: 0, g4: 0, g5: 0, g6: 0, g7: 1 });
    let tb = format_ip(&b);
    assert_eq!(tb, "fe80:0:0:0:0:0:0:1");
    assert_eq!(parse_ip(&IpVersion::IPv6, &tb).unwrap(), b);
}

#[test]
fn find_old_addr_best_effort() {
    let good = b"203.0.113.5".to_vec();
    assert_eq!(find_old_addr(&IpVersion::IPv4, Some(&good)), Some(v4(203, 0, 113, 5)));
    let padded = b" 203.0.113.5\n".to_vec();
    assert_eq!(find_old_addr(&IpVersion::IPv4, Some(&padded)), Some(v4(203, 0, 113, 5)));
    assert_eq!(find_old_addr(&IpVersion::IPv4, None), None);
    let garbage = b"not an address".to_vec();
    assert_eq!(find_old_addr(&IpVersion::IPv4, Some(&garbage)), None);
    let oversized = vec![b'1'; 40];
    assert_eq!(find_old_addr(&IpVersion::IPv4, Some(&oversized)), None);
    let wrong_family = b"::1".to_vec();
    assert_eq!(find_old_addr(&IpVersion::IPv4, Some(&wrong_family)), None);
}

#[test]
fn persisted_v6_text_reloads() {
    let b = IpAddress::V6(V6Addr { g0: 0xfe80, g1: 0, g2: 0, g3: 0, g4: 0, g5: 0, g6: 0, g7: 1 });
    let text = output(&b, &None).unwrap();
    let stored = text.into_bytes();
    assert_eq!(find_old_addr(&IpVersion::IPv6, Some(&stored)), Some(b));
}

#[test]
fn output_skips_only_when_unchanged() {
    let a = v4(203, 0, 113, 5);
    assert_eq!(output(&a, &Some(a)), None);
    let w = output(&a, &None);
    assert_eq!(w, Some("203.0.113.5".to_string()));
    let other = v4(203, 0, 113, 9);
    assert_eq!(output(&other, &Some(a)), Some("203.0.113.9".to_string()));
}
