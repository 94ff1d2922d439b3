use globalip_memo::address_from_body;
use globalip_memo::config_path;
use globalip_memo::output_path;
use globalip_memo::resolve_dir;
use globalip_memo::run;
use globalip_memo::Config;
use globalip_memo::Error;
use globalip_memo::ErrorSource;
use globalip_memo::IpAddress;
use globalip_memo::IpVersion;
use globalip_memo::Method;
use globalip_memo::V4Addr;

fn v4(o0: u8, o1: u8, o2: u8, o3: u8) -> IpAddress {
    IpAddress::V4(V4Addr { o0, o1, o2, o3 })
}

fn plain(weight: u64) -> Method {
    Method::Plain { url: "http://example.invalid".to_string(), regex: String::new(), weight }
}

fn ok_body(s: &str) -> Result<String, Error> {
    Ok(s.to_string())
}

#[test]
fn address_from_plain_body() {
    let m = plain(1);
    let r = address_from_body(&IpVersion::IPv4, &m, "  10.1.2.3\n");
    assert_eq!(r.unwrap(), v4(10, 1, 2, 3));
}

#[test]
fn address_from_json_body_with_pattern() {
    let m = Method::Json {
        url: "http://example.invalid".to_string(),
        regex: r"(?P<ip>\d+\.\d+\.\d+\.\d+)".to_string(),
        path: "data.ip".to_string(),
        weight: 1,
    };
    let body = r#"{"data":{"ip":"addr is 203.0.113.7 today"}}"#;
    let r = address_from_body(&IpVersion::IPv4, &m, body);
    assert_eq!(r.unwrap(), v4(203, 0, 113, 7));
}

#[test]
fn run_tie_break_scenario() {
    let config = Config::validated(IpVersion::IPv4, vec![plain(1), plain(1), plain(2)]).unwrap();
    let bodies = vec![ok_body("10.0.0.1"), ok_body("10.0.0.1"), ok_body("10.0.0.2")];
    let out = run(&config, &bodies, None).unwrap();
    assert_eq!(out.address, v4(10, 0, 0, 1));
    assert!(out.updated);
    assert_eq!(out.write_text, Some("10.0.0.1".to_string()));
}

#[test]
fn run_up_to_date_skips_write() {
    let config = Config::validated(IpVersion::IPv4, vec![plain(1)]).unwrap();
    let bodies = vec![ok_body("203.0.113.5")];
    let previous = b"203.0.113.5".to_vec();
    let out = run(&config, &bodies, Some(&previous)).unwrap();
    assert_eq!(out.address, v4(203, 0, 113, 5));
    assert!(!out.updated);
    assert_eq!(out.write_text, None);
}

#[test]
fn run_fresh_write_when_no_previous_state() {
    let config = Config::validated(IpVersion::IPv4, vec![plain(1)]).unwrap();
    let bodies = vec![ok_body("203.0.113.9")];
    let out = run(&config, &bodies, None).unwrap();
    assert_eq!(out.address, v4(203, 0, 113, 9));
    assert!(out.updated);
    assert_eq!(out.write_text, Some("203.0.113.9".to_string()));
}

#[test]
fn run_all_sources_failed() {
    let config = Config::validated(IpVersion::IPv4, vec![plain(1), plain(1)]).unwrap();
    let bodies = vec![ok_body("not an address"), Err(Error::new("down".to_string(), ErrorSource::Http))];
    let r = run(&config, &bodies, None);
    assert!(r.is_err());
    assert_eq!(r.unwrap_err().source(), ErrorSource::General);
}

#[test]
fn config_requires_a_source() {
    let r = Config::validated(IpVersion::IPv4, Vec::new());
    assert!(r.is_err());
    let ok = Config::validated(IpVersion::IPv6, vec![plain(1)]);
    assert!(ok.is_ok());
    let c = ok.unwrap();
    assert_eq!(*c.ip_version(), IpVersion::IPv6);
    assert_eq!(c.methods().len(), 1);
}

#[test]
fn method_accessors() {
    let m = Method::Json {
        url: "http://u".to_string(),
        regex: "r".to_string(),
        path: "p".to_string(),
        weight: 7,
    };
    assert_eq!(m.url(), "http://u");
    assert_eq!(m.regex(), "r");
    assert_eq!(m.weight(), 7);
}

#[test]
fn directory_resolution_order() {
    let r = resolve_dir(Some("/env".to_string()), Some("/cwd".to_string()));
    assert_eq!(r.unwrap(), "/env");
    let r = resolve_dir(None, Some("/cwd".to_string()));
    assert_eq!(r.unwrap(), "/cwd");
    assert!(resolve_dir(None, None).is_err());
}

#[test]
fn paths_in_work_dir() {
    assert_eq!(config_path("/work"), "/work/globalip-config.json");
    assert_eq!(output_path("/work"), "/work/globalip.txt");
}

#[test]
fn error_carries_message_and_source() {
    let e = Error::new("test message".to_string(), ErrorSource::Io);
    assert_eq!(e.message(), "test message");
    assert_eq!(e.source(), ErrorSource::Io);
    let d = IpVersion::default();
    assert_eq!(d, IpVersion::IPv4);
    assert_eq!(IpVersion::IPv4.text(), "Ipv4");
    assert_eq!(IpVersion::IPv6.text(), "Ipv6");
}
