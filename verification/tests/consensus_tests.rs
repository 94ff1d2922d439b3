use globalip_memo::process_fetch_result;
use globalip_memo::Error;
use globalip_memo::ErrorSource;
use globalip_memo::IpAddress;
use globalip_memo::Method;
use globalip_memo::V4Addr;

fn v4(o0: u8, o1: u8, o2: u8, o3: u8) -> IpAddress {
    IpAddress::V4(V4Addr { o0, o1, o2, o3 })
}

fn source(weight: u64) -> Method {
    Method::Plain { url: "http://example.invalid".to_string(), regex: String::new(), weight }
}

fn fail() -> Result<IpAddress, Error> {
    Err(Error::new("fetch failed".to_string(), ErrorSource::Http))
}

#[test]
fn unique_maximum_wins() {
    let list = vec![
        (source(1), Ok(v4(10, 0, 0, 1))),
        (source(3), Ok(v4(10, 0, 0, 2))),
        (source(1), Ok(v4(10, 0, 0, 1))),
    ];
    assert_eq!(process_fetch_result(list).unwrap(), v4(10, 0, 0, 2));
}

#[test]
fn tie_goes_to_earliest_resolved() {
    let list = vec![
        (source(1), Ok(v4(10, 0, 0, 1))),
        (source(1), Ok(v4(10, 0, 0, 1))),
        (source(2), Ok(v4(10, 0, 0, 2))),
    ];
    assert_eq!(process_fetch_result(list).unwrap(), v4(10, 0, 0, 1));
}

#[test]
fn tie_on_single_entries_prefers_first() {
    let list = vec![
        (source(2), Ok(v4(10, 0, 0, 2))),
        (source(1), Ok(v4(10, 0, 0, 1))),
        (source(1), Ok(v4(10, 0, 0, 1))),
    ];
    assert_eq!(process_fetch_result(list).unwrap(), v4(10, 0, 0, 2));
}

#[test]
fn failures_are_discarded() {
    let list = vec![
        (source(5), fail()),
        (source(1), Ok(v4(10, 0, 0, 3))),
        (source(5), fail()),
    ];
    assert_eq!(process_fetch_result(list).unwrap(), v4(10, 0, 0, 3));
}

#[test]
fn all_failed_is_no_consensus() {
    let list = vec![(source(1), fail()), (source(2), fail())];
    let r = process_fetch_result(list);
    assert!(r.is_err());
    assert_eq!(r.unwrap_err().source(), ErrorSource::General);
}

#[test]
fn single_source_wins_alone() {
    let list = vec![(source(1), Ok(v4(8, 8, 8, 8)))];
    assert_eq!(process_fetch_result(list).unwrap(), v4(8, 8, 8, 8));
}
