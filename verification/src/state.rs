use vstd::prelude::*;

use crate::addr::format_ip;
use crate::addr::ip_text;
use crate::addr::lemma_ip_text_clean;
use crate::addr::lemma_trim_clean;
use crate::addr::lemma_v4_round_trip;
use crate::addr::lemma_v6_round_trip;
use crate::addr::parse_from_chars;
use crate::addr::parse_ip_spec;
use crate::addr::trim;
use crate::addr::IpAddress;
use crate::config::IpVersion;

verus! {

/// The longest canonical address text: eight four-digit groups and seven
/// colons. Anything longer in storage cannot be a previous address.
pub const OUTPUT_MAX_SIZE: usize = 39;

/// The bytes of storage read as characters, one per byte.
pub open spec fn bytes_chars(bs: Seq<u8>) -> Seq<char> {
    bs.map(|i: int, b: u8| b as char)
}

/// What previously persisted content means: absent, unreadable, oversized or
/// ill-formed content all mean "no previous address".
pub open spec fn old_addr_spec(ver: IpVersion, content: Option<Seq<u8>>) -> Option<IpAddress> {
    match content {
        None => None,
        Some(bs) => if bs.len() > OUTPUT_MAX_SIZE {
            None
        } else {
            parse_ip_spec(ver, trim(bytes_chars(bs)))
        },
    }
}

/// Decodes the previously persisted address, best effort: the caller hands
/// the raw storage content (or nothing when it could not be read), and every
/// defect yields `None` rather than an error.
pub fn find_old_addr(ip_version: &IpVersion, content: Option<&Vec<u8>>) -> (r: Option<IpAddress>)
    ensures
        r == old_addr_spec(
            *ip_version,
            match content {
                Some(c) => Some(c@),
                None => None,
            },
        ),
{
    match content {
        None => None,
        Some(bs) => {
            if bs.len() > OUTPUT_MAX_SIZE {
                return None;
            }
            let mut v: Vec<char> = Vec::new();
            let mut i: usize = 0;
            while i < bs.len()
                invariant
                    0 <= i <= bs@.len(),
                    v@.len() == i,
                    forall|j: int| 0 <= j < i ==> v@[j] == (#[trigger] bs@[j]) as char,
                decreases bs@.len() - i,
            {
                v.push(bs[i] as char);
                i = i + 1;
            }
            proof {
                assert(v@ =~= bytes_chars(bs@));
            }
            parse_from_chars(ip_version, &v)
        },
    }
}

/// The family an address belongs to.
pub open spec fn family_of(a: IpAddress) -> IpVersion {
    match a {
        IpAddress::V4(_) => IpVersion::IPv4,
        IpAddress::V6(_) => IpVersion::IPv6,
    }
}

/// Idempotence across runs: when storage holds exactly the bytes of an
/// address's rendered text, the next run of the same family loads that
/// address back, and so decides to skip the write.
pub proof fn lemma_persist_reload(a: IpAddress, bytes: Seq<u8>)
    requires
        bytes.len() == ip_text(a).len(),
        forall|k: int| 0 <= k < bytes.len() ==> (#[trigger] bytes[k]) as char == ip_text(a)[k],
    ensures
        old_addr_spec(family_of(a), Some(bytes)) == Some(a),
{
    lemma_ip_text_clean(a);
    let t = ip_text(a);
    assert(bytes_chars(bytes) =~= t) by {
        assert(forall|k: int|
            0 <= k < bytes.len() ==> (#[trigger] bytes_chars(bytes)[k]) == bytes[k] as char);
    }
    lemma_trim_clean(t);
    match a {
        IpAddress::V4(x) => {
            lemma_v4_round_trip(x, t);
        },
        IpAddress::V6(x) => {
            lemma_v6_round_trip(x);
        },
    }
}

/// Decides the write: `None` means the stored state already holds the new
/// address and storage must stay untouched; otherwise the returned text is
/// exactly what storage must hold afterwards.
pub fn output(addr: &IpAddress, old_addr: &Option<IpAddress>) -> (r: Option<String>)
    ensures
        match r {
            None => *old_addr == Some(*addr),
            Some(t) => *old_addr != Some(*addr) && t@ == ip_text(*addr),
        },
{
    match old_addr {
        Some(o) => {
            if o == addr {
                return None;
            }
        },
        None => {},
    }
    Some(format_ip(addr))
}

} // verus!
