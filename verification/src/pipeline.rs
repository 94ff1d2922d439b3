use vstd::prelude::*;

use crate::addr::ip_text;
use crate::addr::parse_ip;
use crate::addr::parse_ip_spec;
use crate::addr::trim;
use crate::addr::IpAddress;
use crate::config::Config;
use crate::config::IpVersion;
use crate::config::Method;
use crate::consensus::is_winner;
use crate::consensus::lemma_resolved_push;
use crate::consensus::process_fetch_result;
use crate::consensus::resolved_of;
use crate::consensus::total_weight;
use crate::consensus::unit_of;
use crate::error::Error;
use crate::error::ErrorSource;
use crate::json::flat_of;
use crate::json::json_doc;
use crate::json::lookup_text;
use crate::json::parse_json;
use crate::pattern::extract_ip;
use crate::pattern::extract_spec;
use crate::state::find_old_addr;
use crate::state::old_addr_spec;
use crate::state::output;

verus! {

// ---------------------------------------------------------------------------
// One source's compute step
// ---------------------------------------------------------------------------

/// The candidate text a source's extraction rule picks from a fetched body.
pub open spec fn candidate_of(method: Method, body: Seq<char>) -> Option<Seq<char>> {
    let base = match method {
        Method::Plain { .. } => Some(body),
        Method::Json { path, .. } => match json_doc(body) {
            Some(doc) => lookup_text(flat_of(doc, Seq::<char>::empty()), path@),
            None => None,
        },
    };
    match base {
        Some(t) => extract_spec(t, method.spec_regex()),
        None => None,
    }
}

/// The address a source resolves from a fetched body, if any.
pub open spec fn outcome_of(ver: IpVersion, method: Method, body: Seq<char>) -> Option<IpAddress> {
    match candidate_of(method, body) {
        Some(t) => parse_ip_spec(ver, trim(t)),
        None => None,
    }
}

/// The compute half of one source's round: the body has been fetched, and
/// field selection, pattern capture and address parsing remain.
pub fn address_from_body(ip_version: &IpVersion, method: &Method, body: &str) -> (r: Result<
    IpAddress,
    Error,
>)
    ensures
        match r {
            Ok(a) => outcome_of(*ip_version, *method, body@) == Some(a),
            Err(_) => outcome_of(*ip_version, *method, body@) is None,
        },
{
    let candidate: String = match method {
        Method::Plain { .. } => body.to_owned(),
        Method::Json { path, .. } => match parse_json(body, path.as_str()) {
            Ok(t) => t,
            Err(e) => {
                return Err(e);
            },
        },
    };
    let extracted = match extract_ip(candidate.as_str(), method.regex()) {
        Ok(t) => t,
        Err(e) => {
            return Err(e);
        },
    };
    parse_ip(ip_version, extracted.as_str())
}

// ---------------------------------------------------------------------------
// The whole run
// ---------------------------------------------------------------------------

/// The entries the vote sees, from the configured sources and what their
/// fetches brought back.
pub open spec fn resolved_entries(
    ver: IpVersion,
    methods: Seq<Method>,
    bodies: Seq<Result<String, Error>>,
) -> Seq<(IpAddress, u64)>
    decreases methods.len(),
{
    if methods.len() == 0 || bodies.len() == 0 {
        seq![]
    } else {
        let head = match bodies[0] {
            Ok(b) => match outcome_of(ver, methods[0], b@) {
                Some(a) => seq![(a, methods[0].spec_weight())],
                None => seq![],
            },
            Err(_) => seq![],
        };
        head + resolved_entries(ver, methods.drop_first(), bodies.drop_first())
    }
}

/// The summed weight of all configured sources.
pub open spec fn total_method_weight(methods: Seq<Method>) -> int
    decreases methods.len(),
{
    if methods.len() == 0 {
        0
    } else {
        methods[0].spec_weight() + total_method_weight(methods.drop_first())
    }
}

proof fn lemma_entries_weight_le(
    ver: IpVersion,
    methods: Seq<Method>,
    bodies: Seq<Result<String, Error>>,
)
    ensures
        0 <= total_weight(resolved_entries(ver, methods, bodies)) <= total_method_weight(methods)
            + 0,
        total_method_weight(methods) >= 0,
    decreases methods.len(),
{
    if methods.len() == 0 || bodies.len() == 0 {
        if methods.len() > 0 {
            lemma_entries_weight_le(ver, methods.drop_first(), bodies);
        }
    } else {
        lemma_entries_weight_le(ver, methods.drop_first(), bodies.drop_first());
        let rest = resolved_entries(ver, methods.drop_first(), bodies.drop_first());
        let whole = resolved_entries(ver, methods, bodies);
        match bodies[0] {
            Ok(b) => {
                match outcome_of(ver, methods[0], b@) {
                    Some(a) => {
                        let e = (a, methods[0].spec_weight());
                        assert(whole =~= seq![e] + rest);
                        assert(whole[0] == e);
                        assert(whole.drop_first() =~= rest);
                    },
                    None => {
                        assert(whole =~= rest);
                    },
                }
            },
            Err(_) => {
                assert(whole =~= rest);
            },
        }
    }
}

/// What one run decided: the winning address, whether storage must change,
/// and, when it must, the exact text to persist.
#[derive(Debug)]
pub struct RunOutcome {
    pub address: IpAddress,
    pub updated: bool,
    pub write_text: Option<String>,
}

/// One whole run's decisions, given what the collaborators brought: the
/// fetched bodies in configured order, and the raw previously-persisted
/// content. Resolves each source, votes, compares with the previous state,
/// and says what (if anything) storage must now hold.
pub fn run(config: &Config, bodies: &Vec<Result<String, Error>>, previous: Option<&Vec<u8>>) -> (r:
    Result<RunOutcome, Error>)
    requires
        bodies@.len() == config.methods@.len(),
        total_method_weight(config.methods@) <= u64::MAX,
    ensures
        ({
            let rs = resolved_entries(config.ip_version, config.methods@, bodies@);
            let old = old_addr_spec(
                config.ip_version,
                match previous {
                    Some(p) => Some(p@),
                    None => None,
                },
            );
            match r {
                Ok(out) => {
                    &&& rs.len() > 0
                    &&& is_winner(rs, out.address)
                    &&& out.updated == (old != Some(out.address))
                    &&& (match out.write_text {
                        Some(t) => old != Some(out.address) && t@ == ip_text(out.address),
                        None => old == Some(out.address),
                    })
                },
                Err(e) => rs.len() == 0 && e.source == ErrorSource::General,
            }
        }),
{
    let version = config.ip_version;
    let ghost methods0 = config.methods@;
    let ghost bodies0 = bodies@;
    let ghost all = resolved_entries(version, methods0, bodies0);
    let n = config.methods.len();
    let mut list: Vec<(Method, Result<IpAddress, Error>)> = Vec::new();
    proof {
        assert(methods0.subrange(0, n as int) =~= methods0);
        assert(bodies0.subrange(0, n as int) =~= bodies0);
        assert(resolved_of(list@) =~= Seq::<(IpAddress, u64)>::empty());
    }
    let mut i: usize = 0;
    while i < n
        invariant
            0 <= i <= n,
            n == config.methods@.len(),
            methods0 == config.methods@,
            bodies0 == bodies@,
            bodies0.len() == n,
            all == resolved_entries(version, methods0, bodies0),
            resolved_of(list@) + resolved_entries(
                version,
                methods0.subrange(i as int, n as int),
                bodies0.subrange(i as int, n as int),
            ) == all,
        decreases n - i,
    {
        let m = &config.methods[i];
        let outcome: Result<IpAddress, Error> = match &bodies[i] {
            Ok(b) => address_from_body(&version, m, b.as_str()),
            Err(e) => Err(Error::new(e.message().clone(), e.source())),
        };
        let ghost oldlist = list@;
        list.push((m.clone(), outcome));
        proof {
            let ms = methods0.subrange(i as int, n as int);
            let bs = bodies0.subrange(i as int, n as int);
            assert(ms[0] == methods0[i as int]);
            assert(bs[0] == bodies0[i as int]);
            assert(ms.drop_first() =~= methods0.subrange((i + 1) as int, n as int));
            assert(bs.drop_first() =~= bodies0.subrange((i + 1) as int, n as int));
            lemma_resolved_push(oldlist, (methods0[i as int], outcome));
            let head = match bodies0[i as int] {
                Ok(b) => match outcome_of(version, methods0[i as int], b@) {
                    Some(a) => seq![(a, methods0[i as int].spec_weight())],
                    None => Seq::<(IpAddress, u64)>::empty(),
                },
                Err(_) => Seq::<(IpAddress, u64)>::empty(),
            };
            assert(unit_of((methods0[i as int], outcome)) =~= head);
            assert(resolved_entries(version, ms, bs) == head + resolved_entries(
                version,
                ms.drop_first(),
                bs.drop_first(),
            ));
            assert(resolved_of(list@) + resolved_entries(
                version,
                methods0.subrange((i + 1) as int, n as int),
                bodies0.subrange((i + 1) as int, n as int),
            ) =~= all);
        }
        i = i + 1;
    }
    proof {
        assert(methods0.subrange(n as int, n as int) =~= Seq::<Method>::empty());
        assert(bodies0.subrange(n as int, n as int) =~= Seq::<Result<String, Error>>::empty());
        assert(resolved_of(list@) + Seq::<(IpAddress, u64)>::empty() =~= resolved_of(list@));
        assert(resolved_of(list@) == all);
        lemma_entries_weight_le(version, methods0, bodies0);
    }
    let address = match process_fetch_result(list) {
        Ok(a) => a,
        Err(e) => {
            return Err(e);
        },
    };
    let prev_ref: Option<&Vec<u8>> = match previous {
        Some(p) => Some(p),
        None => None,
    };
    let old = find_old_addr(&version, prev_ref);
    let write_text = output(&address, &old);
    let updated = write_text.is_some();
    Ok(RunOutcome { address, updated, write_text })
}

} // verus!
