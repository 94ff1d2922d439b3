use vstd::prelude::*;

use crate::error::Error;
use crate::error::ErrorSource;

verus! {

/// Which address family a run resolves; fixed for a whole run.
#[derive(Clone, Copy, Debug, PartialEq, Eq, Structural)]
pub enum IpVersion {
    IPv4,
    IPv6,
}

impl Default for IpVersion {
    fn default() -> (r: Self)
        ensures
            r == IpVersion::IPv4,
    {
        IpVersion::IPv4
    }
}

impl IpVersion {
    /// The family's display name.
    pub fn text(&self) -> (r: String)
        ensures
            *self == IpVersion::IPv4 ==> r@ == "Ipv4"@,
            *self == IpVersion::IPv6 ==> r@ == "Ipv6"@,
    {
        match self {
            IpVersion::IPv4 => "Ipv4".to_owned(),
            IpVersion::IPv6 => "Ipv6".to_owned(),
        }
    }
}

/// One configured source: where to ask, how to extract, and its vote weight.
///
/// A weight is a plain non-negative integer; the unit is the caller's choice
/// (a caller holding fractional weights scales them to integers first).
#[derive(Debug)]
pub enum Method {
    Plain { url: String, regex: String, weight: u64 },
    Json { url: String, regex: String, path: String, weight: u64 },
}

impl Method {
    pub open spec fn spec_url(&self) -> Seq<char> {
        match self {
            Method::Plain { url, .. } => url@,
            Method::Json { url, .. } => url@,
        }
    }

    pub open spec fn spec_regex(&self) -> Seq<char> {
        match self {
            Method::Plain { regex, .. } => regex@,
            Method::Json { regex, .. } => regex@,
        }
    }

    pub open spec fn spec_weight(&self) -> u64 {
        match self {
            Method::Plain { weight, .. } => *weight,
            Method::Json { weight, .. } => *weight,
        }
    }

    pub fn url(&self) -> (r: &str)
        ensures
            r@ == self.spec_url(),
    {
        match self {
            Method::Plain { url, .. } => url.as_str(),
            Method::Json { url, .. } => url.as_str(),
        }
    }

    pub fn regex(&self) -> (r: &str)
        ensures
            r@ == self.spec_regex(),
    {
        match self {
            Method::Plain { regex, .. } => regex.as_str(),
            Method::Json { regex, .. } => regex.as_str(),
        }
    }

    pub fn weight(&self) -> (r: u64)
        ensures
            r == self.spec_weight(),
    {
        match self {
            Method::Plain { weight, .. } => *weight,
            Method::Json { weight, .. } => *weight,
        }
    }
}

impl Clone for Method {
    fn clone(&self) -> (r: Self)
        ensures
            r == *self,
    {
        match self {
            Method::Plain { url, regex, weight } => Method::Plain {
                url: url.clone(),
                regex: regex.clone(),
                weight: *weight,
            },
            Method::Json { url, regex, path, weight } => Method::Json {
                url: url.clone(),
                regex: regex.clone(),
                path: path.clone(),
                weight: *weight,
            },
        }
    }
}

/// A validated run configuration: the family and a non-empty source list.
#[derive(Debug)]
pub struct Config {
    pub ip_version: IpVersion,
    pub methods: Vec<Method>,
}

impl Config {
    pub open spec fn wf(&self) -> bool {
        self.methods.len() > 0
    }

    /// Accepts a configuration only when at least one source is given.
    pub fn validated(ip_version: IpVersion, methods: Vec<Method>) -> (r: Result<Config, Error>)
        ensures
            match r {
                Ok(c) => methods.len() > 0 && c.ip_version == ip_version && c.methods@
                    == methods@ && c.wf(),
                Err(e) => methods.len() == 0 && e.source == ErrorSource::General,
            },
    {
        if methods.len() == 0 {
            Err(Error::new("read_config: methods not found".to_owned(), ErrorSource::General))
        } else {
            Ok(Config { ip_version, methods })
        }
    }

    pub fn ip_version(&self) -> (r: &IpVersion)
        ensures
            *r == self.ip_version,
    {
        &self.ip_version
    }

    pub fn methods(&self) -> (r: &Vec<Method>)
        ensures
            r@ == self.methods@,
    {
        &self.methods
    }
}

/// Picks the working directory: the explicitly configured one when present,
/// else the process's current directory, else a failure. The caller resolves
/// both candidates; this chooses between them.
pub fn resolve_dir(env_dir: Option<String>, current_dir: Option<String>) -> (r: Result<
    String,
    Error,
>)
    ensures
        match r {
            Ok(d) => (match env_dir {
                Some(e) => d@ == e@,
                None => current_dir is Some && d@ == current_dir->0@,
            }),
            Err(e) => env_dir is None && current_dir is None && e.source == ErrorSource::General,
        },
{
    match env_dir {
        Some(d) => Ok(d),
        None => match current_dir {
            Some(d) => Ok(d),
            None => Err(Error::new("Directory not found".to_owned(), ErrorSource::General)),
        },
    }
}

/// The configuration file's path inside the working directory.
pub fn config_path(dir: &str) -> (r: String)
    ensures
        r@ == dir@ + "/globalip-config.json"@,
{
    let mut r = dir.to_owned();
    r.append("/globalip-config.json");
    r
}

/// The output file's path inside the working directory.
pub fn output_path(dir: &str) -> (r: String)
    ensures
        r@ == dir@ + "/globalip.txt"@,
{
    let mut r = dir.to_owned();
    r.append("/globalip.txt");
    r
}

} // verus!
