mod addr;
mod config;
mod consensus;
mod error;
mod json;
mod pattern;
mod pipeline;
mod state;

pub use addr::IpAddress;
pub use addr::V4Addr;
pub use addr::V6Addr;
pub use config::Config;
pub use config::IpVersion;
pub use config::Method;
pub use error::Error;
pub use error::ErrorSource;
pub use addr::parse_ip;
pub use addr::format_ip;
pub use config::config_path;
pub use config::output_path;
pub use config::resolve_dir;
pub use consensus::process_fetch_result;
pub use json::flatten;
pub use json::parse_document;
pub use json::parse_json;
pub use json::JsonValue;
pub use pattern::extract_ip;
pub use pipeline::address_from_body;
pub use pipeline::run;
pub use pipeline::RunOutcome;
pub use state::find_old_addr;
pub use state::output;
