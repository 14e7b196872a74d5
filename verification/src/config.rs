//! Configuration of the headless proxy service: every setting comes from an
//! environment variable, with a default for each.

use vstd::prelude::*;
use crate::chain_correlation::opt_view;
use crate::chains::{non_empty, non_empty_value};
use crate::text::{join_path, join_path_spec, parse_unsigned, parse_unsigned_spec};

verus! {

/// The upstream server when none is configured: the LLM server itself.
pub const DEFAULT_UPSTREAM_BASE_URL: &'static str = "http://127.0.0.1:8000";
/// The port the proxy listens on when none is configured.
pub const DEFAULT_PORT: u16 = 8088;

/// Settings of the proxy service.
#[derive(Debug, Clone)]
pub struct Config {
    /// Base URL of the upstream server that `/v1/*` traffic goes to.
    pub upstream_base_url: String,
    /// Port of the local reverse proxy.
    pub port: u16,
    /// API key for the admin session; `None` leaves the session to be
    /// opened by hand.
    pub api_key: Option<String>,
    /// Directory of the request history (`requests.jsonl`).
    pub data_dir: String,
}

/// The data directory when none is configured:
/// `$HOME/Library/Application Support/myllm-proxy-service`, with `/` for
/// a missing home.
pub open spec fn default_data_dir_spec(home: Option<Seq<char>>) -> Seq<char> {
    let h = match home {
        Some(h) => h,
        None => "/"@,
    };
    join_path_spec(
        join_path_spec(join_path_spec(h, "Library"@), "Application Support"@),
        "myllm-proxy-service"@,
    )
}

/// The data directory when none is configured (see
/// [`default_data_dir_spec`]).
pub fn default_data_dir(home: Option<String>) -> (r: String)
    ensures
        r@ == default_data_dir_spec(opt_view(home)),
{
    let h = match home {
        Some(h) => h,
        None => "/".to_owned(),
    };
    let a = join_path(h.as_str(), "Library");
    let b = join_path(a.as_str(), "Application Support");
    join_path(b.as_str(), "myllm-proxy-service")
}

/// The configured port: the variable's value when it reads as a `u16`,
/// else [`DEFAULT_PORT`].
pub open spec fn port_spec(port: Option<Seq<char>>) -> u16 {
    match port {
        Some(p) => match parse_unsigned_spec(p, u16::MAX as nat) {
            Some(v) => v as u16,
            None => DEFAULT_PORT,
        },
        None => DEFAULT_PORT,
    }
}

impl Config {
    /// The configuration given the values of the environment variables
    /// `MYLLM_PROXY_UPSTREAM_URL`, `MYLLM_PROXY_PORT`, `OMLX_API_KEY`,
    /// `MYLLM_PROXY_DATA_DIR` and `HOME` (`None` for an unset one). An empty
    /// value counts as unset, and a port that does not read as a number
    /// falls back to the default; this never fails.
    pub fn from_env(
        upstream_url: Option<String>,
        port: Option<String>,
        api_key: Option<String>,
        data_dir: Option<String>,
        home: Option<String>,
    ) -> (r: Config)
        ensures
            r.upstream_base_url@ == match non_empty(opt_view(upstream_url)) {
                Some(u) => u,
                None => DEFAULT_UPSTREAM_BASE_URL@,
            },
            r.port == port_spec(opt_view(port)),
            opt_view(r.api_key) == non_empty(opt_view(api_key)),
            r.data_dir@ == match non_empty(opt_view(data_dir)) {
                Some(d) => d,
                None => default_data_dir_spec(opt_view(home)),
            },
    {
        let upstream_base_url = match non_empty_value(upstream_url) {
            Some(u) => u,
            None => DEFAULT_UPSTREAM_BASE_URL.to_owned(),
        };
        let port = match port {
            Some(p) => match parse_unsigned(p.as_str(), u16::MAX as u64) {
                Some(v) => v as u16,
                None => DEFAULT_PORT,
            },
            None => DEFAULT_PORT,
        };
        let data_dir = match non_empty_value(data_dir) {
            Some(d) => d,
            None => default_data_dir(home),
        };
        Config { upstream_base_url, port, api_key: non_empty_value(api_key), data_dir }
    }
}

} // verus!
