//! The broker's configuration: defaults, and how raw environment values
//! resolve into a configuration.

use vstd::prelude::*;
use vstd::string::StrSliceExecFns;
use vstd::string::StringExecFns;

use crate::numeric::{parse_usize_chars, spec_parse_usize_chars};

verus! {

/// Immutable after load: who this node is, where it listens, where its data
/// lives, and how many clients it serves at once.
pub struct AppConfig {
    pub node_id: String,
    pub bind_addr: String,
    pub data_dir: String,
    pub max_connections: usize,
}

pub open spec fn default_node_id() -> Seq<char> {
    seq!['n', 'o', 'd', 'e', '-', '1']
}

pub open spec fn default_bind_addr() -> Seq<char> {
    seq!['[', ':', ':', ']', ':', '7', '0', '0', '1']
}

pub open spec fn default_data_dir() -> Seq<char> {
    seq!['.', '/', 'd', 'a', 't', 'a']
}

/// The default cap on concurrent connections.
pub const DEFAULT_MAX_CONNECTIONS: usize = 256;

impl Default for AppConfig {
    /// `node-1`, listening on `[::]:7001`, data under `./data`, at most 256
    /// concurrent connections.
    fn default() -> (c: AppConfig)
        ensures
            c.node_id@ == default_node_id(),
            c.bind_addr@ == default_bind_addr(),
            c.data_dir@ == default_data_dir(),
            c.max_connections == DEFAULT_MAX_CONNECTIONS,
    {
        proof {
            reveal_strlit("node-1");
            reveal_strlit("[::]:7001");
            reveal_strlit("./data");
            assert("node-1"@ =~= default_node_id());
            assert("[::]:7001"@ =~= default_bind_addr());
            assert("./data"@ =~= default_data_dir());
        }
        AppConfig {
            node_id: String::from_str("node-1"),
            bind_addr: String::from_str("[::]:7001"),
            data_dir: String::from_str("./data"),
            max_connections: 256,
        }
    }
}

/// What a raw connection-cap setting resolves to: its decimal value where it
/// reads as one, the default otherwise.
pub open spec fn spec_resolve_max_connections(raw: Option<Seq<char>>) -> usize {
    match raw {
        Some(s) => match spec_parse_usize_chars(s) {
            Some(v) => v,
            None => DEFAULT_MAX_CONNECTIONS as usize,
        },
        None => DEFAULT_MAX_CONNECTIONS as usize,
    }
}

impl AppConfig {
    /// Resolves raw environment values into a configuration: a value that is
    /// absent falls back to its default, and a connection cap that does not
    /// read as a decimal falls back to its default.
    pub fn resolve(
        bind_addr: Option<String>,
        data_dir: Option<String>,
        node_id: Option<String>,
        max_connections: Option<String>,
    ) -> (c: AppConfig)
        ensures
            c.bind_addr@ == match bind_addr {
                Some(s) => s@,
                None => default_bind_addr(),
            },
            c.data_dir@ == match data_dir {
                Some(s) => s@,
                None => default_data_dir(),
            },
            c.node_id@ == match node_id {
                Some(s) => s@,
                None => default_node_id(),
            },
            c.max_connections == spec_resolve_max_connections(
                match max_connections {
                    Some(s) => Some(s@),
                    None => None,
                },
            ),
    {
        let mut c = AppConfig::default();
        match bind_addr {
            Some(s) => {
                c.bind_addr = s;
            },
            None => {},
        }
        match data_dir {
            Some(s) => {
                c.data_dir = s;
            },
            None => {},
        }
        match node_id {
            Some(s) => {
                c.node_id = s;
            },
            None => {},
        }
        match max_connections {
            Some(s) => {
                let sl = s.as_str();
                let n = sl.unicode_len();
                match parse_usize_chars(sl, 0, n) {
                    Some(v) => {
                        proof {
                            assert(sl@.subrange(0, n as int) =~= s@);
                        }
                        c.max_connections = v;
                    },
                    None => {
                        proof {
                            assert(sl@.subrange(0, n as int) =~= s@);
                        }
                    },
                }
            },
            None => {},
        }
        c
    }
}

} // verus!
