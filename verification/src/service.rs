//! The listener's decisions: what of the configuration it runs on, when a
//! new connection is turned away, and when finished client tasks are pruned.

use vstd::prelude::*;

use crate::config::AppConfig;

verus! {

/// Every this many accepted connections, the retained task handles are
/// swept for finished ones.
pub const PRUNE_INTERVAL: u64 = 64;

/// What the accept loop runs on.
pub struct Service {
    pub bind_addr: String,
    pub max_connections: usize,
    pub data_dir: String,
}

impl Service {
    /// Takes the listener's parameters from the configuration.
    pub fn new(conf: &AppConfig) -> (s: Service)
        ensures
            s.bind_addr@ == conf.bind_addr@,
            s.max_connections == conf.max_connections,
            s.data_dir@ == conf.data_dir@,
    {
        Service {
            bind_addr: conf.bind_addr.clone(),
            max_connections: conf.max_connections,
            data_dir: conf.data_dir.clone(),
        }
    }

    /// Whether a new connection must be turned away: the cap counts the
    /// retained client tasks.
    pub fn at_capacity(&self, live_clients: usize) -> (r: bool)
        ensures
            r == (live_clients >= self.max_connections),
    {
        live_clients >= self.max_connections
    }
}

/// Whether this accept (counted from 1) is one on which the finished task
/// handles are pruned: every `PRUNE_INTERVAL`-th accept.
pub fn should_prune(accept_count: u64) -> (r: bool)
    ensures
        r == (accept_count % PRUNE_INTERVAL == 0),
{
    accept_count % PRUNE_INTERVAL == 0
}

} // verus!
