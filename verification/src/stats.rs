//! The broker's counters: acknowledged and rejected produces, durability
//! failures, connections, and the id generator.

use vstd::prelude::*;

verus! {

/// Monotonic counters. The surrounding process shares one instance among its
/// connection tasks; every change goes through the methods below.
pub struct Stats {
    pub ack: u64,
    pub nack: u64,
    pub err_wal: u64,
    pub connections: u64,
    pub next_id: u64,
}

impl Default for Stats {
    /// All counters start at zero.
    fn default() -> (s: Stats)
        ensures
            s.ack == 0 && s.nack == 0 && s.err_wal == 0 && s.connections == 0 && s.next_id == 0,
    {
        Stats { ack: 0, nack: 0, err_wal: 0, connections: 0, next_id: 0 }
    }
}

impl Stats {
    /// Issues the next produce id: each call returns the count of ids issued
    /// before it, so ids are issued in strictly increasing order.
    pub fn new_id(&mut self) -> (id: u64)
        requires
            old(self).next_id < u64::MAX,
        ensures
            id == old(self).next_id,
            final(self).next_id == old(self).next_id + 1,
            final(self).ack == old(self).ack,
            final(self).nack == old(self).nack,
            final(self).err_wal == old(self).err_wal,
            final(self).connections == old(self).connections,
    {
        let id = self.next_id;
        self.next_id = self.next_id + 1;
        id
    }

    pub fn inc_ack(&mut self)
        requires
            old(self).ack < u64::MAX,
        ensures
            final(self).ack == old(self).ack + 1,
            final(self).nack == old(self).nack,
            final(self).err_wal == old(self).err_wal,
            final(self).connections == old(self).connections,
            final(self).next_id == old(self).next_id,
    {
        self.ack = self.ack + 1;
    }

    pub fn inc_nack(&mut self)
        requires
            old(self).nack < u64::MAX,
        ensures
            final(self).nack == old(self).nack + 1,
            final(self).ack == old(self).ack,
            final(self).err_wal == old(self).err_wal,
            final(self).connections == old(self).connections,
            final(self).next_id == old(self).next_id,
    {
        self.nack = self.nack + 1;
    }

    pub fn inc_err_wal(&mut self)
        requires
            old(self).err_wal < u64::MAX,
        ensures
            final(self).err_wal == old(self).err_wal + 1,
            final(self).ack == old(self).ack,
            final(self).nack == old(self).nack,
            final(self).connections == old(self).connections,
            final(self).next_id == old(self).next_id,
    {
        self.err_wal = self.err_wal + 1;
    }

    pub fn inc_connections(&mut self)
        requires
            old(self).connections < u64::MAX,
        ensures
            final(self).connections == old(self).connections + 1,
            final(self).ack == old(self).ack,
            final(self).nack == old(self).nack,
            final(self).err_wal == old(self).err_wal,
            final(self).next_id == old(self).next_id,
    {
        self.connections = self.connections + 1;
    }

    /// The counters, in the order they are reported: acks, nacks, durability
    /// failures, connections.
    pub fn snapshot(&self) -> (r: (u64, u64, u64, u64))
        ensures
            r.0 == self.ack,
            r.1 == self.nack,
            r.2 == self.err_wal,
            r.3 == self.connections,
    {
        (self.ack, self.nack, self.err_wal, self.connections)
    }
}

} // verus!
