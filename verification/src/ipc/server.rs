//! Connection statistics of the IPC server.

use vstd::prelude::*;

verus! {

/// Numbers of active and of closed connections.
#[derive(Debug)]
pub struct ServerStats {
    active_connections: usize,
    closed_connections: usize,
}

impl View for ServerStats {
    type V = (usize, usize);

    closed spec fn view(&self) -> (usize, usize) {
        (self.active_connections, self.closed_connections)
    }
}

impl ServerStats {
    /// No connection yet.
    pub fn new() -> (r: ServerStats)
        ensures
            r@ == (0usize, 0usize),
    {
        ServerStats { active_connections: 0, closed_connections: 0 }
    }

    /// A connection was established: one more active connection (wrapping).
    pub fn connection_created(&mut self)
        ensures
            final(self)@ == (old(self)@.0.wrapping_add(1), old(self)@.1),
    {
        self.active_connections = self.active_connections.wrapping_add(1);
    }

    /// A connection ended: one active connection less and one more closed (wrapping).
    pub fn connection_closed(&mut self)
        ensures
            final(self)@ == (old(self)@.0.wrapping_sub(1), old(self)@.1.wrapping_add(1)),
    {
        self.active_connections = self.active_connections.wrapping_sub(1);
        self.closed_connections = self.closed_connections.wrapping_add(1);
    }

    /// Active and closed connections.
    pub fn get(&self) -> (r: (usize, usize))
        ensures
            r == self@,
    {
        (self.active_connections, self.closed_connections)
    }
}

} // verus!
