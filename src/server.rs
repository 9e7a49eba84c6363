//! The listening server's configuration and its single-start guard.

use vstd::prelude::*;
use crate::processor::{PacketRegistry, PacketProcessorRegistration, initialized, init_packet_processors};

verus! {

/// An IP address: four bytes for version 4, eight 16-bit groups for version 6.
#[derive(Clone, Copy, Debug, PartialEq, Eq)]
pub enum IpAddress {
    V4([u8; 4]),
    V6([u16; 8]),
}

/// Why the server refused to start.
#[derive(Clone, Copy, Debug, PartialEq, Eq, Structural)]
pub enum ServerError {
    /// The accept loop of this server was started already; a server runs it once.
    AlreadyRunning,
}

/// What the server's contracts speak of: its address, port and run flag.
pub struct ServerView {
    pub ip_address: IpAddress,
    pub port: u16,
    pub is_running: bool,
}

/// Starting the accept loop: allowed only if it is not running yet; either
/// way the server is running afterwards, at the same address and port.
pub open spec fn accept_transition(v: ServerView) -> (ServerView, bool) {
    (ServerView { ip_address: v.ip_address, port: v.port, is_running: true }, !v.is_running)
}

/// A TCP server bound to one address and port, whose accept loop runs at most once.
#[derive(Debug)]
pub struct DollNetworkServer {
    ip_address: IpAddress,
    port: u16,
    is_running: bool,
}

impl View for DollNetworkServer {
    type V = ServerView;

    closed spec fn view(&self) -> ServerView {
        ServerView { ip_address: self.ip_address, port: self.port, is_running: self.is_running }
    }
}

impl DollNetworkServer {
    /// A server for `ip_addr` and `port` that is not running.
    pub fn new(ip_addr: IpAddress, port: u16) -> (s: DollNetworkServer)
        ensures
            s@ == (ServerView { ip_address: ip_addr, port, is_running: false }),
    {
        DollNetworkServer { ip_address: ip_addr, port, is_running: false }
    }

    /// The address to listen on.
    pub fn ip_address(&self) -> (a: IpAddress)
        ensures
            a == self@.ip_address,
    {
        self.ip_address
    }

    /// The port to listen on.
    pub fn port(&self) -> (p: u16)
        ensures
            p == self@.port,
    {
        self.port
    }

    /// Whether the accept loop was started.
    pub fn is_running(&self) -> (r: bool)
        ensures
            r == self@.is_running,
    {
        self.is_running
    }

    /// Claims the accept loop: succeeds and marks the server running if it was
    /// not running, and is refused if it was.
    pub fn accept(&mut self) -> (r: Result<(), ServerError>)
        ensures
            (final(self)@, r is Ok) == accept_transition(old(self)@),
            r matches Err(e) ==> e == ServerError::AlreadyRunning,
    {
        if self.is_running {
            return Err(ServerError::AlreadyRunning);
        }
        self.is_running = true;
        Ok(())
    }

    /// Starts the server once: refused, touching nothing, if it is running;
    /// otherwise the packet registry is initialised from `registrations`
    /// before the server is marked running, so that no connection is accepted
    /// before the registry is filled.
    pub fn start<H: Copy>(
        &mut self,
        registry: &mut PacketRegistry<H>,
        registrations: &[PacketProcessorRegistration<H>],
    ) -> (r: Result<(), ServerError>)
        ensures
            (final(self)@, r is Ok) == accept_transition(old(self)@),
            r matches Err(e) ==> e == ServerError::AlreadyRunning,
            r is Ok ==> final(registry)@ == initialized(old(registry)@, registrations@),
            r is Err ==> final(registry)@ == old(registry)@,
    {
        if self.is_running {
            return Err(ServerError::AlreadyRunning);
        }
        init_packet_processors(registry, registrations);
        self.accept()
    }
}

/// Whatever came of a first start, a second start of the same server is refused.
pub proof fn lemma_second_accept_refused(v: ServerView)
    ensures
        !accept_transition(accept_transition(v).0).1,
{
}

} // verus!
