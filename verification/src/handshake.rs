use vstd::prelude::*;
use std::time::Duration;

verus! {

/// How long a handshake may take before it is abandoned.
#[derive(Clone, Copy)]
pub struct HandshakeTimer {
    duration: Duration,
}

impl HandshakeTimer {
    pub closed spec fn spec_duration(&self) -> Duration {
        self.duration
    }

    pub fn new(duration: Duration) -> (r: HandshakeTimer)
        ensures
            r.spec_duration() == duration,
    {
        HandshakeTimer { duration }
    }

    /// The time a handshake is given; the caller waits it out.
    pub fn duration(&self) -> (r: Duration)
        ensures
            r == self.spec_duration(),
    {
        self.duration
    }
}

/// Connections made over TCP.
#[derive(Debug)]
pub struct TcpTransport;

/// Connections made over uTP.
#[derive(Debug)]
pub struct UtpTransport;

} // verus!
