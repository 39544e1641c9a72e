//! Admission control: a limit on concurrent connection handshakes,
//! consulted by the connection-accept path before a session entry is ever
//! created.

use vstd::prelude::*;

use crate::types::{Error, Listener};

verus! {

/// Admission control for one listener: `acquire` admits a connection only
/// while the number of concurrent handshakes is below the listener's limit.
pub struct Limiter {
    pub name: String,
    pub max_handshakings: isize,
}

impl Limiter {
    /// Admits one handshake attempt, or rejects it when the listener's
    /// concurrency limit is reached.  A negative limit admits everything.
    pub fn acquire(&self, handshakings: isize) -> (r: Result<(), Error>)
        ensures
            (r is Ok) == (self.max_handshakings < 0 || handshakings < self.max_handshakings),
            r is Err ==> r == Result::<(), Error>::Err(Error::LimitExceeded),
    {
        if self.max_handshakings < 0 || handshakings < self.max_handshakings {
            Ok(())
        } else {
            Err(Error::LimitExceeded)
        }
    }
}

/// Hands out the admission control configured for one listener.
pub struct LimiterManager {}

impl LimiterManager {
    pub fn new() -> (r: LimiterManager) {
        LimiterManager {  }
    }

    /// The admission control for the named listener, with that listener's limit.
    pub fn get(&self, name: String, listen_cfg: Listener) -> (r: Result<Limiter, Error>)
        ensures
            r is Ok,
            r matches Ok(l) ==> l.name@ == name@ && l.max_handshakings
                == listen_cfg.max_handshakings,
    {
        Ok(Limiter { name, max_handshakings: listen_cfg.max_handshakings })
    }
}

} // verus!
