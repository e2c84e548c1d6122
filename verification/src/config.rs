//! The relay's configuration and its validation rules.

use vstd::prelude::*;

verus! {

/// Why a configuration was rejected, in the order the checks run.
#[derive(Debug, Clone, Copy, PartialEq, Eq, Structural)]
pub enum ConfigError {
    /// The list of listen ports is empty.
    NoListenPorts,
    /// The list of destination addresses is empty.
    NoTargets,
    /// A listen port is zero.
    InvalidPort(u16),
}

/// The relay's configuration: the ports to listen on and the destination
/// addresses to forward to, each address kept as its textual form.
#[derive(Debug, Clone)]
pub struct Config {
    pub listen_ports: Vec<u16>,
    pub targets: Vec<String>,
}

/// A configuration the relay can start with: both lists non-empty and no
/// zero port.
pub open spec fn config_valid(ports: Seq<u16>, n_targets: nat) -> bool {
    &&& ports.len() > 0
    &&& n_targets > 0
    &&& (forall|i: int| 0 <= i < ports.len() ==> ports[i] != 0)
}

impl Config {
    /// Accepts exactly the valid configurations, and names the first
    /// failure found: an empty port list, then an empty target list, then
    /// a zero port.
    #[verifier::loop_isolation(false)]
    pub fn validate(&self) -> (r: Result<(), ConfigError>)
        ensures
            r is Ok <==> config_valid(self.listen_ports@, self.targets@.len()),
            r == Err::<(), ConfigError>(ConfigError::NoListenPorts) <==> self.listen_ports@.len()
                == 0,
            r == Err::<(), ConfigError>(ConfigError::NoTargets) <==> self.listen_ports@.len() > 0
                && self.targets@.len() == 0,
            r == Err::<(), ConfigError>(ConfigError::InvalidPort(0)) <==> (
            self.listen_ports@.len() > 0 && self.targets@.len() > 0 && exists|i: int|
                0 <= i < self.listen_ports@.len() && self.listen_ports@[i] == 0),
    {
        if self.listen_ports.len() == 0 {
            return Err(ConfigError::NoListenPorts);
        }
        if self.targets.len() == 0 {
            return Err(ConfigError::NoTargets);
        }
        let mut i: usize = 0;
        while i < self.listen_ports.len()
            invariant
                i <= self.listen_ports@.len(),
                forall|j: int| 0 <= j < i ==> self.listen_ports@[j] != 0,
            decreases self.listen_ports@.len() - i,
        {
            if self.listen_ports[i] == 0 {
                return Err(ConfigError::InvalidPort(self.listen_ports[i]));
            }
            i = i + 1;
        }
        Ok(())
    }
}

} // verus!
