//! A local HTTPS forwarding proxy: routes requests by host and path to
//! on-demand tunnels into a cluster, and keeps the hosts file in step.
use vstd::prelude::*;

pub mod hosts;
pub mod text;
pub mod kubernetes;
pub mod cli;
pub mod descriptor;
pub mod forwarding;
pub mod hostnames;
pub mod router;

verus! {

} // verus!
