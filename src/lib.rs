//! A DHCP server core: the packet codec, the policy tree, the address pool
//! and the request dispatcher, with a DNS packet parser beside them.

use vstd::prelude::*;

pub mod packet;
pub mod policy;
pub mod pool;
pub mod dhcp;
pub mod dns;

verus! {

} // verus!
