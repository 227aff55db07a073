//! Control of the media players that announce themselves on a session bus:
//! which bus names are players, which player outranks the others, and which
//! bus call a requested action amounts to.
//!
//! The library only decides. Talking to the bus is left to the caller, who
//! hands in the names the bus lists and carries out the call that comes back.

pub mod bus_name;
pub mod priority;
pub mod offset;
pub mod dispatch;
