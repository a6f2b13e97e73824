use vstd::prelude::*;

pub mod bytemap;
pub mod bytes;
pub mod command;
pub mod connection_;
pub mod radix_laws;
pub mod radx;
pub mod reply;
pub mod resp;
pub mod store;

verus! {
}
