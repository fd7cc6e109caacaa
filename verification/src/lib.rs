//! A storage-tier router: an ordered stack of tiers, read and written under
//! an explicit policy.
//!
//! [`router::Router`] executes, [`policy::Policy`] decides. The same router is
//! an inclusive read-through cache, an exclusive rollover cache or a plain
//! fallback chain depending only on policy; [`store::TieredStore`] is the
//! preset that answers for the data itself. Routers and stores are tiers
//! themselves, so hierarchies compose.

pub mod codec;
pub mod conduct;
pub mod disk;
pub mod error;
pub mod feed;
pub mod laws;
pub mod limited;
pub mod mapped;
pub mod names;
pub mod offload;
pub mod outcomes;
pub mod policy;
pub mod read;
pub mod remote;
pub mod replay;
pub mod report;
pub mod router;
pub mod single_flight;
pub mod slot;
pub mod stack;
pub mod store;
pub mod table;
pub mod text;
pub mod tier;
pub mod verified;
pub mod wake;
