//! A resource-injection runtime: a store of singleton resources keyed by
//! type identity, capability accessors that request shared or exclusive use
//! of one resource, handlers bound to an ordered list of such requests, and
//! a scheduler that runs handlers under named phase labels.
//!
//! The store holds at most one value per [`capability::TypeKey`]; re-adding
//! a key replaces the prior value.  A handler declares its parameters once,
//! at registration; every run resolves them left to right against the
//! current store, with a runtime borrow check: any number of shared
//! requests for one key may coexist, an exclusive request tolerates no
//! other request for the same key.  A failed resolution aborts before the
//! handler body runs.  Schedules run their handlers in registration order.

pub mod app;
pub mod assets;
pub mod capability;
pub mod events;
pub mod handler;
pub mod prelude;
pub mod resources;
pub mod schedule;
pub mod state;
pub mod window;
