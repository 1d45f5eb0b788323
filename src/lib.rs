//! A crash-tolerant scheduler for deferred one-shot tasks (event reminders
//! and poll closures), kept in a key-value store with a content map, a time
//! index and a set of reserved ids.
//!
//! - `task`: the tasks a job carries.
//! - `codec`: their stored form, with a proved round trip.
//! - `table`, `store`: the store, its commands, and a store kept in memory.
//! - `scheduler`: the operations, each a plan of commands that a store
//!   commits atomically, and a scheduler over the in-memory store.
//! - `laws`: properties of the operations, proved.
//! - `poll`, `notify`: what a claimed task does, one step at a time.
//! - `rng`, `text`, `sheets`: ids, text building, dates.

pub mod codec;
pub mod laws;
pub mod notify;
pub mod poll;
pub mod rng;
pub mod scheduler;
pub mod sheets;
pub mod store;
pub mod table;
pub mod task;
pub mod text;
