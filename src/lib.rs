//! A reactive view layer over an ordered key-value store: stages derive
//! views from a base store, and materializations keep copies of them up to
//! date as the base changes.
//!
//! - [`event`]: the changes that flow between stages.
//! - [`stage`]: what each stage emits for an upstream change, and what it
//!   answers when read; with the laws that keep a store fed by a stage equal
//!   to the stage's view.
//! - [`order`]: how a chain or a zip combines its sides' ordered answers.
//! - [`write`]: stages that rewrite inserts before they reach a store.
//! - [`loaded`]: an ordered store kept in memory.
//! - [`index`]: materialized indexes and transforms, with forward and
//!   backward maps whose positions stay valid across unrelated changes.
//! - [`stable_vec`]: the array with stable positions those maps hold.
//! - [`sync`]: the counters that tell when every event has gone through.
//! - [`serial`]: the byte codec for keys and values.
//! - [`auto_inc`]: keys handed out in sequence.

pub mod auto_inc;
pub mod event;
pub mod index;
pub mod loaded;
pub mod order;
pub mod serial;
pub mod stable_vec;
pub mod stage;
pub mod sync;
pub mod write;

pub use event::Event;
pub use stable_vec::StableVec;
