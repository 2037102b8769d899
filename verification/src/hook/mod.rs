//! The display hook: what a finished message is worth polishing, what a
//! rewrite changed, how one message's batches are named, kept and replayed,
//! and how an A/B trial is drawn and laid out.

pub mod ab;
pub mod batch;
pub mod event;
pub mod json;
pub mod parts;
pub mod render;
pub mod state;
