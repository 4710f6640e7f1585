//! A small runtime for a language of interacting stateful objects, driven by a
//! discrete-event scheduler.

pub mod algorithm;
pub mod ast;
pub mod data;
pub mod event;
pub mod frame;
pub mod instance;
pub mod item;
pub mod laws;
pub mod pairing;
pub mod prelude;
pub mod reference;
pub mod resting;
pub mod runtime;
pub mod semantics;
pub mod validity;
