//! Actinium-Actor: a lightweight actor framework.
//!
//! This crate holds the framework's logic, each part with its contract:
//! - `actor`: actor identities and the `Actor`, `Handler` and `Message` traits;
//! - `context`: what a handler sees of its actor (id, stop request, runtime link);
//! - `scheduler`: per-worker mailboxes with fair round-robin dispatch;
//! - `spawner`: id allocation, round-robin worker choice and per-worker actor tables;
//! - `stateful`: actors that cycle through a fixed sequence of states;
//! - `supervisor`: restart strategies for failing children;
//! - `addr`: the errors of message delivery;
//! - `seqs`: facts about filtering sequences of actor ids.

pub mod actor;
pub mod addr;
pub mod context;
pub mod scheduler;
pub mod seqs;
pub mod spawner;
pub mod stateful;
pub mod supervisor;

pub use actor::{Actor, ActorId, Handler, Message};
pub use addr::SendError;
pub use context::{Context, Recipient};
pub use stateful::{StateHandler, StateMachine};
pub use supervisor::{ChildFactory, Strategy, Supervisor};
