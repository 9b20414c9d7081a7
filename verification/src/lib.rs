//! `nix-pretty` wraps a shell in a pseudo-terminal and collapses every Nix
//! store path that the shell prints to the short form `nix:`.
//!
//! * [`grammar`] says what a store path is and what rewriting a text means.
//! * [`rewriter`] is the streaming rewriter.
//! * [`pipe`] decides, step by step, how a stream is pumped through it.
//! * [`session`] makes the other decisions of a wrapped shell session.
//! * [`laws`] states what holds of all this for every input; [`meaning`] says it
//!   of plain bytes, arguments and codes; [`lemmas`] holds what the proofs share.
//!
//! Reading, writing and the pseudo-terminal itself are the caller's.
pub mod grammar;
pub mod laws;
pub mod lemmas;
pub mod meaning;
pub mod pipe;
pub mod rewriter;
pub mod session;

pub use pipe::pipe_through;
pub use rewriter::PathRewriter;
