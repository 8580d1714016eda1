//! Finite-state machines over `char` symbols.
//!
//! - [`nfa`]: nondeterministic automata with epsilon moves, their epsilon
//!   closure and word acceptance, and subset construction into a [`dfa`].
//! - [`dfa`]: deterministic automata with a partial transition function.
//! - [`regex`]: a Thompson-style compiler from patterns to automata.
//! - [`mealy`], [`moore`], [`transducer`]: machines that emit outputs.
//! - [`arena`], [`bits`], [`dfs`], [`item_set`]: supporting structures.

pub mod arena;
pub mod bits;
pub mod dfa;
pub mod dfs;
pub mod error;
pub mod item_set;
pub mod mealy;
pub mod moore;
pub mod nfa;
pub mod regex;
pub mod transducer;
