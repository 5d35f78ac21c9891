//! A graph-reduction virtual machine for interaction nets.
//!
//! Programs are graphs of small agents joined by wires. Evaluation repeatedly
//! takes two agents whose principal ports face each other and rewrites them by
//! a fixed rule table. Every function here is accompanied by a contract over a
//! mathematical model of the net, and the contracts are machine-checked.
//!
//! - `ptr`, `net`: pointers, the arena with its free list, ports and wires.
//! - `book`: templates of definitions and how they are copied into a net.
//! - `rules`, `run`: the rewrite rules and the drivers that apply them.
//! - `syntax`, `compile`: the notation, its parser and the compiler.
//! - `render`: reading a finished net as a picture.
//! - `laws`, `local`, `wires`, `sound`: what the rules keep true of every net.
//! - `closed`, `tidy`: what the compiler makes true of every template.

pub mod error;
pub mod ptr;
pub mod net;
pub mod book;
pub mod rules;
pub mod run;
pub mod laws;
pub mod local;
pub mod wires;
pub mod sound;
pub mod syntax;
pub mod compile;
pub mod closed;
pub mod tidy;
pub mod render;
