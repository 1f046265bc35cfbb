//! A compiler and virtual machine for an eight-instruction tape language.
//!
//! Source text is folded into a short operation sequence by a peephole
//! optimiser, its loops are linked by index, and the result is run on a
//! bounded tape of signed bytes through a character channel.
//!
//! `ops` holds the operations and what a well-formed program is, `compiler`
//! the optimiser and the linker, `channel` the character channels, `machine`
//! the virtual machine and its step semantics. `laws` states what holds of
//! them together; `groups`, `partners` and `simulation` carry the proof that
//! the optimiser does not change what a program does.

pub mod ops;
pub mod compiler;
pub mod channel;
pub mod machine;
pub mod laws;
pub mod groups;
pub mod partners;
pub mod simulation;
