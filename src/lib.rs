//! A safe embedding layer over a stack-based, garbage-collected interpreter.
//!
//! The interpreter's own state that this layer governs (its operand stack, its
//! registry of pinned values and the objects they name) is modelled here as
//! plain data, and every operation is proved to keep the stack balanced, to
//! stay within the stack budget, and to keep pinned values alive.
//!
//! What the interpreter itself does is not held here: compiling and running
//! source text (loading a chunk, executing or evaluating it) belongs to its
//! compiler and virtual machine; floating-point numbers, and with them the
//! coercion of a value to a float, are left to it; and the conversion of host
//! types to and from interpreter values belongs to the conversion traits of
//! the host, which hand this library plain `Value`s.
pub mod value;
pub mod registry;
pub mod error;
pub mod heap;
pub mod lua;
pub mod create;
pub mod keys;
pub mod state;
pub mod callback;
pub mod userdata;
pub mod index;
pub mod scope;
pub mod coerce;
