//! Named symbols for computer algebra: every distinct name is stored once in
//! a register and handed out as a small, copyable, totally ordered handle.
//!
//! A [`SymbolRegister`] owns the names. A [`Symbol`] is a position in a
//! register; handles compare by position, that is, by the order in which
//! their names were first seen. [`SharedRegister`] puts a register behind a
//! reader/writer lock for use from several threads.
//!
//! # Example
//!
//! ```rust
//! use math_symbols::{Symbol, SymbolRegister};
//!
//! let mut register = SymbolRegister::new();
//! let x = Symbol::new("x", &mut register);
//! let y = Symbol::new("y", &mut register);
//! assert_eq!(x.name(&register), "x");
//!
//! // Symbols are identified by their names
//! let xx = Symbol::new("x", &mut register);
//! assert_eq!(x, xx);
//!
//! // Symbols are ordered by the time of their creation
//! assert!(x < y);
//! ```

pub mod model;
pub mod register;
pub mod shared;
pub mod symbol;
pub mod table;

pub use register::SymbolRegister;
pub use shared::SharedRegister;
pub use symbol::{symbols, Symbol};
