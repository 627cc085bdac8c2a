//! A dataflow task graph: resources and tasks wired by edges that say how
//! each task uses what it depends on, run in an order that respects the
//! edges, with every step proved against a model of what running means.
//!
//! The crate also holds a small tokenizer for a function language.

pub mod arbiter;
pub mod args;
pub mod error;
pub mod executor;
pub mod graph;
pub mod guards;
pub mod handle;
pub mod lexer;
pub mod model;
pub mod node;
pub mod scheduler;
pub mod value;

pub use crate::arbiter::{Access, LockState};
pub use crate::args::Args;
pub use crate::error::{ExecutionError, ReceiveError};
pub use crate::executor::Executor;
pub use crate::guards::{Expect, Guard, ReadGuard, RwGuards, WriteGuard};
pub use crate::handle::{Edge, Read, ResourceHandle, TaskHandle, Write};
pub use crate::lexer::{lex, parse, ParseError, Token, TokenStream, TokenType};
pub use crate::model::Dependency;
pub use crate::node::{Inputs, Node, NodeType, TaskData, TaskNode};
pub use crate::value::{Erasable, ErasedValue, TypeTag};
