//! A fine-grained reactive runtime: mutable reactive cells (signals), cached
//! derived computations (memos), and eagerly scheduled side-effecting
//! subscribers (effects), all owned by a hierarchy of disposable scopes.
//!
//! Computations are written in a closed expression language ([`expr::Expr`])
//! rather than as opaque closures, so that the scheduler's guarantees --
//! glitch-free propagation, batching, and safe bulk teardown -- can be stated
//! as contracts and proved.

pub mod expr;
pub mod html;
pub mod runtime;
pub mod setter;
pub mod title;
