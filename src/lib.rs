//! Navigation back through recently checked-out branches: the branch-visit
//! history is rebuilt from checkout-log text, and shown as a boxed table.
use vstd::prelude::*;

pub mod cli;
pub mod color;
pub mod reflog;
pub mod table;
pub mod text;
