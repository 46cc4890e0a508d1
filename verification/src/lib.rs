// The logic of an interactive SQL shell and table dumper: splitting input
// into statements, rendering result tables, the session's state machine and
// the command line. Reading input, the database and printing stay outside.
use vstd::prelude::*;

pub mod catalog;
pub mod cli;
pub mod dump;
pub mod output;
pub mod session;
pub mod sql;
pub mod table;
pub mod text;

verus! {

} // verus!
