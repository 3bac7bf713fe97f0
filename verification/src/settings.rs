use vstd::prelude::*;

verus! {

/// How many seconds old a command may be and still be accepted.
pub const ACCEPTABLE_EPOCH: u64 = 120;

/// How many redirects a connection attempt follows at most.
pub const REDIR_LIMIT: i64 = 10;

/// Whether the terminal interface is on.
pub const ENABLE_TUI: bool = true;

} // verus!
