//! Limits that a Flap run is held to (read from `flap.toml` by the command-line tool).
use vstd::prelude::*;

verus! {

/// Resource limits of a run.
#[derive(Debug, Clone, Copy, PartialEq, Eq)]
pub struct Config {
    /// Time limit in milliseconds.
    pub time_limit: u64,
    /// Most values the stack may hold.
    pub stack_size: usize,
    /// Most bytes a program may print.
    pub output_size: usize,
    /// The clock is read every this many steps.
    pub time_check_interval: u64,
}

/// The default time limit: 2000 ms.
pub fn default_time_limit() -> (r: u64)
    ensures
        r == 2000,
{
    2000
}

/// The default stack limit: 128 Ki values (1 MiB of `i64`).
pub fn default_stack_size() -> (r: usize)
    ensures
        r == 131072,
{
    1024 * 1024 / 8
}

/// The default output limit: 1 MiB.
pub fn default_output_size() -> (r: usize)
    ensures
        r == 1048576,
{
    1024 * 1024
}

/// The default number of steps between two readings of the clock.
pub fn default_time_check_interval() -> (r: u64)
    ensures
        r == 1000,
{
    1000
}

impl Default for Config {
    fn default() -> (c: Self)
        ensures
            c.time_limit == 2000,
            c.stack_size == 131072,
            c.output_size == 1048576,
            c.time_check_interval == 1000,
    {
        Config {
            time_limit: default_time_limit(),
            stack_size: default_stack_size(),
            output_size: default_output_size(),
            time_check_interval: default_time_check_interval(),
        }
    }
}

} // verus!
