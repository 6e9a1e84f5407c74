//! The run's options, and the capture configuration they stand for. The
//! cosmetic knobs (time columns, uid column, name filter) belong to the
//! external formatter and never affect capture.

use vstd::prelude::*;

use crate::probes::{cfg_wf, Config};
use crate::record::{DEFAULT_MAX_ARGS, TOTAL_MAX_ARGS, UID_ALL};

verus! {

/// A `bool` carried across the loader boundary as one plain byte.
#[derive(Clone, Copy)]
pub struct Bool(pub bool);

/// Trace exec syscalls: the options of one run, set once at startup.
pub struct Args {
    /// Include time column on output (HH:MM:SS).
    pub time: bool,
    /// Include timestamp on output.
    pub timestamp: bool,
    /// Include failed execs.
    pub fails: bool,
    /// Trace this uid only; [`UID_ALL`] traces every caller.
    pub uid: u32,
    /// Only print commands matching this name.
    pub name: Option<String>,
    /// Print uid column.
    pub print_uid: bool,
    /// Maximum number of arguments parsed and displayed.
    pub max_args: u32,
}

impl Args {
    /// The defaults a bare command line stands for: every uid traced, the
    /// default argument maximum, failed execs dropped.
    pub fn new() -> (a: Args)
        ensures
            !a.time,
            !a.timestamp,
            !a.fails,
            a.uid == UID_ALL,
            a.name is None,
            !a.print_uid,
            a.max_args == DEFAULT_MAX_ARGS,
    {
        Args {
            time: false,
            timestamp: false,
            fails: false,
            uid: UID_ALL,
            name: None,
            print_uid: false,
            max_args: DEFAULT_MAX_ARGS,
        }
    }

    /// The capture configuration these options stand for.
    pub fn config(&self) -> (c: Config)
        requires
            1 <= self.max_args <= TOTAL_MAX_ARGS,
        ensures
            c.targ_uid == self.uid,
            c.max_args == self.max_args,
            c.include_failed == self.fails,
            cfg_wf(c),
    {
        Config { targ_uid: self.uid, max_args: self.max_args, include_failed: self.fails }
    }
}

} // verus!
