//! The reorder buffer: a program-order log of in-flight instructions.

use vstd::prelude::*;

verus! {

/// One reorder-buffer entry. `inst_ind` is the trace position of the
/// instruction, `rs_ind` the reservation station it was dispatched to, `t`
/// the freshly assigned destination tag and `t_old` the tag the destination
/// register carried before (each absent when there is no destination).
///
/// The four timestamps record the cycle at which the entry issued, started
/// executing, completed and retired; zero means "not yet".
#[derive(Clone, Copy, Debug)]
pub struct ROBEntry {
    pub inst_ind: usize,
    pub rs_ind: usize,
    pub t: Option<u32>,
    pub t_old: Option<u32>,
    pub issued_at: u32,
    pub execute_started_at: u32,
    pub completed_at: u32,
    pub retired_at: u32,
}

impl ROBEntry {
    /// A freshly dispatched entry: tags recorded, no stage reached yet.
    pub fn new(inst_ind: usize, rs_ind: usize, t: Option<u32>, t_old: Option<u32>) -> (r:
        ROBEntry)
        ensures
            r == (ROBEntry {
                inst_ind,
                rs_ind,
                t,
                t_old,
                issued_at: 0,
                execute_started_at: 0,
                completed_at: 0,
                retired_at: 0,
            }),
    {
        ROBEntry {
            inst_ind,
            rs_ind,
            t,
            t_old,
            issued_at: 0,
            execute_started_at: 0,
            completed_at: 0,
            retired_at: 0,
        }
    }
}

/// The reorder buffer. Entries are appended at the tail only and retired
/// from the head only; retired entries stay in storage but are no longer
/// live. `tail` is the index of the last filled slot, or absent before the
/// first dispatch.
pub struct ROB {
    pub entries: Vec<ROBEntry>,
    pub max_entries: usize,
    pub head: usize,
    pub tail: Option<usize>,
}

impl ROB {
    /// An empty reorder buffer of the given capacity.
    pub fn new(rob_size: usize) -> (r: ROB)
        ensures
            r.entries@ == Seq::<ROBEntry>::empty(),
            r.max_entries == rob_size,
            r.head == 0,
            r.tail is None,
    {
        let entries: Vec<ROBEntry> = Vec::with_capacity(rob_size);
        ROB { entries, max_entries: rob_size, head: 0, tail: None }
    }
}

} // verus!
