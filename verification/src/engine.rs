//! The renaming/scheduling engine: map table, free list, reservation
//! stations, reorder buffer, and the five pipeline-stage procedures.
//!
//! The well-formedness invariant `wf` carries the central safety property:
//! the free-list tags, the map-table tags and the displaced (`t_old`) tags of
//! live reorder-buffer entries partition the physical tag space, so a tag is
//! never owned twice, and the fresh tag of a live entry is never in the free
//! list.

use std::collections::VecDeque;

use vstd::pervasive::VecAdditionalExecFns;
use vstd::prelude::*;

use crate::inst::Inst;
use crate::reg::{PReg, VReg};
use crate::rob::{ROB, ROBEntry};

verus! {

/// A reservation station slot: a functional-unit-typed bay that holds, while
/// busy, the destination tag and value snapshots of the two operand tags of
/// one in-flight instruction. The descriptor fields `fu_type`, `fu_num` and
/// `rs_num` are fixed at construction.
#[derive(Clone, Copy, Debug)]
pub struct ResStationEntry {
    pub fu_type: u32,
    pub fu_num: u32,
    pub rs_num: u32,
    pub busy: bool,
    pub t: Option<u32>,
    pub t1: Option<PReg>,
    pub t2: Option<PReg>,
}

/// The simulator: all renaming state plus the trace, the current cycle and
/// the index of the next undispatched trace instruction.
pub struct OOOSim {
    pub rob: ROB,
    pub arch_regs: Vec<VReg>,
    pub map_table: Vec<PReg>,
    pub free_list: VecDeque<u32>,
    pub res_stations: Vec<ResStationEntry>,
    pub trace: Vec<Inst>,
    pub cycle: u32,
    pub trace_ind: usize,
    pub num_p_regs: u32,
}

impl OOOSim {
    /// Entry `j` is live: dispatched and not yet retired.
    pub open spec fn live(self, j: int) -> bool {
        self.rob.head <= j < self.rob.entries@.len()
    }

    /// Tag `t` waits in the free list.
    pub open spec fn fl_has(self, t: u32) -> bool {
        self.free_list@.contains(t)
    }

    /// Tag `t` currently backs some architectural register.
    pub open spec fn mt_has(self, t: u32) -> bool {
        exists|i: int|
            0 <= i < self.map_table@.len() && (#[trigger] self.map_table@[i]).num == t
    }

    /// Tag `t` is the displaced tag of some live entry, held until that
    /// entry retires.
    pub open spec fn old_has(self, t: u32) -> bool {
        exists|j: int|
            self.live(j) && (#[trigger] self.rob.entries@[j]).t_old == Some(t)
    }

    /// The fresh tag of entry `j` is accounted for: it either still backs
    /// its destination register in the map table, or it was displaced again
    /// by a younger live entry and is held as that entry's `t_old`.
    pub open spec fn new_tag_covered(self, j: int) -> bool {
        match self.rob.entries@[j].t {
            Some(t) => self.mt_has(t) || exists|m: int|
                j < m && self.live(m) && (#[trigger] self.rob.entries@[m]).t_old == Some(t),
            None => true,
        }
    }

    /// Shape of the reorder buffer: entries are the trace prefix in program
    /// order, the head counts the retired prefix, occupancy never exceeds
    /// capacity, and the tail marks the last filled slot.
    pub open spec fn inv_rob(self) -> bool {
        let es = self.rob.entries@;
        &&& self.rob.head <= es.len()
        &&& es.len() - self.rob.head <= self.rob.max_entries
        &&& (es.len() == 0 <==> self.rob.tail is None)
        &&& (es.len() > 0 ==> self.rob.tail == Some((es.len() - 1) as usize))
        &&& self.trace_ind == es.len()
        &&& self.trace_ind <= self.trace@.len()
        &&& forall|j: int| 0 <= j < es.len() ==> (#[trigger] es[j]).inst_ind == j
        &&& forall|j: int|
            0 <= j < es.len() ==> (#[trigger] es[j]).rs_ind < self.res_stations@.len()
        &&& forall|j: int|
            0 <= j < es.len() ==> ((#[trigger] es[j]).retired_at != 0 <==> j < self.rob.head)
        &&& forall|j: int|
            0 <= j < es.len() && (#[trigger] es[j]).retired_at != 0 ==> es[j].completed_at != 0
    }

    /// The map table is total over the distinct architectural registers and
    /// holds distinct tags inside the physical tag space.
    pub open spec fn inv_regs(self) -> bool {
        &&& self.map_table@.len() == self.arch_regs@.len()
        &&& forall|i: int, k: int|
            0 <= i < self.arch_regs@.len() && 0 <= k < self.arch_regs@.len() && i != k
                ==> self.arch_regs@[i] != self.arch_regs@[k]
        &&& forall|i: int|
            0 <= i < self.map_table@.len() ==> 1 <= (#[trigger] self.map_table@[i]).num
                <= self.num_p_regs
        &&& forall|i: int, k: int|
            0 <= i < self.map_table@.len() && 0 <= k < self.map_table@.len() && i != k ==> (
            #[trigger] self.map_table@[i]).num != (#[trigger] self.map_table@[k]).num
    }

    /// Every register the trace names is architectural, so map-table lookups
    /// at dispatch always hit.
    pub open spec fn inv_trace_regs(self) -> bool {
        forall|k: int|
            0 <= k < self.trace@.len() ==> {
                let inst = #[trigger] self.trace@[k];
                &&& match inst.rt {
                    Some(vr) => self.arch_regs@.contains(vr),
                    None => true,
                }
                &&& match inst.rs1 {
                    Some(vr) => self.arch_regs@.contains(vr),
                    None => true,
                }
                &&& match inst.rs2 {
                    Some(vr) => self.arch_regs@.contains(vr),
                    None => true,
                }
            }
    }

    /// Ownership of physical tags: the free list, the map table and the
    /// displaced tags of live entries are each duplicate-free, pairwise
    /// disjoint, and together cover the whole tag space; and the fresh tag
    /// of every live entry is accounted for outside the free list.
    pub open spec fn inv_tags(self) -> bool {
        let fl = self.free_list@;
        let es = self.rob.entries@;
        &&& forall|i: int| 0 <= i < fl.len() ==> 1 <= #[trigger] fl[i] <= self.num_p_regs
        &&& forall|i: int, k: int|
            0 <= i < fl.len() && 0 <= k < fl.len() && i != k ==> fl[i] != fl[k]
        &&& forall|j: int|
            self.live(j) ==> match (#[trigger] es[j]).t_old {
                Some(t) => 1 <= t <= self.num_p_regs,
                None => true,
            }
        &&& forall|j: int|
            self.live(j) ==> match (#[trigger] es[j]).t {
                Some(t) => 1 <= t <= self.num_p_regs,
                None => true,
            }
        &&& forall|j1: int, j2: int|
            self.live(j1) && self.live(j2) && j1 != j2 && (#[trigger] es[j1]).t_old is Some
                ==> es[j1].t_old != (#[trigger] es[j2]).t_old
        &&& forall|t: u32| !(#[trigger] self.fl_has(t) && self.mt_has(t))
        &&& forall|t: u32| !(#[trigger] self.fl_has(t) && self.old_has(t))
        &&& forall|t: u32| !(#[trigger] self.mt_has(t) && self.old_has(t))
        &&& forall|t: u32|
            1 <= t <= self.num_p_regs ==> (#[trigger] self.fl_has(t)) || self.mt_has(t)
                || self.old_has(t)
        &&& forall|j: int| self.live(j) ==> self.new_tag_covered(j)
    }

    /// Station ownership: an entry that has not started executing still
    /// holds its station busy, and no two such entries share a station.
    pub open spec fn inv_stations(self) -> bool {
        let es = self.rob.entries@;
        &&& forall|j: int|
            0 <= j < es.len() && (#[trigger] es[j]).execute_started_at == 0
                ==> self.res_stations@[es[j].rs_ind as int].busy
        &&& forall|j1: int, j2: int|
            0 <= j1 < es.len() && 0 <= j2 < es.len() && j1 != j2
                && (#[trigger] es[j1]).execute_started_at == 0
                && (#[trigger] es[j2]).execute_started_at == 0 ==> es[j1].rs_ind
                != es[j2].rs_ind
    }

    /// The engine's well-formedness invariant: established by construction
    /// and preserved by every pipeline stage.
    pub open spec fn wf(self) -> bool {
        &&& self.inv_rob()
        &&& self.inv_regs()
        &&& self.inv_trace_regs()
        &&& self.inv_tags()
        &&& self.inv_stations()
        &&& self.cycle >= 1
    }
}

/// A configuration the engine can be built from: strictly more physical
/// registers than distinct architectural registers, tag ids that fit their
/// representation, and a trace that names architectural registers only.
pub open spec fn valid_config(trace: Seq<Inst>, arch_regs: Seq<VReg>, num_p_regs: usize) -> bool {
    &&& arch_regs.len() < num_p_regs
    &&& num_p_regs <= u32::MAX
    &&& forall|i: int, k: int|
        0 <= i < arch_regs.len() && 0 <= k < arch_regs.len() && i != k ==> arch_regs[i]
            != arch_regs[k]
    &&& forall|k: int|
        0 <= k < trace.len() ==> {
            let inst = #[trigger] trace[k];
            &&& match inst.rt {
                Some(vr) => arch_regs.contains(vr),
                None => true,
            }
            &&& match inst.rs1 {
                Some(vr) => arch_regs.contains(vr),
                None => true,
            }
            &&& match inst.rs2 {
                Some(vr) => arch_regs.contains(vr),
                None => true,
            }
        }
}

/// The state a freshly built engine is in: empty reorder buffer, cycle one,
/// register `arch_regs[i]` mapped to the ready tag `i + 1`, the remaining
/// tags queued in the free list in ascending order, and one idle station per
/// descriptor.
pub open spec fn is_initial(
    s: OOOSim,
    trace: Seq<Inst>,
    arch_regs: Seq<VReg>,
    num_p_regs: usize,
    max_rob_entries: usize,
    desc: Seq<(u32, u32, u32)>,
) -> bool {
    &&& s.rob.entries@ == Seq::<ROBEntry>::empty()
    &&& s.rob.max_entries == max_rob_entries
    &&& s.rob.head == 0
    &&& s.rob.tail is None
    &&& s.trace@ == trace
    &&& s.arch_regs@ == arch_regs
    &&& s.cycle == 1
    &&& s.trace_ind == 0
    &&& s.num_p_regs == num_p_regs
    &&& s.map_table@.len() == arch_regs.len()
    &&& forall|i: int|
        0 <= i < arch_regs.len() ==> s.map_table@[i] == (PReg { num: (i + 1) as u32, ready: true })
    &&& s.free_list@.len() == num_p_regs - arch_regs.len()
    &&& forall|i: int|
        0 <= i < s.free_list@.len() ==> s.free_list@[i] == (arch_regs.len() + 1 + i) as u32
    &&& s.res_stations@.len() == desc.len()
    &&& forall|i: int|
        0 <= i < desc.len() ==> s.res_stations@[i] == (ResStationEntry {
            fu_type: desc[i].0,
            fu_num: desc[i].1,
            rs_num: desc[i].2,
            busy: false,
            t: None,
            t1: None,
            t2: None,
        })
}

/// Whether an architectural register list holds `vr`.
fn arch_contains(arch_regs: &Vec<VReg>, vr: VReg) -> (r: bool)
    ensures
        r == arch_regs@.contains(vr),
{
    let mut i: usize = 0;
    while i < arch_regs.len()
        invariant
            0 <= i <= arch_regs@.len(),
            forall|k: int| 0 <= k < i ==> arch_regs@[k] != vr,
        decreases arch_regs@.len() - i,
    {
        if arch_regs[i] == vr {
            return true;
        }
        i = i + 1;
    }
    false
}

impl OOOSim {
    /// Builds the engine from a trace and a configuration.
    pub fn new(
        trace: Vec<Inst>,
        arch_regs: Vec<VReg>,
        num_p_regs: usize,
        max_rob_entries: usize,
        res_stations_desc: Vec<(u32, u32, u32)>,
    ) -> (r: OOOSim)
        requires
            valid_config(trace@, arch_regs@, num_p_regs),
        ensures
            r.wf(),
            is_initial(r, trace@, arch_regs@, num_p_regs, max_rob_entries, res_stations_desc@),
    {
        let rob = ROB::new(max_rob_entries);
        let mut map_table: Vec<PReg> = Vec::new();
        let mut free_list: VecDeque<u32> = VecDeque::new();
        let mut res_stations: Vec<ResStationEntry> = Vec::new();

        let arch_len = arch_regs.len();
        let mut i: usize = 0;
        while i < arch_len
            invariant
                arch_len == arch_regs@.len(),
                arch_len < num_p_regs <= u32::MAX,
                0 <= i <= arch_len,
                map_table@.len() == i,
                forall|k: int|
                    0 <= k < i ==> map_table@[k] == (PReg { num: (k + 1) as u32, ready: true }),
            decreases arch_len - i,
        {
            map_table.push(PReg { num: (i as u32) + 1, ready: true });
            i = i + 1;
        }

        let count = num_p_regs - arch_len;
        let mut k: usize = 0;
        while k < count
            invariant
                arch_len < num_p_regs <= u32::MAX,
                count == num_p_regs - arch_len,
                0 <= k <= count,
                free_list@.len() == k,
                forall|k0: int|
                    0 <= k0 < free_list@.len() ==> free_list@[k0] == (arch_len + 1 + k0) as u32,
            decreases count - k,
        {
            free_list.push_back((arch_len as u32) + 1 + (k as u32));
            k = k + 1;
        }

        let mut d: usize = 0;
        while d < res_stations_desc.len()
            invariant
                0 <= d <= res_stations_desc@.len(),
                res_stations@.len() == d,
                forall|k: int|
                    0 <= k < d ==> res_stations@[k] == (ResStationEntry {
                        fu_type: res_stations_desc@[k].0,
                        fu_num: res_stations_desc@[k].1,
                        rs_num: res_stations_desc@[k].2,
                        busy: false,
                        t: None,
                        t1: None,
                        t2: None,
                    }),
            decreases res_stations_desc@.len() - d,
        {
            let de = res_stations_desc[d];
            res_stations.push(
                ResStationEntry {
                    fu_type: de.0,
                    fu_num: de.1,
                    rs_num: de.2,
                    busy: false,
                    t: None,
                    t1: None,
                    t2: None,
                },
            );
            d = d + 1;
        }

        let s = OOOSim {
            rob,
            arch_regs,
            map_table,
            free_list,
            res_stations,
            trace,
            cycle: 1,
            trace_ind: 0,
            num_p_regs: num_p_regs as u32,
        };
        proof {
            assert forall|tag: u32| 1 <= tag <= s.num_p_regs implies (#[trigger] s.fl_has(tag))
                || s.mt_has(tag) || s.old_has(tag) by {
                if tag <= arch_len as u32 {
                    assert(s.map_table@[tag - 1].num == tag);
                    assert(s.mt_has(tag));
                } else {
                    assert(s.free_list@[tag - arch_len - 1] == tag);
                    assert(s.fl_has(tag));
                }
            }
            assert forall|tag: u32| !(#[trigger] s.fl_has(tag) && s.mt_has(tag)) by {
                if s.fl_has(tag) && s.mt_has(tag) {
                    let i0 = choose|i0: int|
                        0 <= i0 < s.free_list@.len() && s.free_list@[i0] == tag;
                    let i1 = choose|i1: int|
                        0 <= i1 < s.map_table@.len() && s.map_table@[i1].num == tag;
                    assert(s.free_list@[i0] > arch_len as u32);
                    assert(s.map_table@[i1].num <= arch_len as u32);
                }
            }
        }
        s
    }

    /// Builds the engine after checking the configuration, instead of
    /// demanding it up front: a physical-register count that does not exceed
    /// the architectural count, a repeated architectural register, or a
    /// trace register outside the architectural set all fail construction.
    pub fn try_new(
        trace: Vec<Inst>,
        arch_regs: Vec<VReg>,
        num_p_regs: usize,
        max_rob_entries: usize,
        res_stations_desc: Vec<(u32, u32, u32)>,
    ) -> (r: Option<OOOSim>)
        ensures
            match r {
                Some(s) => valid_config(trace@, arch_regs@, num_p_regs) && s.wf() && is_initial(
                    s,
                    trace@,
                    arch_regs@,
                    num_p_regs,
                    max_rob_entries,
                    res_stations_desc@,
                ),
                None => !valid_config(trace@, arch_regs@, num_p_regs),
            },
    {
        if num_p_regs <= arch_regs.len() || num_p_regs > u32::MAX as usize {
            return None;
        }
        let mut i: usize = 0;
        while i < arch_regs.len()
            invariant
                0 <= i <= arch_regs@.len(),
                forall|i0: int, k0: int|
                    0 <= i0 < i && i0 < k0 < arch_regs@.len() ==> arch_regs@[i0] != arch_regs@[k0],
            decreases arch_regs@.len() - i,
        {
            let mut k: usize = i + 1;
            while k < arch_regs.len()
                invariant
                    0 <= i < k <= arch_regs@.len(),
                    forall|k0: int| i < k0 < k ==> arch_regs@[i as int] != arch_regs@[k0],
                decreases arch_regs@.len() - k,
            {
                if arch_regs[i] == arch_regs[k] {
                    return None;
                }
                k = k + 1;
            }
            i = i + 1;
        }
        let mut m: usize = 0;
        while m < trace.len()
            invariant
                0 <= m <= trace@.len(),
                forall|k: int|
                    0 <= k < m ==> {
                        let inst = #[trigger] trace@[k];
                        &&& match inst.rt {
                            Some(vr) => arch_regs@.contains(vr),
                            None => true,
                        }
                        &&& match inst.rs1 {
                            Some(vr) => arch_regs@.contains(vr),
                            None => true,
                        }
                        &&& match inst.rs2 {
                            Some(vr) => arch_regs@.contains(vr),
                            None => true,
                        }
                    },
            decreases trace@.len() - m,
        {
            let inst = trace[m];
            if let Some(vr) = inst.rt {
                if !arch_contains(&arch_regs, vr) {
                    return None;
                }
            }
            if let Some(vr) = inst.rs1 {
                if !arch_contains(&arch_regs, vr) {
                    return None;
                }
            }
            if let Some(vr) = inst.rs2 {
                if !arch_contains(&arch_regs, vr) {
                    return None;
                }
            }
            m = m + 1;
        }
        Some(Self::new(trace, arch_regs, num_p_regs, max_rob_entries, res_stations_desc))
    }

    /// An operand snapshot is satisfied: absent, or present and ready.
    pub open spec fn op_satisfied(op: Option<PReg>) -> bool {
        match op {
            None => true,
            Some(p) => p.ready,
        }
    }

    /// Entry `j` could issue now: not yet issued, and both operand
    /// snapshots in its station are satisfied.
    pub open spec fn issue_ready(self, j: int) -> bool {
        let e = self.rob.entries@[j];
        &&& e.issued_at == 0
        &&& Self::op_satisfied(self.res_stations@[e.rs_ind as int].t1)
        &&& Self::op_satisfied(self.res_stations@[e.rs_ind as int].t2)
    }

    /// Entry `j` issued in an earlier cycle, so the execute stage may act on
    /// it this cycle (one-cycle issue-to-execute bubble).
    pub open spec fn waiting(self, j: int) -> bool {
        let e = self.rob.entries@[j];
        &&& e.issued_at != 0
        &&& e.issued_at != self.cycle
    }

    /// The functional-unit instance (class, instance number) that serves
    /// entry `j`, read from its station's descriptor.
    pub open spec fn fu_of(self, j: int) -> (u32, u32) {
        let st = self.res_stations@[self.rob.entries@[j].rs_ind as int];
        (st.fu_type, st.fu_num)
    }

    /// Entry `j` wants a functional unit this cycle: it issued earlier and
    /// still has latency to drain.
    pub open spec fn exec_elig(self, j: int) -> bool {
        &&& 0 <= j < self.rob.entries@.len()
        &&& self.waiting(j)
        &&& self.trace@[j].delay > 0
    }

    /// Entry `j` wins its functional unit this cycle: it wants one, and no
    /// older entry wants the same instance; each instance drains at most one
    /// instruction's latency per cycle.
    pub open spec fn exec_dec(self, j: int) -> bool {
        &&& self.exec_elig(j)
        &&& forall|k: int|
            0 <= k < j ==> !((#[trigger] self.exec_elig(k)) && self.fu_of(k) == self.fu_of(j))
    }

    /// Entry `j` leaves its reservation station this cycle: it issued in an
    /// earlier cycle and has not started executing yet.
    pub open spec fn releases(self, j: int) -> bool {
        &&& 0 <= j < self.rob.entries@.len()
        &&& self.waiting(j)
        &&& self.rob.entries@[j].execute_started_at == 0
    }

    /// Station `s` is released this cycle by some entry.
    pub open spec fn station_released(self, s: int) -> bool {
        exists|j: int| self.releases(j) && (#[trigger] self.rob.entries@[j]).rs_ind == s
    }

    /// Entry `j` could complete now: its instruction's latency has drained
    /// and it has not completed yet.
    pub open spec fn complete_ready(self, j: int) -> bool {
        let e = self.rob.entries@[j];
        &&& self.trace@[e.inst_ind as int].delay == 0
        &&& e.completed_at == 0
    }

    /// Station `i` could accept an instruction of functional-unit class
    /// `fu`: it has that class and is not busy.
    pub open spec fn free_station_at(self, fu: u32, i: int) -> bool {
        &&& 0 <= i < self.res_stations@.len()
        &&& self.res_stations@[i].fu_type == fu
        &&& !self.res_stations@[i].busy
    }

    /// Station `i` is the first free station of class `fu` in configuration
    /// order.
    pub open spec fn first_free_station(self, fu: u32, i: int) -> bool {
        &&& self.free_station_at(fu, i)
        &&& forall|k: int| 0 <= k < i ==> !self.free_station_at(fu, k)
    }

    /// Dispatch stalls this cycle: the trace is exhausted, the reorder
    /// buffer is at capacity, the instruction needs a destination tag but
    /// the free list is empty, or no matching reservation station is free.
    pub open spec fn dispatch_stalled(self) -> bool {
        ||| self.trace_ind >= self.trace@.len()
        ||| self.rob.entries@.len() - self.rob.head >= self.rob.max_entries
        ||| (self.trace@[self.trace_ind as int].rt is Some && self.free_list@.len() == 0)
        ||| forall|i: int|
            0 <= i < self.res_stations@.len() ==> !self.free_station_at(
                self.trace@[self.trace_ind as int].fu,
                i,
            )
    }

    /// Finds the map-table row of an architectural register; with distinct
    /// architectural registers this is its unique row.
    pub fn map_index(&self, vr: VReg) -> (r: usize)
        requires
            self.arch_regs@.contains(vr),
        ensures
            0 <= r < self.arch_regs@.len(),
            self.arch_regs@[r as int] == vr,
    {
        let mut i: usize = 0;
        while i < self.arch_regs.len()
            invariant
                self.arch_regs@.contains(vr),
                0 <= i <= self.arch_regs@.len(),
                forall|k: int| 0 <= k < i ==> self.arch_regs@[k] != vr,
            decreases self.arch_regs@.len() - i,
        {
            if self.arch_regs[i] == vr {
                return i;
            }
            i = i + 1;
        }
        proof {
            let k = choose|k: int| 0 <= k < self.arch_regs@.len() && self.arch_regs@[k] == vr;
            assert(false);
        }
        0
    }
}

/// The row of `vr` in a distinct architectural register list.
pub open spec fn arch_index(arch: Seq<VReg>, vr: VReg) -> int {
    choose|i: int| 0 <= i < arch.len() && arch[i] == vr
}

/// What a successful dispatch of the next trace instruction into station
/// `si` does: station `si` (the first free one of the right class) is
/// occupied with the fresh tag and value snapshots of the two source
/// operands taken from the map table now; a new entry with the fresh and
/// displaced tags is appended at the reorder-buffer tail; and when the
/// instruction has a destination, the fresh tag is popped off the head of
/// the free list and installed, not ready, as the destination's mapping.
pub open spec fn dispatch_success(pre: OOOSim, post: OOOSim, si: usize) -> bool {
    let idx = pre.trace_ind as int;
    let inst = pre.trace@[idx];
    let snap1 = match inst.rs1 {
        Some(v) => Some(pre.map_table@[arch_index(pre.arch_regs@, v)]),
        None => None,
    };
    let snap2 = match inst.rs2 {
        Some(v) => Some(pre.map_table@[arch_index(pre.arch_regs@, v)]),
        None => None,
    };
    let tnew_opt = match inst.rt {
        Some(v) => Some(pre.free_list@[0]),
        None => None,
    };
    let told_opt = match inst.rt {
        Some(v) => Some(pre.map_table@[arch_index(pre.arch_regs@, v)].num),
        None => None,
    };
    &&& pre.first_free_station(inst.fu, si as int)
    &&& post.res_stations@ == pre.res_stations@.update(
        si as int,
        ResStationEntry {
            busy: true,
            t: tnew_opt,
            t1: snap1,
            t2: snap2,
            ..pre.res_stations@[si as int]
        },
    )
    &&& post.rob.entries@ == pre.rob.entries@.push(
        ROBEntry {
            inst_ind: pre.trace_ind,
            rs_ind: si,
            t: tnew_opt,
            t_old: told_opt,
            issued_at: 0,
            execute_started_at: 0,
            completed_at: 0,
            retired_at: 0,
        },
    )
    &&& post.rob.head == pre.rob.head
    &&& post.rob.tail == Some(pre.rob.entries@.len() as usize)
    &&& post.trace_ind == pre.trace_ind + 1
    &&& match inst.rt {
        Some(v) => {
            &&& post.free_list@ == pre.free_list@.skip(1)
            &&& post.map_table@ == pre.map_table@.update(
                arch_index(pre.arch_regs@, v),
                PReg { num: pre.free_list@[0], ready: false },
            )
        },
        None => {
            &&& post.free_list == pre.free_list
            &&& post.map_table == pre.map_table
        },
    }
    &&& post.arch_regs == pre.arch_regs
    &&& post.trace == pre.trace
    &&& post.cycle == pre.cycle
    &&& post.num_p_regs == pre.num_p_regs
    &&& post.rob.max_entries == pre.rob.max_entries
}

/// What one dispatch call does: admit the next trace instruction, renaming
/// its destination, or stall with no state change at all. Exactly one
/// instruction dispatches per call, or none.
pub open spec fn dispatch_post(pre: OOOSim, post: OOOSim) -> bool {
    if pre.dispatch_stalled() {
        post == pre
    } else {
        exists|si: usize| #[trigger] dispatch_success(pre, post, si)
    }
}

/// What one whole cycle does: the five stage relations composed in their
/// fixed order — retire, complete, execute, issue, dispatch — followed by
/// the cycle increment.
pub open spec fn step_post(pre: OOOSim, post: OOOSim) -> bool {
    &&& post.cycle == pre.cycle + 1
    &&& exists|s1: OOOSim, s2: OOOSim, s3: OOOSim, s4: OOOSim|
        #![trigger retire_post(pre, s1), complete_post(s1, s2), execute_post(s2, s3), issue_post(s3, s4)]
        {
            &&& retire_post(pre, s1)
            &&& complete_post(s1, s2)
            &&& execute_post(s2, s3)
            &&& issue_post(s3, s4)
            &&& dispatch_post(s4, OOOSim { cycle: pre.cycle, ..post })
        }
}

/// What running `n` cycles does: `n` chained `step_post` transitions.
pub open spec fn sim_steps(pre: OOOSim, post: OOOSim, n: nat) -> bool
    decreases n,
{
    if n == 0 {
        post == pre
    } else {
        exists|mid: OOOSim| #[trigger] step_post(pre, mid) && sim_steps(mid, post, (n - 1) as nat)
    }
}

/// A chain of `n` cycles followed by one more cycle is a chain of `n + 1`
/// cycles.
proof fn lemma_sim_steps_snoc(pre: OOOSim, mid: OOOSim, post: OOOSim, n: nat)
    requires
        sim_steps(pre, mid, n),
        step_post(mid, post),
    ensures
        sim_steps(pre, post, n + 1),
    decreases n,
{
    if n == 0 {
        assert(mid == pre);
        assert(sim_steps(post, post, 0));
        assert(sim_steps(pre, post, 1));
    } else {
        let m1 = choose|m1: OOOSim|
            #[trigger] step_post(pre, m1) && sim_steps(m1, mid, (n - 1) as nat);
        lemma_sim_steps_snoc(m1, mid, post, (n - 1) as nat);
        assert(step_post(pre, m1) && sim_steps(m1, post, n));
        assert(sim_steps(pre, post, n + 1));
    }
}

/// The fields no pipeline stage ever touches are unchanged.
pub open spec fn frame_static(pre: OOOSim, post: OOOSim) -> bool {
    &&& post.arch_regs == pre.arch_regs
    &&& post.trace == pre.trace
    &&& post.cycle == pre.cycle
    &&& post.trace_ind == pre.trace_ind
    &&& post.num_p_regs == pre.num_p_regs
    &&& post.rob.max_entries == pre.rob.max_entries
}

/// What one retire call does: find the oldest entry not yet retired; if
/// there is none, or it has not completed, change nothing; otherwise mark it
/// retired at the current cycle, advance the head past it, and append its
/// displaced tag (when present) to the tail of the free list.
pub open spec fn retire_post(pre: OOOSim, post: OOOSim) -> bool {
    let es = pre.rob.entries@;
    let h = pre.rob.head as int;
    if h == es.len() || es[h].completed_at == 0 {
        post == pre
    } else {
        let e = es[h];
        &&& post.rob.entries@ == es.update(h, ROBEntry { retired_at: pre.cycle, ..e })
        &&& post.rob.head == pre.rob.head + 1
        &&& post.rob.tail == pre.rob.tail
        &&& post.free_list@ == match e.t_old {
            Some(t) => if t != 0 {
                pre.free_list@.push(t)
            } else {
                pre.free_list@
            },
            None => pre.free_list@,
        }
        &&& post.map_table == pre.map_table
        &&& post.res_stations == pre.res_stations
        &&& frame_static(pre, post)
    }
}

/// What one issue call does: among the entries whose operand snapshots are
/// satisfied, in age order, mark the oldest one issued at the current cycle;
/// entries that are not ready do not block younger ones, and at most one
/// entry issues.
pub open spec fn issue_post(pre: OOOSim, post: OOOSim) -> bool {
    let es = pre.rob.entries@;
    if exists|j: int| 0 <= j < es.len() && pre.issue_ready(j) {
        exists|j: int|
            {
                &&& 0 <= j < es.len()
                &&& pre.issue_ready(j)
                &&& forall|k: int| 0 <= k < j ==> !pre.issue_ready(k)
                &&& post.rob.entries@ == es.update(
                    j,
                    ROBEntry { issued_at: pre.cycle, ..es[j] },
                )
                &&& post.rob.head == pre.rob.head
                &&& post.rob.tail == pre.rob.tail
                &&& post.free_list == pre.free_list
                &&& post.map_table == pre.map_table
                &&& post.res_stations == pre.res_stations
                &&& frame_static(pre, post)
            }
    } else {
        post == pre
    }
}

/// A physical-register snapshot after a completion broadcast of tag `t`:
/// marked ready when it names `t`, untouched otherwise.
pub open spec fn bump_preg(p: PReg, t: u32) -> PReg {
    if p.num == t {
        PReg { num: p.num, ready: true }
    } else {
        p
    }
}

/// An operand snapshot after a completion broadcast of tag `t`.
pub open spec fn bump_op(op: Option<PReg>, t: u32) -> Option<PReg> {
    match op {
        Some(p) => Some(bump_preg(p, t)),
        None => None,
    }
}

/// A reservation station after a completion broadcast of tag `t`: only the
/// readiness of matching operand snapshots changes.
pub open spec fn bump_station(st: ResStationEntry, t: u32) -> ResStationEntry {
    ResStationEntry { t1: bump_op(st.t1, t), t2: bump_op(st.t2, t), ..st }
}

/// What one complete call does: in program order, the first entry whose
/// instruction has drained its latency and which has not yet completed is
/// marked completed at the current cycle, and its destination tag is
/// broadcast: every map-table row and every station operand snapshot naming
/// that tag becomes ready. At most one entry completes per call.
pub open spec fn complete_post(pre: OOOSim, post: OOOSim) -> bool {
    let es = pre.rob.entries@;
    if exists|j: int| 0 <= j < es.len() && pre.complete_ready(j) {
        exists|j: int|
            {
                &&& 0 <= j < es.len()
                &&& pre.complete_ready(j)
                &&& forall|k: int| 0 <= k < j ==> !pre.complete_ready(k)
                &&& post.rob.entries@ == es.update(
                    j,
                    ROBEntry { completed_at: pre.cycle, ..es[j] },
                )
                &&& match es[j].t {
                    Some(t) => {
                        &&& post.map_table@.len() == pre.map_table@.len()
                        &&& forall|i: int|
                            0 <= i < pre.map_table@.len() ==> post.map_table@[i] == bump_preg(
                                pre.map_table@[i],
                                t,
                            )
                        &&& post.res_stations@.len() == pre.res_stations@.len()
                        &&& forall|s: int|
                            0 <= s < pre.res_stations@.len() ==> post.res_stations@[s]
                                == bump_station(pre.res_stations@[s], t)
                    },
                    None => {
                        &&& post.map_table == pre.map_table
                        &&& post.res_stations == pre.res_stations
                    },
                }
                &&& post.rob.head == pre.rob.head
                &&& post.rob.tail == pre.rob.tail
                &&& post.free_list == pre.free_list
                &&& frame_static(pre, post)
            }
    } else {
        post == pre
    }
}

/// A reservation station once its instruction has moved to execution: the
/// bay is free and its snapshots are cleared, but its descriptor stays.
pub open spec fn cleared(st: ResStationEntry) -> ResStationEntry {
    ResStationEntry { busy: false, t: None, t1: None, t2: None, ..st }
}

/// What one execute call does, for every entry that issued in an earlier
/// cycle: if it has not started executing, it starts now and its station is
/// released; and its remaining latency is decremented when it wins its
/// functional-unit instance, which drains at most one instruction per cycle,
/// oldest first.
pub open spec fn execute_post(pre: OOOSim, post: OOOSim) -> bool {
    let es = pre.rob.entries@;
    &&& post.rob.entries@.len() == es.len()
    &&& forall|j: int|
        0 <= j < es.len() ==> #[trigger] post.rob.entries@[j] == (if pre.releases(j) {
            ROBEntry { execute_started_at: pre.cycle, ..es[j] }
        } else {
            es[j]
        })
    &&& post.trace@.len() == pre.trace@.len()
    &&& forall|k: int|
        0 <= k < pre.trace@.len() ==> #[trigger] post.trace@[k] == (if k < es.len()
            && pre.exec_dec(k) {
            Inst { delay: (pre.trace@[k].delay - 1) as u32, ..pre.trace@[k] }
        } else {
            pre.trace@[k]
        })
    &&& post.res_stations@.len() == pre.res_stations@.len()
    &&& forall|s: int|
        0 <= s < pre.res_stations@.len() ==> #[trigger] post.res_stations@[s] == (
        if pre.station_released(s) {
            cleared(pre.res_stations@[s])
        } else {
            pre.res_stations@[s]
        })
    &&& post.rob.head == pre.rob.head
    &&& post.rob.tail == pre.rob.tail
    &&& post.free_list == pre.free_list
    &&& post.map_table == pre.map_table
    &&& post.arch_regs == pre.arch_regs
    &&& post.cycle == pre.cycle
    &&& post.trace_ind == pre.trace_ind
    &&& post.num_p_regs == pre.num_p_regs
    &&& post.rob.max_entries == pre.rob.max_entries
}

/// Whether the list of functional units already used this cycle holds the
/// given instance.
fn contains_fu(v: &Vec<(u32, u32)>, fu_t: u32, fu_n: u32) -> (r: bool)
    ensures
        r == v@.contains((fu_t, fu_n)),
{
    let mut i: usize = 0;
    while i < v.len()
        invariant
            0 <= i <= v@.len(),
            forall|k: int| 0 <= k < i ==> v@[k] != (fu_t, fu_n),
        decreases v@.len() - i,
    {
        let p = v[i];
        if p.0 == fu_t && p.1 == fu_n {
            assert(v@[i as int] == (fu_t, fu_n));
            return true;
        }
        assert(v@[i as int] != (fu_t, fu_n));
        i = i + 1;
    }
    false
}

/// Well-formedness is insensitive to timestamp-only changes of entries (as
/// long as retirement marks stay, completion marks are never erased and
/// execute-start marks are only added), to readiness-flag changes in the map
/// table and stations, and to nothing else.
proof fn lemma_wf_frame(pre: OOOSim, post: OOOSim)
    requires
        pre.wf(),
        post.rob.head == pre.rob.head,
        post.rob.tail == pre.rob.tail,
        post.rob.max_entries == pre.rob.max_entries,
        post.arch_regs == pre.arch_regs,
        post.map_table@.len() == pre.map_table@.len(),
        forall|i: int|
            0 <= i < pre.map_table@.len() ==> (#[trigger] post.map_table@[i]).num
                == pre.map_table@[i].num,
        post.free_list@ == pre.free_list@,
        post.res_stations@.len() == pre.res_stations@.len(),
        forall|j: int|
            0 <= j < post.rob.entries@.len() && (#[trigger] post.rob.entries@[j]).execute_started_at
                == 0 ==> post.res_stations@[post.rob.entries@[j].rs_ind as int].busy
                == pre.res_stations@[post.rob.entries@[j].rs_ind as int].busy,
        post.trace@.len() == pre.trace@.len(),
        forall|k: int|
            0 <= k < pre.trace@.len() ==> {
                let i0 = pre.trace@[k];
                let i1 = #[trigger] post.trace@[k];
                i1.rt == i0.rt && i1.rs1 == i0.rs1 && i1.rs2 == i0.rs2
            },
        post.cycle >= 1,
        post.trace_ind == pre.trace_ind,
        post.num_p_regs == pre.num_p_regs,
        post.rob.entries@.len() == pre.rob.entries@.len(),
        forall|j: int|
            0 <= j < pre.rob.entries@.len() ==> {
                let e0 = pre.rob.entries@[j];
                let e1 = #[trigger] post.rob.entries@[j];
                &&& e1.inst_ind == e0.inst_ind
                &&& e1.rs_ind == e0.rs_ind
                &&& e1.t == e0.t
                &&& e1.t_old == e0.t_old
                &&& e1.retired_at == e0.retired_at
                &&& (e0.completed_at != 0 ==> e1.completed_at != 0)
                &&& (e1.execute_started_at == 0 ==> e0.execute_started_at == 0)
            },
    ensures
        post.wf(),
{
    assert forall|t: u32| post.mt_has(t) == pre.mt_has(t) by {
        if pre.mt_has(t) {
            let i = choose|i: int|
                0 <= i < pre.map_table@.len() && (#[trigger] pre.map_table@[i]).num == t;
            assert(post.map_table@[i].num == t);
        }
        if post.mt_has(t) {
            let i = choose|i: int|
                0 <= i < post.map_table@.len() && (#[trigger] post.map_table@[i]).num == t;
            assert(pre.map_table@[i].num == t);
        }
    }
    assert forall|t: u32| post.old_has(t) == pre.old_has(t) by {
        if pre.old_has(t) {
            let j = choose|j: int|
                pre.live(j) && (#[trigger] pre.rob.entries@[j]).t_old == Some(t);
            assert(post.rob.entries@[j].t_old == Some(t));
            assert(post.live(j));
        }
        if post.old_has(t) {
            let j = choose|j: int|
                post.live(j) && (#[trigger] post.rob.entries@[j]).t_old == Some(t);
            assert(pre.rob.entries@[j].t_old == Some(t));
            assert(pre.live(j));
        }
    }
    assert forall|t: u32| post.fl_has(t) == pre.fl_has(t) by {}
    assert forall|t: u32| !(#[trigger] post.fl_has(t) && post.mt_has(t)) by {
        assert(!(pre.fl_has(t) && pre.mt_has(t)));
    }
    assert forall|t: u32| !(#[trigger] post.fl_has(t) && post.old_has(t)) by {
        assert(!(pre.fl_has(t) && pre.old_has(t)));
    }
    assert forall|t: u32| !(#[trigger] post.mt_has(t) && post.old_has(t)) by {
        assert(!(pre.mt_has(t) && pre.old_has(t)));
    }
    assert forall|t: u32|
        1 <= t <= post.num_p_regs implies (#[trigger] post.fl_has(t)) || post.mt_has(t)
        || post.old_has(t) by {
        assert(pre.fl_has(t) || pre.mt_has(t) || pre.old_has(t));
    }
    assert forall|j: int| post.live(j) implies post.new_tag_covered(j) by {
        assert(pre.live(j));
        assert(pre.new_tag_covered(j));
        match post.rob.entries@[j].t {
            Some(t) => {
                assert(pre.rob.entries@[j].t == Some(t));
                if pre.mt_has(t) {
                    assert(post.mt_has(t));
                } else {
                    let m = choose|m: int|
                        j < m && pre.live(m) && (#[trigger] pre.rob.entries@[m]).t_old == Some(
                            t,
                        );
                    assert(post.rob.entries@[m].t_old == Some(t));
                    assert(post.live(m));
                }
            },
            None => {},
        }
    }
    assert forall|j: int|
        0 <= j < post.rob.entries@.len() && (#[trigger] post.rob.entries@[j]).execute_started_at
            == 0 implies post.res_stations@[post.rob.entries@[j].rs_ind as int].busy by {
        assert(pre.rob.entries@[j].execute_started_at == 0);
        assert(pre.res_stations@[pre.rob.entries@[j].rs_ind as int].busy);
    }
}

impl OOOSim {
    /// Finds the first free reservation station of the given class, in
    /// fixed configuration order.
    fn find_station(&self, fu: u32) -> (r: Option<usize>)
        ensures
            match r {
                Some(i) => self.first_free_station(fu, i as int),
                None => forall|i: int|
                    0 <= i < self.res_stations@.len() ==> !self.free_station_at(fu, i),
            },
    {
        let mut i: usize = 0;
        while i < self.res_stations.len()
            invariant
                0 <= i <= self.res_stations@.len(),
                forall|k: int| 0 <= k < i ==> !self.free_station_at(fu, k),
            decreases self.res_stations@.len() - i,
        {
            let st = self.res_stations[i];
            if st.fu_type == fu && !st.busy {
                return Some(i);
            }
            proof {
                assert(!self.free_station_at(fu, i as int));
            }
            i = i + 1;
        }
        None
    }

    /// Dispatch stage: admit the next trace instruction if the trace is not
    /// exhausted, the reorder buffer has room, a fresh tag is available when
    /// one is needed, and a matching station is free; otherwise stall with
    /// no state change, to be retried next cycle. The destination register
    /// is renamed to the fresh tag; the operand snapshots are copies of the
    /// current mappings, never live references.
    pub fn dispatch(&mut self)
        requires
            old(self).wf(),
        ensures
            final(self).wf(),
            dispatch_post(*old(self), *final(self)),
    {
        if self.trace_ind >= self.trace.len() {
            return ;
        }
        if self.rob.entries.len() - self.rob.head >= self.rob.max_entries {
            return ;
        }
        let new_inst = self.trace[self.trace_ind];
        if new_inst.rt.is_some() && self.free_list.len() == 0 {
            return ;
        }
        let found = self.find_station(new_inst.fu);
        match found {
            None => {
                proof {
                    assert(old(self).dispatch_stalled());
                }
                return ;
            },
            Some(si) => {
                proof {
                    assert(!old(self).dispatch_stalled());
                }
                let ghost snap = *old(self);
                let t: Option<u32> = match new_inst.rt {
                    Some(_) => Some(self.free_list[0]),
                    None => None,
                };
                let mut st = self.res_stations[si];
                st.busy = true;
                st.t = t;
                st.t1 = match new_inst.rs1 {
                    Some(v1) => {
                        let d1 = self.map_index(v1);
                        proof {
                            lemma_arch_index_unique(snap.arch_regs@, v1, d1 as int);
                        }
                        Some(self.map_table[d1])
                    },
                    None => None,
                };
                st.t2 = match new_inst.rs2 {
                    Some(v2) => {
                        let d2 = self.map_index(v2);
                        proof {
                            lemma_arch_index_unique(snap.arch_regs@, v2, d2 as int);
                        }
                        Some(self.map_table[d2])
                    },
                    None => None,
                };
                self.res_stations.set(si, st);
                let t_old: Option<u32> = match new_inst.rt {
                    Some(rtv) => {
                        let _popped = self.free_list.pop_front();
                        let di = self.map_index(rtv);
                        proof {
                            lemma_arch_index_unique(snap.arch_regs@, rtv, di as int);
                        }
                        let prev = self.map_table[di].num;
                        if let Some(tval) = t {
                            self.map_table.set(di, PReg { num: tval, ready: false });
                        }
                        Some(prev)
                    },
                    None => None,
                };
                let entry = ROBEntry::new(self.trace_ind, si, t, t_old);
                self.rob.entries.push(entry);
                self.rob.tail = match self.rob.tail {
                    Some(x) => Some(x + 1),
                    None => Some(0),
                };
                self.trace_ind = self.trace_ind + 1;
                proof {
                    if snap.trace@[snap.trace_ind as int].rt is Some {
                        assert(self.free_list@ =~= snap.free_list@.skip(1));
                    }
                    assert(dispatch_success(snap, *self, si));
                    lemma_dispatch_wf(snap, *self, si);
                }
            },
        }
    }

    /// One simulated cycle: retire, complete, execute, issue and dispatch
    /// run in that fixed order, then the cycle counter advances. A stage's
    /// writes are visible only to the stages that run after it in the same
    /// call, reproducing hardware clock-edge semantics. Across one call at
    /// most one entry issues, at most one completes, at most one retires,
    /// and at most one instruction is dispatched.
    #[verifier::rlimit(60)]
    pub fn step(&mut self)
        requires
            old(self).wf(),
            old(self).cycle < u32::MAX,
        ensures
            final(self).wf(),
            step_post(*old(self), *final(self)),
            final(self).cycle == old(self).cycle + 1,
            old(self).rob.entries@.len() <= final(self).rob.entries@.len() <= old(
                self,
            ).rob.entries@.len() + 1,
            old(self).trace_ind <= final(self).trace_ind <= old(self).trace_ind + 1,
            forall|j: int, k: int|
                0 <= j < old(self).rob.entries@.len() && 0 <= k < old(self).rob.entries@.len()
                    && (#[trigger] old(self).rob.entries@[j]).issued_at == 0
                    && (#[trigger] final(self).rob.entries@[j]).issued_at != 0
                    && (#[trigger] old(self).rob.entries@[k]).issued_at == 0
                    && (#[trigger] final(self).rob.entries@[k]).issued_at != 0 ==> j == k,
            forall|j: int, k: int|
                0 <= j < old(self).rob.entries@.len() && 0 <= k < old(self).rob.entries@.len()
                    && (#[trigger] old(self).rob.entries@[j]).completed_at == 0
                    && (#[trigger] final(self).rob.entries@[j]).completed_at != 0
                    && (#[trigger] old(self).rob.entries@[k]).completed_at == 0
                    && (#[trigger] final(self).rob.entries@[k]).completed_at != 0 ==> j == k,
            forall|j: int, k: int|
                0 <= j < old(self).rob.entries@.len() && 0 <= k < old(self).rob.entries@.len()
                    && (#[trigger] old(self).rob.entries@[j]).retired_at == 0
                    && (#[trigger] final(self).rob.entries@[j]).retired_at != 0
                    && (#[trigger] old(self).rob.entries@[k]).retired_at == 0
                    && (#[trigger] final(self).rob.entries@[k]).retired_at != 0 ==> j == k,
    {
        self.retire();
        let ghost s1 = *self;
        self.complete();
        let ghost s2 = *self;
        self.execute();
        let ghost s3 = *self;
        self.issue();
        let ghost s4 = *self;
        self.dispatch();
        let ghost s5 = *self;
        proof {
            lemma_retire_frame(*old(self), s1);
            lemma_complete_frame(s1, s2);
            lemma_execute_frame(s2, s3);
            lemma_issue_frame(s3, s4);
            lemma_dispatch_frame(s4, s5);
            let n0 = old(self).rob.entries@.len() as int;
            assert forall|j: int, k: int|
                0 <= j < n0 && 0 <= k < n0 && (#[trigger] old(self).rob.entries@[j]).issued_at
                    == 0 && (#[trigger] s5.rob.entries@[j]).issued_at != 0 && (
                #[trigger] old(self).rob.entries@[k]).issued_at == 0 && (
                #[trigger] s5.rob.entries@[k]).issued_at != 0 implies j == k by {
                assert(s3.rob.entries@[j].issued_at == old(self).rob.entries@[j].issued_at);
                assert(s5.rob.entries@[j].issued_at == s4.rob.entries@[j].issued_at);
                assert(s3.rob.entries@[k].issued_at == old(self).rob.entries@[k].issued_at);
                assert(s5.rob.entries@[k].issued_at == s4.rob.entries@[k].issued_at);
            }
            assert forall|j: int, k: int|
                0 <= j < n0 && 0 <= k < n0 && (#[trigger] old(self).rob.entries@[j]).completed_at
                    == 0 && (#[trigger] s5.rob.entries@[j]).completed_at != 0 && (
                #[trigger] old(self).rob.entries@[k]).completed_at == 0 && (
                #[trigger] s5.rob.entries@[k]).completed_at != 0 implies j == k by {
                assert(s1.rob.entries@[j].completed_at == old(self).rob.entries@[j].completed_at);
                assert(s5.rob.entries@[j].completed_at == s2.rob.entries@[j].completed_at);
                assert(s1.rob.entries@[k].completed_at == old(self).rob.entries@[k].completed_at);
                assert(s5.rob.entries@[k].completed_at == s2.rob.entries@[k].completed_at);
            }
            assert forall|j: int, k: int|
                0 <= j < n0 && 0 <= k < n0 && (#[trigger] old(self).rob.entries@[j]).retired_at
                    == 0 && (#[trigger] s5.rob.entries@[j]).retired_at != 0 && (
                #[trigger] old(self).rob.entries@[k]).retired_at == 0 && (
                #[trigger] s5.rob.entries@[k]).retired_at != 0 implies j == k by {
                assert(s5.rob.entries@[j].retired_at == s1.rob.entries@[j].retired_at);
                assert(s5.rob.entries@[k].retired_at == s1.rob.entries@[k].retired_at);
            }
        }
        self.cycle = self.cycle + 1;
        proof {
            lemma_wf_frame(s5, *self);
            assert(s5 == OOOSim { cycle: old(self).cycle, ..*self });
            assert(dispatch_post(s4, OOOSim { cycle: old(self).cycle, ..*self }));
            assert(step_post(*old(self), *self));
        }
    }

    /// Runs the given number of cycles, one `step` per cycle. The engine
    /// does not detect an empty pipeline by itself: the caller chooses the
    /// cycle budget, and stalled cycles simply change nothing.
    pub fn sim(&mut self, cycles: u32)
        requires
            old(self).wf(),
            old(self).cycle + cycles <= u32::MAX,
        ensures
            final(self).wf(),
            final(self).cycle == old(self).cycle + cycles,
            sim_steps(*old(self), *final(self), cycles as nat),
    {
        let cycle_start = self.cycle;
        while self.cycle < cycle_start + cycles
            invariant
                self.wf(),
                cycle_start == old(self).cycle,
                old(self).cycle + cycles <= u32::MAX,
                cycle_start <= self.cycle <= cycle_start + cycles,
                sim_steps(*old(self), *self, (self.cycle - cycle_start) as nat),
            decreases cycle_start + cycles - self.cycle,
        {
            let ghost before = *self;
            let ghost n = (self.cycle - cycle_start) as nat;
            self.step();
            proof {
                lemma_sim_steps_snoc(*old(self), before, *self, n);
            }
        }
    }

    /// Whether the trace is exhausted and every dispatched instruction has
    /// retired. The engine never stops by itself: a caller that wants to run
    /// to completion asks this between cycles, and one that wants a fixed
    /// budget simply ignores it.
    pub fn drained(&self) -> (r: bool)
        ensures
            r == (self.trace_ind == self.trace@.len() && self.rob.head
                == self.rob.entries@.len()),
    {
        self.trace_ind == self.trace.len() && self.rob.head == self.rob.entries.len()
    }

    /// Retire stage: in program order, the first entry not yet retired may
    /// retire, and only if it has completed; a completed younger entry never
    /// retires ahead of an incomplete older one. The retiring entry's
    /// displaced tag is only now returned to the free list, so a tag is
    /// never reused while an older reader may still name it. At most one
    /// entry retires per call.
    pub fn retire(&mut self)
        requires
            old(self).wf(),
        ensures
            final(self).wf(),
            retire_post(*old(self), *final(self)),
    {
        let n = self.rob.entries.len();
        let mut i: usize = 0;
        while i < n
            invariant
                *self == *old(self),
                old(self).wf(),
                n == old(self).rob.entries@.len(),
                0 <= i <= n,
                forall|k: int|
                    0 <= k < i ==> (#[trigger] old(self).rob.entries@[k]).retired_at != 0,
            decreases n - i,
        {
            let e = self.rob.entries[i];
            if e.retired_at == 0 {
                proof {
                    assert(i >= old(self).rob.head);
                    if old(self).rob.head < i {
                        assert(old(self).rob.entries@[old(self).rob.head as int].retired_at
                            != 0);
                        assert(false);
                    }
                    assert(i == old(self).rob.head);
                }
                if e.completed_at != 0 {
                    let mut e2 = e;
                    e2.retired_at = self.cycle;
                    self.rob.entries.set(i, e2);
                    self.rob.head = self.rob.head + 1;
                    if let Some(told) = e.t_old {
                        if told != 0 {
                            self.free_list.push_back(told);
                        }
                    }
                    proof {
                        lemma_retire_wf(*old(self), *self);
                    }
                }
                return ;
            }
            i = i + 1;
        }
        proof {
            assert(old(self).rob.head >= n) by {
                if old(self).rob.head < n {
                    assert(old(self).rob.entries@[old(self).rob.head as int].retired_at != 0);
                }
            }
        }
    }

    /// Complete stage: in program order, the first entry whose instruction
    /// has drained its latency and has not yet completed is marked completed
    /// at the current cycle; its destination tag is then broadcast to the
    /// map table and to every station operand snapshot naming it. At most
    /// one entry completes per call (a single writeback port).
    pub fn complete(&mut self)
        requires
            old(self).wf(),
        ensures
            final(self).wf(),
            complete_post(*old(self), *final(self)),
    {
        let n = self.rob.entries.len();
        let mut j: usize = 0;
        while j < n
            invariant
                *self == *old(self),
                old(self).wf(),
                n == old(self).rob.entries@.len(),
                0 <= j <= n,
                forall|k: int| 0 <= k < j ==> !old(self).complete_ready(k),
            decreases n - j,
        {
            let e = self.rob.entries[j];
            proof {
                assert(e.inst_ind == j);
            }
            if self.trace[e.inst_ind].delay == 0 && e.completed_at == 0 {
                proof {
                    assert(old(self).complete_ready(j as int));
                }
                if let Some(t) = e.t {
                    let m = self.map_table.len();
                    let mut i: usize = 0;
                    while i < m
                        invariant
                            old(self).wf(),
                            m == old(self).map_table@.len(),
                            0 <= i <= m,
                            self.rob == old(self).rob,
                            self.arch_regs == old(self).arch_regs,
                            self.free_list == old(self).free_list,
                            self.res_stations == old(self).res_stations,
                            self.trace == old(self).trace,
                            self.cycle == old(self).cycle,
                            self.trace_ind == old(self).trace_ind,
                            self.num_p_regs == old(self).num_p_regs,
                            self.map_table@.len() == m,
                            forall|i0: int|
                                0 <= i0 < i ==> self.map_table@[i0] == bump_preg(
                                    old(self).map_table@[i0],
                                    t,
                                ),
                            forall|i0: int|
                                i <= i0 < m ==> self.map_table@[i0] == old(self).map_table@[i0],
                        decreases m - i,
                    {
                        let p = self.map_table[i];
                        if p.num == t {
                            let mut p2 = p;
                            p2.ready = true;
                            self.map_table.set(i, p2);
                        }
                        i = i + 1;
                    }
                    let sn = self.res_stations.len();
                    let mut s: usize = 0;
                    while s < sn
                        invariant
                            old(self).wf(),
                            m == old(self).map_table@.len(),
                            sn == old(self).res_stations@.len(),
                            0 <= s <= sn,
                            self.rob == old(self).rob,
                            self.arch_regs == old(self).arch_regs,
                            self.free_list == old(self).free_list,
                            self.trace == old(self).trace,
                            self.cycle == old(self).cycle,
                            self.trace_ind == old(self).trace_ind,
                            self.num_p_regs == old(self).num_p_regs,
                            self.map_table@.len() == m,
                            forall|i0: int|
                                0 <= i0 < m ==> self.map_table@[i0] == bump_preg(
                                    old(self).map_table@[i0],
                                    t,
                                ),
                            self.res_stations@.len() == sn,
                            forall|s0: int|
                                0 <= s0 < s ==> self.res_stations@[s0] == bump_station(
                                    old(self).res_stations@[s0],
                                    t,
                                ),
                            forall|s0: int|
                                s <= s0 < sn ==> self.res_stations@[s0] == old(
                                    self,
                                ).res_stations@[s0],
                        decreases sn - s,
                    {
                        let mut st = self.res_stations[s];
                        if let Some(t1v) = st.t1 {
                            if t1v.num == t {
                                st.t1 = Some(PReg { num: t1v.num, ready: true });
                            }
                        }
                        if let Some(t2v) = st.t2 {
                            if t2v.num == t {
                                st.t2 = Some(PReg { num: t2v.num, ready: true });
                            }
                        }
                        self.res_stations.set(s, st);
                        s = s + 1;
                    }
                }
                let mut e2 = e;
                e2.completed_at = self.cycle;
                self.rob.entries.set(j, e2);
                proof {
                    lemma_wf_frame(*old(self), *self);
                    assert(complete_post(*old(self), *self));
                }
                return ;
            }
            proof {
                assert(!old(self).complete_ready(j as int));
            }
            j = j + 1;
        }
        proof {
            assert(!(exists|k: int| 0 <= k < n && old(self).complete_ready(k)));
        }
    }

    /// Execute stage: every entry that issued in an earlier cycle starts
    /// executing if it has not yet, releasing its reservation station for
    /// reuse; and, oldest first, drains one cycle of latency if its
    /// functional-unit instance has not already served another instruction
    /// this cycle.
    pub fn execute(&mut self)
        requires
            old(self).wf(),
        ensures
            final(self).wf(),
            execute_post(*old(self), *final(self)),
    {
        let mut fu_busy: Vec<(u32, u32)> = Vec::new();
        let n = self.rob.entries.len();
        let tn = self.trace.len();
        let sn = self.res_stations.len();
        let mut j: usize = 0;
        while j < n
            invariant
                old(self).wf(),
                n == old(self).rob.entries@.len(),
                tn == old(self).trace@.len(),
                sn == old(self).res_stations@.len(),
                0 <= j <= n,
                self.rob.entries@.len() == n,
                self.rob.head == old(self).rob.head,
                self.rob.tail == old(self).rob.tail,
                self.rob.max_entries == old(self).rob.max_entries,
                self.arch_regs == old(self).arch_regs,
                self.map_table == old(self).map_table,
                self.free_list == old(self).free_list,
                self.cycle == old(self).cycle,
                self.trace_ind == old(self).trace_ind,
                self.num_p_regs == old(self).num_p_regs,
                self.trace@.len() == tn,
                self.res_stations@.len() == sn,
                forall|j0: int|
                    0 <= j0 < n ==> #[trigger] self.rob.entries@[j0] == (if j0 < j && old(self).releases(
                        j0,
                    ) {
                        ROBEntry {
                            execute_started_at: old(self).cycle,
                            ..old(self).rob.entries@[j0]
                        }
                    } else {
                        old(self).rob.entries@[j0]
                    }),
                forall|k: int|
                    0 <= k < tn ==> #[trigger] self.trace@[k] == (if k < j && k < n && old(self).exec_dec(
                        k,
                    ) {
                        Inst {
                            delay: (old(self).trace@[k].delay - 1) as u32,
                            ..old(self).trace@[k]
                        }
                    } else {
                        old(self).trace@[k]
                    }),
                forall|s: int|
                    0 <= s < sn ==> #[trigger] self.res_stations@[s] == (if exists|j0: int|
                        j0 < j && (#[trigger] old(self).releases(j0))
                            && old(self).rob.entries@[j0].rs_ind == s {
                        cleared(old(self).res_stations@[s])
                    } else {
                        old(self).res_stations@[s]
                    }),
                forall|f: (u32, u32)|
                    #[trigger] fu_busy@.contains(f) <==> exists|k: int|
                        0 <= k < j && (#[trigger] old(self).exec_elig(k)) && old(self).fu_of(k)
                            == f,
            decreases n - j,
        {
            let ghost snap = *old(self);
            let e = self.rob.entries[j];
            proof {
                assert(e == snap.rob.entries@[j as int]);
                assert(e.inst_ind == j);
                assert(e.rs_ind < sn);
            }
            if e.issued_at != 0 && e.issued_at != self.cycle {
                proof {
                    assert(snap.waiting(j as int));
                }
                if e.execute_started_at == 0 {
                    proof {
                        assert(snap.releases(j as int));
                        assert forall|j0: int|
                            !(j0 < j && (#[trigger] snap.releases(j0))
                                && snap.rob.entries@[j0].rs_ind == e.rs_ind) by {
                            if j0 < j && snap.releases(j0) && snap.rob.entries@[j0].rs_ind
                                == e.rs_ind {
                                assert(snap.rob.entries@[j0].execute_started_at == 0);
                                assert(snap.rob.entries@[j as int].execute_started_at == 0);
                            }
                        }
                        assert(self.res_stations@[e.rs_ind as int] == snap.res_stations@[e.rs_ind
                            as int]);
                    }
                    let mut e2 = e;
                    e2.execute_started_at = self.cycle;
                    self.rob.entries.set(j, e2);
                    let sti = e.rs_ind;
                    let mut st = self.res_stations[sti];
                    st.busy = false;
                    st.t = None;
                    st.t1 = None;
                    st.t2 = None;
                    self.res_stations.set(sti, st);
                    proof {
                        assert(self.res_stations@[sti as int] == cleared(
                            snap.res_stations@[sti as int],
                        ));
                        assert forall|s: int|
                            0 <= s < sn implies #[trigger] self.res_stations@[s] == (if exists|j0: int|
                                j0 < j + 1 && (#[trigger] snap.releases(j0))
                                    && snap.rob.entries@[j0].rs_ind == s {
                                cleared(snap.res_stations@[s])
                            } else {
                                snap.res_stations@[s]
                            }) by {
                            if s == sti as int {
                                assert(snap.releases(j as int) && snap.rob.entries@[j as int].rs_ind
                                    == s);
                            } else {
                                if exists|j0: int|
                                    j0 < j + 1 && (#[trigger] snap.releases(j0))
                                        && snap.rob.entries@[j0].rs_ind == s {
                                    let j0 = choose|j0: int|
                                        j0 < j + 1 && (#[trigger] snap.releases(j0))
                                            && snap.rob.entries@[j0].rs_ind == s;
                                    assert(j0 != j);
                                    assert(j0 < j);
                                }
                            }
                        }
                    }
                }
                let ii = e.inst_ind;
                let it = self.trace[ii];
                proof {
                    assert(it == snap.trace@[j as int]);
                }
                if it.delay > 0 {
                    proof {
                        assert(snap.exec_elig(j as int));
                    }
                    let st_now = self.res_stations[e.rs_ind];
                    proof {
                        assert((st_now.fu_type, st_now.fu_num) == snap.fu_of(j as int));
                    }
                    if !contains_fu(&fu_busy, st_now.fu_type, st_now.fu_num) {
                        proof {
                            assert(!fu_busy@.contains(snap.fu_of(j as int)));
                            assert forall|k: int|
                                0 <= k < j implies !((#[trigger] snap.exec_elig(k))
                                && snap.fu_of(k) == snap.fu_of(j as int)) by {
                                if snap.exec_elig(k) && snap.fu_of(k) == snap.fu_of(j as int) {
                                    assert(fu_busy@.contains(snap.fu_of(j as int)));
                                }
                            }
                            assert(snap.exec_dec(j as int));
                        }
                        let mut it2 = it;
                        it2.delay = it2.delay - 1;
                        self.trace.set(ii, it2);
                        let ghost fu_before = fu_busy@;
                        fu_busy.push((st_now.fu_type, st_now.fu_num));
                        proof {
                            assert forall|f: (u32, u32)| #[trigger]
                                fu_busy@.contains(f) <==> exists|k: int|
                                    0 <= k < j + 1 && (#[trigger] snap.exec_elig(k))
                                        && snap.fu_of(k) == f by {
                                if fu_busy@.contains(f) {
                                    let i0 = choose|i0: int|
                                        0 <= i0 < fu_busy@.len() && fu_busy@[i0] == f;
                                    if i0 < fu_before.len() {
                                        assert(fu_before[i0] == f);
                                        assert(fu_before.contains(f));
                                    } else {
                                        assert(f == snap.fu_of(j as int));
                                        assert(snap.exec_elig(j as int) && snap.fu_of(j as int)
                                            == f);
                                    }
                                }
                                if exists|k: int|
                                    0 <= k < j + 1 && (#[trigger] snap.exec_elig(k))
                                        && snap.fu_of(k) == f {
                                    let k = choose|k: int|
                                        0 <= k < j + 1 && (#[trigger] snap.exec_elig(k))
                                            && snap.fu_of(k) == f;
                                    if k < j {
                                        assert(fu_before.contains(f));
                                        let i0 = choose|i0: int|
                                            0 <= i0 < fu_before.len() && fu_before[i0] == f;
                                        assert(fu_busy@[i0] == f);
                                    } else {
                                        assert(fu_busy@[fu_before.len() as int] == f);
                                    }
                                }
                            }
                        }
                    } else {
                        proof {
                            assert(fu_busy@.contains(snap.fu_of(j as int)));
                            assert(!snap.exec_dec(j as int));
                            assert forall|f: (u32, u32)| #[trigger]
                                fu_busy@.contains(f) <==> exists|k: int|
                                    0 <= k < j + 1 && (#[trigger] snap.exec_elig(k))
                                        && snap.fu_of(k) == f by {
                                if exists|k: int|
                                    0 <= k < j + 1 && (#[trigger] snap.exec_elig(k))
                                        && snap.fu_of(k) == f {
                                    let k = choose|k: int|
                                        0 <= k < j + 1 && (#[trigger] snap.exec_elig(k))
                                            && snap.fu_of(k) == f;
                                    if k == j {
                                        assert(f == snap.fu_of(j as int));
                                    }
                                }
                            }
                        }
                    }
                } else {
                    proof {
                        assert(!snap.exec_elig(j as int));
                    }
                }
            } else {
                proof {
                    assert(!snap.waiting(j as int));
                    assert(!snap.releases(j as int));
                    assert(!snap.exec_elig(j as int));
                }
            }
            j = j + 1;
        }
        proof {
            lemma_execute_wf(*old(self), *self);
        }
    }

    /// Issue stage: scan entries oldest to youngest; the first not-yet-issued
    /// entry whose two operand snapshots are both satisfied is marked issued
    /// at the current cycle. Entries that are not ready are skipped, so issue
    /// is out of order among waiting instructions, but at most one entry
    /// issues per call.
    pub fn issue(&mut self)
        requires
            old(self).wf(),
        ensures
            final(self).wf(),
            issue_post(*old(self), *final(self)),
    {
        let n = self.rob.entries.len();
        let mut j: usize = 0;
        while j < n
            invariant
                *self == *old(self),
                old(self).wf(),
                n == old(self).rob.entries@.len(),
                0 <= j <= n,
                forall|k: int| 0 <= k < j ==> !old(self).issue_ready(k),
            decreases n - j,
        {
            let e = self.rob.entries[j];
            if e.issued_at == 0 {
                let st = self.res_stations[e.rs_ind];
                let sat1 = match st.t1 {
                    None => true,
                    Some(p) => p.ready,
                };
                let sat2 = match st.t2 {
                    None => true,
                    Some(p) => p.ready,
                };
                if sat1 && sat2 {
                    let mut e2 = e;
                    e2.issued_at = self.cycle;
                    self.rob.entries.set(j, e2);
                    proof {
                        assert(old(self).issue_ready(j as int));
                        lemma_wf_frame(*old(self), *self);
                        assert(issue_post(*old(self), *self));
                    }
                    return ;
                }
            }
            proof {
                assert(!old(self).issue_ready(j as int));
            }
            j = j + 1;
        }
        proof {
            assert(!(exists|k: int| 0 <= k < n && old(self).issue_ready(k)));
        }
    }
}

/// Well-formedness survives the execute stage: only timestamps, latencies
/// and released stations change, and a station is only released by the one
/// entry that owned it.
proof fn lemma_execute_wf(pre: OOOSim, post: OOOSim)
    requires
        pre.wf(),
        execute_post(pre, post),
    ensures
        post.wf(),
{
    assert forall|j: int|
        0 <= j < post.rob.entries@.len() && (#[trigger] post.rob.entries@[j]).execute_started_at
            == 0 implies post.res_stations@[post.rob.entries@[j].rs_ind as int].busy
        == pre.res_stations@[post.rob.entries@[j].rs_ind as int].busy by {
        assert(!pre.releases(j));
        assert(post.rob.entries@[j] == pre.rob.entries@[j]);
        let s = post.rob.entries@[j].rs_ind as int;
        if pre.station_released(s) {
            let j0 = choose|j0: int|
                pre.releases(j0) && (#[trigger] pre.rob.entries@[j0]).rs_ind == s;
            assert(pre.rob.entries@[j0].execute_started_at == 0);
            assert(pre.rob.entries@[j].execute_started_at == 0);
            assert(j0 != j);
            assert(false);
        }
        assert(post.res_stations@[s] == pre.res_stations@[s]);
    }
    assert forall|k: int|
        0 <= k < pre.trace@.len() implies {
            let i0 = pre.trace@[k];
            let i1 = #[trigger] post.trace@[k];
            i1.rt == i0.rt && i1.rs1 == i0.rs1 && i1.rs2 == i0.rs2
        } by {
        assert(post.trace@[k] == (if k < pre.rob.entries@.len() && pre.exec_dec(k) {
            Inst { delay: (pre.trace@[k].delay - 1) as u32, ..pre.trace@[k] }
        } else {
            pre.trace@[k]
        }));
    }
    lemma_wf_frame(pre, post);
}

/// The retire stage leaves lengths, the cycle, the trace cursor and the
/// issue/complete timestamps alone, and retires at most one entry.
proof fn lemma_retire_frame(pre: OOOSim, post: OOOSim)
    requires
        pre.wf(),
        retire_post(pre, post),
    ensures
        post.rob.entries@.len() == pre.rob.entries@.len(),
        post.trace_ind == pre.trace_ind,
        post.cycle == pre.cycle,
        post.trace == pre.trace,
        forall|j: int|
            0 <= j < pre.rob.entries@.len() ==> {
                let e0 = pre.rob.entries@[j];
                let e1 = #[trigger] post.rob.entries@[j];
                e1.issued_at == e0.issued_at && e1.completed_at == e0.completed_at
            },
        forall|j: int, k: int|
            0 <= j < pre.rob.entries@.len() && 0 <= k < pre.rob.entries@.len()
                && (#[trigger] pre.rob.entries@[j]).retired_at == 0
                && (#[trigger] post.rob.entries@[j]).retired_at != 0
                && (#[trigger] pre.rob.entries@[k]).retired_at == 0
                && (#[trigger] post.rob.entries@[k]).retired_at != 0 ==> j == k,
{
    let es = pre.rob.entries@;
    let h = pre.rob.head as int;
    if h == es.len() || es[h].completed_at == 0 {
        assert(post == pre);
    } else {
        assert(post.rob.entries@ == es.update(h, ROBEntry { retired_at: pre.cycle, ..es[h] }));
        assert forall|j: int| 0 <= j < es.len() && j != h implies #[trigger] post.rob.entries@[j]
            == es[j] by {
            assert(post.rob.entries@[j] == es.update(
                h,
                ROBEntry { retired_at: pre.cycle, ..es[h] },
            )[j]);
        }
    }
}

/// The complete stage leaves lengths, the cycle, the trace cursor and the
/// issue/retire timestamps alone, and completes at most one entry.
proof fn lemma_complete_frame(pre: OOOSim, post: OOOSim)
    requires
        complete_post(pre, post),
    ensures
        post.rob.entries@.len() == pre.rob.entries@.len(),
        post.trace_ind == pre.trace_ind,
        post.cycle == pre.cycle,
        post.trace == pre.trace,
        forall|j: int|
            0 <= j < pre.rob.entries@.len() ==> {
                let e0 = pre.rob.entries@[j];
                let e1 = #[trigger] post.rob.entries@[j];
                e1.issued_at == e0.issued_at && e1.retired_at == e0.retired_at
            },
        forall|j: int, k: int|
            0 <= j < pre.rob.entries@.len() && 0 <= k < pre.rob.entries@.len()
                && (#[trigger] pre.rob.entries@[j]).completed_at == 0
                && (#[trigger] post.rob.entries@[j]).completed_at != 0
                && (#[trigger] pre.rob.entries@[k]).completed_at == 0
                && (#[trigger] post.rob.entries@[k]).completed_at != 0 ==> j == k,
{
    if exists|j: int| 0 <= j < pre.rob.entries@.len() && pre.complete_ready(j) {
    } else {
        assert(post == pre);
    }
}

/// The execute stage never touches the issue, complete or retire
/// timestamps, nor the lengths, the cycle or the trace cursor.
proof fn lemma_execute_frame(pre: OOOSim, post: OOOSim)
    requires
        execute_post(pre, post),
    ensures
        post.rob.entries@.len() == pre.rob.entries@.len(),
        post.trace_ind == pre.trace_ind,
        post.cycle == pre.cycle,
        forall|j: int|
            0 <= j < pre.rob.entries@.len() ==> {
                let e0 = pre.rob.entries@[j];
                let e1 = #[trigger] post.rob.entries@[j];
                e1.issued_at == e0.issued_at && e1.completed_at == e0.completed_at
                    && e1.retired_at == e0.retired_at
            },
{
}

/// The issue stage leaves lengths, the cycle, the trace cursor and the
/// complete/retire timestamps alone, and issues at most one entry.
proof fn lemma_issue_frame(pre: OOOSim, post: OOOSim)
    requires
        issue_post(pre, post),
    ensures
        post.rob.entries@.len() == pre.rob.entries@.len(),
        post.trace_ind == pre.trace_ind,
        post.cycle == pre.cycle,
        post.trace == pre.trace,
        forall|j: int|
            0 <= j < pre.rob.entries@.len() ==> {
                let e0 = pre.rob.entries@[j];
                let e1 = #[trigger] post.rob.entries@[j];
                e1.completed_at == e0.completed_at && e1.retired_at == e0.retired_at
            },
        forall|j: int, k: int|
            0 <= j < pre.rob.entries@.len() && 0 <= k < pre.rob.entries@.len()
                && (#[trigger] pre.rob.entries@[j]).issued_at == 0
                && (#[trigger] post.rob.entries@[j]).issued_at != 0
                && (#[trigger] pre.rob.entries@[k]).issued_at == 0
                && (#[trigger] post.rob.entries@[k]).issued_at != 0 ==> j == k,
{
    if exists|j: int| 0 <= j < pre.rob.entries@.len() && pre.issue_ready(j) {
    } else {
        assert(post == pre);
    }
}

/// The dispatch stage appends at most one entry, never changes an existing
/// one, and advances the trace cursor by at most one.
proof fn lemma_dispatch_frame(pre: OOOSim, post: OOOSim)
    requires
        dispatch_post(pre, post),
    ensures
        pre.rob.entries@.len() <= post.rob.entries@.len() <= pre.rob.entries@.len() + 1,
        pre.trace_ind <= post.trace_ind <= pre.trace_ind + 1,
        post.cycle == pre.cycle,
        forall|j: int|
            0 <= j < pre.rob.entries@.len() ==> #[trigger] post.rob.entries@[j]
                == pre.rob.entries@[j],
{
    if pre.dispatch_stalled() {
        assert(post == pre);
    } else {
        let si = choose|si: usize| dispatch_success(pre, post, si);
        assert(dispatch_success(pre, post, si));
    }
}

/// With distinct architectural registers, `arch_index` is the one row that
/// holds the register.
proof fn lemma_arch_index_unique(arch: Seq<VReg>, vr: VReg, i: int)
    requires
        0 <= i < arch.len(),
        arch[i] == vr,
        forall|a: int, b: int|
            0 <= a < arch.len() && 0 <= b < arch.len() && a != b ==> arch[a] != arch[b],
    ensures
        arch_index(arch, vr) == i,
{
    let j = arch_index(arch, vr);
    assert(0 <= j < arch.len() && arch[j] == vr);
    if j != i {
        assert(arch[j] != arch[i]);
        assert(false);
    }
}

/// Well-formedness survives a successful dispatch: the fresh tag moves from
/// the free list to the map table, the displaced tag moves from the map
/// table to the new entry, and every other tag keeps its owner.
proof fn lemma_dispatch_wf(pre: OOOSim, post: OOOSim, si: usize)
    requires
        pre.wf(),
        !pre.dispatch_stalled(),
        dispatch_success(pre, post, si),
    ensures
        post.wf(),
{
    let idx = pre.trace_ind as int;
    let inst = pre.trace@[idx];
    let arch = pre.arch_regs@;
    let es = pre.rob.entries@;
    let l = es.len() as int;
    let h = pre.rob.head as int;
    assert(idx < pre.trace@.len());
    assert(l - h < pre.rob.max_entries);
    let s_i = si as int;
    assert(pre.first_free_station(inst.fu, s_i));
    assert forall|j: int| 0 <= j < l implies #[trigger] post.rob.entries@[j] == es[j] by {}
    assert(post.rob.entries@.len() == l + 1);
    assert(post.live(l));
    match inst.rt {
        Some(v) => {
            assert(arch.contains(v));
            let di = arch_index(arch, v);
            assert(0 <= di < arch.len() && arch[di] == v);
            let tnew = pre.free_list@[0];
            let told = pre.map_table@[di].num;
            assert(pre.free_list@.len() > 0);
            assert(pre.fl_has(tnew));
            assert(1 <= tnew <= pre.num_p_regs);
            assert(pre.mt_has(told));
            assert(1 <= told <= pre.num_p_regs);
            assert(!pre.mt_has(tnew));
            assert(!pre.old_has(tnew));
            assert(!pre.fl_has(told));
            assert(!pre.old_has(told));
            assert(tnew != told);
            assert(post.rob.entries@[l].t == Some(tnew));
            assert(post.rob.entries@[l].t_old == Some(told));
            assert forall|t: u32| post.fl_has(t) == (pre.fl_has(t) && t != tnew) by {
                if post.fl_has(t) {
                    let i = choose|i: int|
                        0 <= i < post.free_list@.len() && (#[trigger] post.free_list@[i]) == t;
                    assert(pre.free_list@[i + 1] == t);
                    if t == tnew {
                        assert(pre.free_list@[0] == pre.free_list@[i + 1]);
                        assert(false);
                    }
                }
                if pre.fl_has(t) && t != tnew {
                    let i = choose|i: int|
                        0 <= i < pre.free_list@.len() && (#[trigger] pre.free_list@[i]) == t;
                    assert(i != 0);
                    assert(post.free_list@[i - 1] == t);
                }
            }
            assert forall|t: u32|
                post.mt_has(t) == ((pre.mt_has(t) && t != told) || t == tnew) by {
                if post.mt_has(t) {
                    let i = choose|i: int|
                        0 <= i < post.map_table@.len() && (#[trigger] post.map_table@[i]).num
                            == t;
                    if i == di {
                        assert(t == tnew);
                    } else {
                        assert(pre.map_table@[i].num == t);
                        if t == told {
                            assert(pre.map_table@[i].num == pre.map_table@[di].num);
                            assert(false);
                        }
                    }
                }
                if pre.mt_has(t) && t != told {
                    let i = choose|i: int|
                        0 <= i < pre.map_table@.len() && (#[trigger] pre.map_table@[i]).num == t;
                    assert(i != di);
                    assert(post.map_table@[i].num == t);
                }
                if t == tnew {
                    assert(post.map_table@[di].num == tnew);
                }
            }
            assert forall|t: u32| post.old_has(t) == (pre.old_has(t) || t == told) by {
                if post.old_has(t) {
                    let j = choose|j: int|
                        post.live(j) && (#[trigger] post.rob.entries@[j]).t_old == Some(t);
                    if j < l {
                        assert(pre.live(j));
                        assert(pre.rob.entries@[j].t_old == Some(t));
                        assert(pre.old_has(t));
                    } else {
                        assert(t == told);
                    }
                }
                if pre.old_has(t) {
                    let j = choose|j: int|
                        pre.live(j) && (#[trigger] pre.rob.entries@[j]).t_old == Some(t);
                    assert(post.rob.entries@[j].t_old == Some(t));
                    assert(post.live(j));
                }
                if t == told {
                    assert(post.rob.entries@[l].t_old == Some(told));
                }
            }
            assert forall|i: int, k: int|
                0 <= i < post.map_table@.len() && 0 <= k < post.map_table@.len() && i != k
                    implies (#[trigger] post.map_table@[i]).num != (#[trigger] post.map_table@[k]).num by {
                if i == di {
                    if post.map_table@[k].num == tnew {
                        assert(pre.map_table@[k].num == tnew);
                        assert(pre.mt_has(tnew));
                    }
                } else if k == di {
                    if post.map_table@[i].num == tnew {
                        assert(pre.map_table@[i].num == tnew);
                        assert(pre.mt_has(tnew));
                    }
                } else {
                    assert(pre.map_table@[i].num != pre.map_table@[k].num);
                }
            }
            assert forall|j1: int, j2: int|
                post.live(j1) && post.live(j2) && j1 != j2 && (#[trigger] post.rob.entries@[j1]).t_old
                    is Some implies post.rob.entries@[j1].t_old != (
                #[trigger] post.rob.entries@[j2]).t_old by {
                if j1 < l && j2 < l {
                    assert(pre.live(j1) && pre.live(j2));
                } else if j1 == l && j2 < l {
                    if post.rob.entries@[j2].t_old == Some(told) {
                        assert(pre.old_has(told));
                    }
                } else if j2 == l && j1 < l {
                    if post.rob.entries@[j1].t_old == Some(told) {
                        assert(pre.old_has(told));
                    }
                }
            }
            assert forall|t: u32| !(#[trigger] post.fl_has(t) && post.mt_has(t)) by {
                if post.fl_has(t) && post.mt_has(t) {
                    assert(!(pre.fl_has(t) && pre.mt_has(t)));
                }
            }
            assert forall|t: u32| !(#[trigger] post.fl_has(t) && post.old_has(t)) by {
                if post.fl_has(t) && post.old_has(t) {
                    assert(!(pre.fl_has(t) && pre.old_has(t)));
                    assert(t == told);
                    assert(!pre.fl_has(told));
                }
            }
            assert forall|t: u32| !(#[trigger] post.mt_has(t) && post.old_has(t)) by {
                if post.mt_has(t) && post.old_has(t) {
                    assert(!(pre.mt_has(t) && pre.old_has(t)));
                    if t == tnew {
                        assert(pre.old_has(tnew) || tnew == told);
                    } else {
                        assert(t == told);
                        assert(pre.mt_has(told));
                    }
                }
            }
            assert forall|t: u32|
                1 <= t <= post.num_p_regs implies (#[trigger] post.fl_has(t)) || post.mt_has(t)
                || post.old_has(t) by {
                assert(pre.fl_has(t) || pre.mt_has(t) || pre.old_has(t));
                if pre.fl_has(t) {
                    if t == tnew {
                        assert(post.mt_has(tnew));
                    } else {
                        assert(post.fl_has(t));
                    }
                } else if pre.mt_has(t) {
                    if t == told {
                        assert(post.old_has(told));
                    } else {
                        assert(post.mt_has(t));
                    }
                } else {
                    assert(post.old_has(t));
                }
            }
            assert forall|j: int| post.live(j) implies post.new_tag_covered(j) by {
                if j == l {
                    assert(post.mt_has(tnew));
                } else {
                    assert(pre.live(j));
                    assert(pre.new_tag_covered(j));
                    match post.rob.entries@[j].t {
                        Some(tj) => {
                            assert(pre.rob.entries@[j].t == Some(tj));
                            if pre.mt_has(tj) {
                                if tj == told {
                                    assert(post.rob.entries@[l].t_old == Some(told));
                                    assert(post.live(l));
                                } else {
                                    assert(post.mt_has(tj));
                                }
                            } else {
                                let m = choose|m: int|
                                    j < m && pre.live(m) && (#[trigger] pre.rob.entries@[m]).t_old
                                        == Some(tj);
                                assert(post.rob.entries@[m].t_old == Some(tj));
                                assert(post.live(m));
                            }
                        },
                        None => {},
                    }
                }
            }
            assert forall|i: int|
                0 <= i < post.free_list@.len() implies 1 <= #[trigger] post.free_list@[i]
                <= post.num_p_regs by {
                assert(post.free_list@[i] == pre.free_list@[i + 1]);
            }
            assert forall|i: int, k: int|
                0 <= i < post.free_list@.len() && 0 <= k < post.free_list@.len() && i != k
                    implies post.free_list@[i] != post.free_list@[k] by {
                assert(post.free_list@[i] == pre.free_list@[i + 1]);
                assert(post.free_list@[k] == pre.free_list@[k + 1]);
            }
        },
        None => {
            assert(post.free_list == pre.free_list);
            assert(post.map_table == pre.map_table);
            assert(post.rob.entries@[l].t is None);
            assert(post.rob.entries@[l].t_old is None);
            assert forall|t: u32| post.mt_has(t) == pre.mt_has(t) by {}
            assert forall|t: u32| post.old_has(t) == pre.old_has(t) by {
                if post.old_has(t) {
                    let j = choose|j: int|
                        post.live(j) && (#[trigger] post.rob.entries@[j]).t_old == Some(t);
                    assert(j < l);
                    assert(pre.live(j));
                    assert(pre.rob.entries@[j].t_old == Some(t));
                }
                if pre.old_has(t) {
                    let j = choose|j: int|
                        pre.live(j) && (#[trigger] pre.rob.entries@[j]).t_old == Some(t);
                    assert(post.rob.entries@[j].t_old == Some(t));
                    assert(post.live(j));
                }
            }
            assert forall|t: u32| !(#[trigger] post.fl_has(t) && post.mt_has(t)) by {
                assert(!(pre.fl_has(t) && pre.mt_has(t)));
            }
            assert forall|t: u32| !(#[trigger] post.fl_has(t) && post.old_has(t)) by {
                assert(!(pre.fl_has(t) && pre.old_has(t)));
            }
            assert forall|t: u32| !(#[trigger] post.mt_has(t) && post.old_has(t)) by {
                assert(!(pre.mt_has(t) && pre.old_has(t)));
            }
            assert forall|t: u32|
                1 <= t <= post.num_p_regs implies (#[trigger] post.fl_has(t)) || post.mt_has(t)
                || post.old_has(t) by {
                assert(pre.fl_has(t) || pre.mt_has(t) || pre.old_has(t));
            }
            assert forall|j: int| post.live(j) implies post.new_tag_covered(j) by {
                if j < l {
                    assert(pre.live(j));
                    assert(pre.new_tag_covered(j));
                    match post.rob.entries@[j].t {
                        Some(tj) => {
                            assert(pre.rob.entries@[j].t == Some(tj));
                            if pre.mt_has(tj) {
                                assert(post.mt_has(tj));
                            } else {
                                let m = choose|m: int|
                                    j < m && pre.live(m) && (#[trigger] pre.rob.entries@[m]).t_old
                                        == Some(tj);
                                assert(post.rob.entries@[m].t_old == Some(tj));
                                assert(post.live(m));
                            }
                        },
                        None => {},
                    }
                }
            }
        },
    }
    // stations: the chosen one was free, so no unexecuted entry owned it
    assert forall|j: int|
        0 <= j < l && (#[trigger] post.rob.entries@[j]).execute_started_at == 0 implies
        post.rob.entries@[j].rs_ind != si by {
        if post.rob.entries@[j].rs_ind == si {
            assert(pre.rob.entries@[j].execute_started_at == 0);
            assert(pre.res_stations@[pre.rob.entries@[j].rs_ind as int].busy);
            assert(pre.res_stations@[s_i].busy);
        }
    }
    assert(0 <= s_i < pre.res_stations@.len());
    assert(post.res_stations@[s_i].busy);
    assert(post.rob.entries@[l].rs_ind == si);
    assert forall|j: int|
        0 <= j < post.rob.entries@.len() && (#[trigger] post.rob.entries@[j]).execute_started_at
            == 0 implies post.res_stations@[post.rob.entries@[j].rs_ind as int].busy by {
        if j < l {
            assert(pre.rob.entries@[j].execute_started_at == 0);
            assert(pre.rob.entries@[j].rs_ind < pre.res_stations@.len());
            assert(pre.res_stations@[pre.rob.entries@[j].rs_ind as int].busy);
            assert(post.rob.entries@[j].rs_ind != si);
            assert(post.res_stations@[post.rob.entries@[j].rs_ind as int]
                == pre.res_stations@[pre.rob.entries@[j].rs_ind as int]);
        } else {
            assert(j == l);
            assert(post.rob.entries@[j].rs_ind == si);
        }
    }
}

/// Well-formedness survives a successful retirement.
proof fn lemma_retire_wf(pre: OOOSim, post: OOOSim)
    requires
        pre.wf(),
        pre.rob.head < pre.rob.entries@.len(),
        pre.rob.entries@[pre.rob.head as int].completed_at != 0,
        retire_post(pre, post),
    ensures
        post.wf(),
{
    let es = pre.rob.entries@;
    let h = pre.rob.head as int;
    let e = es[h];
    assert(e.retired_at == 0);
    assert(pre.live(h));
    // The tag movement: `e.t_old` (if any) leaves the displaced set and
    // joins the free list.
    assert forall|t: u32| post.mt_has(t) == pre.mt_has(t) by {}
    assert forall|t: u32| post.old_has(t) implies pre.old_has(t) && e.t_old != Some(t) by {
        let j = choose|j: int|
            post.live(j) && (#[trigger] post.rob.entries@[j]).t_old == Some(t);
        assert(j > h);
        assert(pre.rob.entries@[j].t_old == Some(t));
        assert(pre.live(j));
        if e.t_old == Some(t) {
            assert(pre.rob.entries@[j].t_old is Some);
            assert(pre.rob.entries@[j].t_old != pre.rob.entries@[h].t_old);
            assert(false);
        }
    }
    assert forall|t: u32| pre.old_has(t) && e.t_old != Some(t) implies post.old_has(t) by {
        let j = choose|j: int| pre.live(j) && (#[trigger] pre.rob.entries@[j]).t_old == Some(t);
        if j == h {
            assert(e.t_old == Some(t));
            assert(false);
        }
        assert(post.live(j));
        assert(post.rob.entries@[j].t_old == Some(t));
    }
    match e.t_old {
        Some(told) => {
            assert(1 <= told <= pre.num_p_regs);
            assert(pre.old_has(told));
            assert(!pre.fl_has(told));
            assert(!pre.mt_has(told));
            assert(post.free_list@ == pre.free_list@.push(told));
            assert forall|t: u32| post.fl_has(t) == (pre.fl_has(t) || t == told) by {
                if post.fl_has(t) {
                    let i = choose|i: int|
                        0 <= i < post.free_list@.len() && post.free_list@[i] == t;
                    if i < pre.free_list@.len() {
                        assert(pre.free_list@[i] == t);
                    } else {
                        assert(t == told);
                    }
                }
                if pre.fl_has(t) {
                    let i = choose|i: int|
                        0 <= i < pre.free_list@.len() && (#[trigger] pre.free_list@[i]) == t;
                    assert(post.free_list@[i] == t);
                }
                if t == told {
                    assert(post.free_list@[pre.free_list@.len() as int] == t);
                }
            }
        },
        None => {
            assert(post.free_list@ == pre.free_list@);
        },
    }
    assert forall|t: u32| !(#[trigger] post.fl_has(t) && post.old_has(t)) by {
        if post.fl_has(t) && post.old_has(t) {
            assert(pre.old_has(t));
            assert(e.t_old != Some(t));
            assert(!(pre.fl_has(t) && pre.old_has(t)));
            match e.t_old {
                Some(told) => {
                    assert(pre.fl_has(t) || t == told);
                },
                None => {},
            }
        }
    }
    assert forall|t: u32| !(#[trigger] post.fl_has(t) && post.mt_has(t)) by {
        if post.fl_has(t) && post.mt_has(t) {
            assert(pre.mt_has(t));
            assert(!(pre.fl_has(t) && pre.mt_has(t)));
            match e.t_old {
                Some(told) => {
                    assert(pre.fl_has(t) || t == told);
                    assert(pre.old_has(told));
                    assert(!(pre.mt_has(told) && pre.old_has(told)));
                },
                None => {},
            }
        }
    }
    assert forall|t: u32| !(#[trigger] post.mt_has(t) && post.old_has(t)) by {
        if post.mt_has(t) && post.old_has(t) {
            assert(pre.old_has(t));
            assert(!(pre.mt_has(t) && pre.old_has(t)));
        }
    }
    assert forall|t: u32|
        1 <= t <= post.num_p_regs implies (#[trigger] post.fl_has(t)) || post.mt_has(t)
        || post.old_has(t) by {
        assert(pre.fl_has(t) || pre.mt_has(t) || pre.old_has(t));
        if pre.old_has(t) {
            if e.t_old == Some(t) {
                assert(post.fl_has(t));
            } else {
                assert(post.old_has(t));
            }
        }
    }
    assert forall|j: int| post.live(j) implies post.new_tag_covered(j) by {
        assert(pre.live(j));
        assert(pre.new_tag_covered(j));
        assert(j > h);
        match post.rob.entries@[j].t {
            Some(t) => {
                assert(pre.rob.entries@[j].t == Some(t));
                if pre.mt_has(t) {
                    assert(post.mt_has(t));
                } else {
                    let m = choose|m: int|
                        j < m && pre.live(m) && (#[trigger] pre.rob.entries@[m]).t_old == Some(
                            t,
                        );
                    assert(m > h);
                    assert(post.live(m));
                    assert(post.rob.entries@[m].t_old == Some(t));
                }
            },
            None => {},
        }
    }
    assert forall|j: int|
        0 <= j < post.rob.entries@.len() && (#[trigger] post.rob.entries@[j]).execute_started_at
            == 0 implies post.res_stations@[post.rob.entries@[j].rs_ind as int].busy by {
        assert(pre.rob.entries@[j].execute_started_at == 0);
        assert(pre.res_stations@[pre.rob.entries@[j].rs_ind as int].busy);
    }
}

} // verus!
