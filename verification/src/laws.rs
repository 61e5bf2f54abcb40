//! The library's global laws, stated over the engine's well-formed states
//! and the stage contracts, and proved once and for all.

use vstd::prelude::*;

use crate::engine::{issue_post, retire_post, OOOSim};

verus! {

/// Tag partition: in every well-formed state, the free-list tags, the
/// map-table tags and the displaced (`t_old`) tags of live entries cover the
/// whole physical tag space, are pairwise disjoint, and nothing outside the
/// space is ever held. A tag always has exactly one owner.
pub proof fn lemma_tag_partition(s: OOOSim)
    requires
        s.wf(),
    ensures
        forall|t: u32|
            1 <= t <= s.num_p_regs ==> (#[trigger] s.fl_has(t)) || s.mt_has(t) || s.old_has(t),
        forall|t: u32| !(#[trigger] s.fl_has(t) && s.mt_has(t)),
        forall|t: u32| !(#[trigger] s.fl_has(t) && s.old_has(t)),
        forall|t: u32| !(#[trigger] s.mt_has(t) && s.old_has(t)),
        forall|t: u32|
            ((#[trigger] s.fl_has(t)) || s.mt_has(t) || s.old_has(t)) ==> 1 <= t
                <= s.num_p_regs,
{
    assert forall|t: u32|
        ((#[trigger] s.fl_has(t)) || s.mt_has(t) || s.old_has(t)) implies 1 <= t
        <= s.num_p_regs by {
        if s.fl_has(t) {
            let i = choose|i: int|
                0 <= i < s.free_list@.len() && (#[trigger] s.free_list@[i]) == t;
            assert(1 <= s.free_list@[i] <= s.num_p_regs);
        } else if s.mt_has(t) {
            let i = choose|i: int|
                0 <= i < s.map_table@.len() && (#[trigger] s.map_table@[i]).num == t;
        } else {
            let j = choose|j: int|
                s.live(j) && (#[trigger] s.rob.entries@[j]).t_old == Some(t);
        }
    }
}

/// Reclamation delay: while an entry is live (not yet retired), neither its
/// fresh destination tag nor the tag it displaced is ever in the free list,
/// so a tag is never handed out again while an in-flight instruction still
/// names it.
pub proof fn lemma_reclamation_delay(s: OOOSim, j: int)
    requires
        s.wf(),
        s.live(j),
    ensures
        match s.rob.entries@[j].t {
            Some(t) => !s.fl_has(t),
            None => true,
        },
        match s.rob.entries@[j].t_old {
            Some(t) => !s.fl_has(t),
            None => true,
        },
{
    assert(s.new_tag_covered(j));
    match s.rob.entries@[j].t {
        Some(t) => {
            assert(s.mt_has(t) || s.old_has(t));
            assert(!(s.fl_has(t) && s.mt_has(t)));
            assert(!(s.fl_has(t) && s.old_has(t)));
        },
        None => {},
    }
    match s.rob.entries@[j].t_old {
        Some(t) => {
            assert(s.old_has(t));
            assert(!(s.fl_has(t) && s.old_has(t)));
        },
        None => {},
    }
}

/// In-order retirement: whenever the oldest non-retired entry has not
/// completed, the retire stage changes nothing at all, no matter how many
/// younger entries have completed.
pub proof fn lemma_in_order_retirement(pre: OOOSim, post: OOOSim)
    requires
        pre.wf(),
        retire_post(pre, post),
        pre.rob.head < pre.rob.entries@.len(),
        pre.rob.entries@[pre.rob.head as int].completed_at == 0,
    ensures
        post == pre,
{
}

/// In-order dispatch: entries leave the trace and enter the reorder buffer
/// strictly in trace order — entry `j` always holds trace instruction `j`,
/// and the trace cursor equals the number of entries ever dispatched.
pub proof fn lemma_in_order_dispatch(s: OOOSim)
    requires
        s.wf(),
    ensures
        s.trace_ind == s.rob.entries@.len(),
        forall|j: int|
            0 <= j < s.rob.entries@.len() ==> (#[trigger] s.rob.entries@[j]).inst_ind == j,
{
}

/// Out-of-order issue: a waiting entry whose operands are not ready does not
/// block younger ready entries — whenever any entry is ready to issue, the
/// oldest ready one (never older than any given ready entry) issues this
/// cycle.
pub proof fn lemma_out_of_order_issue(pre: OOOSim, post: OOOSim, j: int)
    requires
        pre.wf(),
        issue_post(pre, post),
        0 <= j < pre.rob.entries@.len(),
        pre.issue_ready(j),
    ensures
        exists|i: int|
            0 <= i <= j && pre.issue_ready(i) && (#[trigger] post.rob.entries@[i]).issued_at
                == pre.cycle,
{
    assert(exists|k: int| 0 <= k < pre.rob.entries@.len() && pre.issue_ready(k));
    let i = choose|i: int|
        {
            &&& 0 <= i < pre.rob.entries@.len()
            &&& pre.issue_ready(i)
            &&& forall|k: int| 0 <= k < i ==> !pre.issue_ready(k)
            &&& post.rob.entries@ == pre.rob.entries@.update(
                i,
                crate::rob::ROBEntry { issued_at: pre.cycle, ..pre.rob.entries@[i] },
            )
            &&& post.rob.head == pre.rob.head
            &&& post.rob.tail == pre.rob.tail
            &&& post.free_list == pre.free_list
            &&& post.map_table == pre.map_table
            &&& post.res_stations == pre.res_stations
            &&& crate::engine::frame_static(pre, post)
        };
    assert(i <= j);
    assert(post.rob.entries@[i].issued_at == pre.cycle);
}

} // verus!
