//! Completion toggle for targets.

use vstd::prelude::*;
use crate::store::Store;

verus! {

/// Set the completion flag of the target with this id. A missing id leaves
/// the store unchanged; no other field and no other row is touched, and
/// toggling a target does not cascade to its week.
pub fn change_target_status(store: &mut Store, target_id: u64, status: bool)
    requires
        old(store).wf(),
    ensures
        final(store).wf(),
        final(store).departments == old(store).departments,
        final(store).courses == old(store).courses,
        final(store).weeks == old(store).weeks,
        final(store).next_id == old(store).next_id,
        final(store).targets@.len() == old(store).targets@.len(),
        forall|i: int|
            #![trigger final(store).targets@[i]]
            0 <= i < old(store).targets@.len() ==> final(store).targets@[i].id
                == old(store).targets@[i].id && final(store).targets@[i].week_id
                == old(store).targets@[i].week_id && final(store).targets@[i].serial
                == old(store).targets@[i].serial && final(store).targets@[i].text
                == old(store).targets@[i].text && final(store).targets@[i].source
                == old(store).targets@[i].source && final(store).targets@[i].is_complete == (
            if old(store).targets@[i].id == target_id {
                status
            } else {
                old(store).targets@[i].is_complete
            }),
{
    let n = store.targets.len();
    let mut i: usize = 0;
    while i < n
        invariant
            n == store.targets@.len(),
            i <= n,
            store.departments == old(store).departments,
            store.courses == old(store).courses,
            store.weeks == old(store).weeks,
            store.next_id == old(store).next_id,
            store.targets@.len() == old(store).targets@.len(),
            forall|k: int|
                #![trigger store.targets@[k]]
                i <= k < old(store).targets@.len() ==> store.targets@[k] == old(store).targets@[k],
            forall|k: int|
                #![trigger store.targets@[k]]
                0 <= k < i ==> store.targets@[k].id == old(store).targets@[k].id
                    && store.targets@[k].week_id == old(store).targets@[k].week_id
                    && store.targets@[k].serial == old(store).targets@[k].serial
                    && store.targets@[k].text == old(store).targets@[k].text
                    && store.targets@[k].source == old(store).targets@[k].source
                    && store.targets@[k].is_complete == (
                if old(store).targets@[k].id == target_id {
                    status
                } else {
                    old(store).targets@[k].is_complete
                }),
        decreases n - i,
    {
        if store.targets[i].id == target_id {
            store.targets[i].is_complete = status;
        }
        i = i + 1;
    }
    proof {
        assert forall|a: int, b: int|
            #![trigger store.targets@[a], store.targets@[b]]
            0 <= a < b < store.targets@.len() implies store.targets@[a].id
            != store.targets@[b].id by {
            assert(old(store).targets@[a].id != old(store).targets@[b].id);
        }
        assert(store.targets_wf());
    }
}

} // verus!
