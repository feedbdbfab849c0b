//! Completion toggle for weeks.

use vstd::prelude::*;
use crate::store::{Store, has_week};

verus! {

/// Set the completion flag of the week with this id. A missing id leaves the
/// store unchanged; no other field and no other row is touched, and toggling
/// a week does not cascade to its targets.
pub fn change_week_status(store: &mut Store, week_id: u64, status: bool)
    requires
        old(store).wf(),
    ensures
        final(store).wf(),
        final(store).departments == old(store).departments,
        final(store).courses == old(store).courses,
        final(store).targets == old(store).targets,
        final(store).next_id == old(store).next_id,
        final(store).weeks@.len() == old(store).weeks@.len(),
        forall|i: int|
            #![trigger final(store).weeks@[i]]
            0 <= i < old(store).weeks@.len() ==> final(store).weeks@[i].id
                == old(store).weeks@[i].id && final(store).weeks@[i].course_id
                == old(store).weeks@[i].course_id && final(store).weeks@[i].serial
                == old(store).weeks@[i].serial && final(store).weeks@[i].text
                == old(store).weeks@[i].text && final(store).weeks@[i].date
                == old(store).weeks@[i].date && final(store).weeks@[i].is_complete == (
            if old(store).weeks@[i].id == week_id {
                status
            } else {
                old(store).weeks@[i].is_complete
            }),
{
    let n = store.weeks.len();
    let mut i: usize = 0;
    while i < n
        invariant
            n == store.weeks@.len(),
            i <= n,
            store.departments == old(store).departments,
            store.courses == old(store).courses,
            store.targets == old(store).targets,
            store.next_id == old(store).next_id,
            store.weeks@.len() == old(store).weeks@.len(),
            forall|k: int|
                #![trigger store.weeks@[k]]
                i <= k < old(store).weeks@.len() ==> store.weeks@[k] == old(store).weeks@[k],
            forall|k: int|
                #![trigger store.weeks@[k]]
                0 <= k < i ==> store.weeks@[k].id == old(store).weeks@[k].id
                    && store.weeks@[k].course_id == old(store).weeks@[k].course_id
                    && store.weeks@[k].serial == old(store).weeks@[k].serial && store.weeks@[k].text
                    == old(store).weeks@[k].text && store.weeks@[k].date
                    == old(store).weeks@[k].date && store.weeks@[k].is_complete == (
                if old(store).weeks@[k].id == week_id {
                    status
                } else {
                    old(store).weeks@[k].is_complete
                }),
        decreases n - i,
    {
        if store.weeks[i].id == week_id {
            store.weeks[i].is_complete = status;
        }
        i = i + 1;
    }
    proof {
        assert forall|a: int, b: int|
            #![trigger store.weeks@[a], store.weeks@[b]]
            0 <= a < b < store.weeks@.len() implies store.weeks@[a].id != store.weeks@[b].id by {
            assert(old(store).weeks@[a].id != old(store).weeks@[b].id);
        }
        assert(store.weeks_wf());
        assert forall|t: int| 0 <= t < store.targets@.len() implies has_week(
            store.weeks@,
            (#[trigger] store.targets@[t]).week_id,
        ) by {
            let wid = store.targets@[t].week_id;
            assert(has_week(old(store).weeks@, wid));
            let w = choose|w: int|
                0 <= w < old(store).weeks@.len() && (#[trigger] old(store).weeks@[w]).id == wid;
            assert(store.weeks@[w].id == wid);
        }
        assert(store.targets_wf());
    }
}

} // verus!
