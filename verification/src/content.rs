//! Full replacement of a course's content: header fields, weeks and
//! targets, rebuilt from a draft inside one atomic step.

use vstd::prelude::*;
use crate::store::{
    Store, CourseRow, WeekRow, TargetRow, has_dept, has_course, has_week, find_course_index,
    clone_opt_string,
};
use crate::types::{CourseContentDraft, StoreError, WeekDraft};

verus! {

/// A week row with this id exists and belongs to this course.
pub open spec fn week_of_course(ws: Seq<WeekRow>, week_id: u64, course_id: u64) -> bool {
    exists|i: int|
        0 <= i < ws.len() && (#[trigger] ws[i]).id == week_id && ws[i].course_id == course_id
}

/// The week rows that do not belong to this course, in table order.
pub open spec fn other_weeks(ws: Seq<WeekRow>, course_id: u64) -> Seq<WeekRow>
    decreases ws.len(),
{
    if ws.len() == 0 {
        Seq::empty()
    } else if ws.last().course_id != course_id {
        other_weeks(ws.drop_last(), course_id) + seq![ws.last()]
    } else {
        other_weeks(ws.drop_last(), course_id)
    }
}

/// The week rows of this course, in table order.
pub open spec fn course_weeks(ws: Seq<WeekRow>, course_id: u64) -> Seq<WeekRow>
    decreases ws.len(),
{
    if ws.len() == 0 {
        Seq::empty()
    } else if ws.last().course_id == course_id {
        course_weeks(ws.drop_last(), course_id) + seq![ws.last()]
    } else {
        course_weeks(ws.drop_last(), course_id)
    }
}

/// The target rows whose week does not belong to this course, in table order.
pub open spec fn other_targets(ts: Seq<TargetRow>, ws: Seq<WeekRow>, course_id: u64) -> Seq<
    TargetRow,
>
    decreases ts.len(),
{
    if ts.len() == 0 {
        Seq::empty()
    } else if !week_of_course(ws, ts.last().week_id, course_id) {
        other_targets(ts.drop_last(), ws, course_id) + seq![ts.last()]
    } else {
        other_targets(ts.drop_last(), ws, course_id)
    }
}

/// Surrogate ids consumed by inserting these week drafts: one per week plus
/// one per target.
pub open spec fn ids_used(ws: Seq<WeekDraft>) -> int
    decreases ws.len(),
{
    if ws.len() == 0 {
        0
    } else {
        ids_used(ws.drop_last()) + 1 + ws.last().targets@.len()
    }
}

pub proof fn lemma_ids_used_succ(ws: Seq<WeekDraft>, i: int)
    requires
        0 <= i < ws.len(),
    ensures
        ids_used(ws.take(i + 1)) == ids_used(ws.take(i)) + 1 + ws[i].targets@.len(),
{
    assert(ws.take(i + 1).drop_last() =~= ws.take(i));
    assert(ws.take(i + 1).last() == ws[i]);
}

pub proof fn lemma_ids_used_mono(ws: Seq<WeekDraft>, a: int, b: int)
    requires
        0 <= a <= b <= ws.len(),
    ensures
        ids_used(ws.take(a)) + (b - a) <= ids_used(ws.take(b)),
    decreases b,
{
    if a < b {
        lemma_ids_used_mono(ws, a, b - 1);
        lemma_ids_used_succ(ws, b - 1);
    }
}

/// What the rows that stay behind look like after dropping everything of
/// one course: none belongs to the course, each comes from the old table,
/// every old row of another course is kept, and ids stay pairwise distinct.
pub proof fn lemma_other_weeks(ws: Seq<WeekRow>, course_id: u64)
    requires
        forall|i: int, j: int|
            #![trigger ws[i], ws[j]]
            0 <= i < j < ws.len() ==> ws[i].id != ws[j].id,
    ensures
        ({
            let r = other_weeks(ws, course_id);
            &&& r.len() <= ws.len()
            &&& forall|k: int|
                #![trigger r[k]]
                0 <= k < r.len() ==> r[k].course_id != course_id && exists|i: int|
                    0 <= i < ws.len() && #[trigger] ws[i] == r[k]
            &&& forall|i: int|
                0 <= i < ws.len() && (#[trigger] ws[i]).course_id != course_id ==> r.contains(
                    ws[i],
                )
            &&& forall|a: int, b: int|
                #![trigger r[a], r[b]]
                0 <= a < b < r.len() ==> r[a].id != r[b].id
        }),
    decreases ws.len(),
{
    if ws.len() > 0 {
        let prev = ws.drop_last();
        lemma_other_weeks(prev, course_id);
        let rp = other_weeks(prev, course_id);
        let r = other_weeks(ws, course_id);
        assert forall|i: int| 0 <= i < ws.len() && (#[trigger] ws[i]).course_id
            != course_id implies r.contains(ws[i]) by {
            if i < ws.len() - 1 {
                assert(prev[i] == ws[i]);
                assert(rp.contains(ws[i]));
                let k = choose|k: int| 0 <= k < rp.len() && rp[k] == ws[i];
                assert(r[k] == ws[i]);
            } else {
                assert(r[r.len() - 1] == ws[i]);
            }
        }
        assert forall|k: int| #![trigger r[k]] 0 <= k < r.len() implies r[k].course_id != course_id
            && exists|i: int| 0 <= i < ws.len() && #[trigger] ws[i] == r[k] by {
            if k < rp.len() {
                assert(rp[k] == r[k]);
                let i = choose|i: int| 0 <= i < prev.len() && #[trigger] prev[i] == rp[k];
                assert(ws[i] == r[k]);
            } else {
                assert(r[k] == ws[ws.len() - 1]);
            }
        }
        assert forall|a: int, b: int|
            #![trigger r[a], r[b]]
            0 <= a < b < r.len() implies r[a].id != r[b].id by {
            if b == r.len() - 1 && r.len() > rp.len() {
                let i = choose|i: int| 0 <= i < prev.len() && #[trigger] prev[i] == rp[a];
                assert(ws[i] == r[a]);
                assert(ws[i].id != ws[ws.len() - 1].id);
            } else {
                assert(r[a] == rp[a] && r[b] == rp[b]);
            }
        }
    }
}

/// The targets that stay behind after dropping one course's weeks: none
/// belongs to a week of the course, each comes from the old table, every old
/// target of another course's week is kept, and ids stay pairwise distinct.
pub proof fn lemma_other_targets(ts: Seq<TargetRow>, ws: Seq<WeekRow>, course_id: u64)
    requires
        forall|i: int, j: int|
            #![trigger ts[i], ts[j]]
            0 <= i < j < ts.len() ==> ts[i].id != ts[j].id,
    ensures
        ({
            let r = other_targets(ts, ws, course_id);
            &&& r.len() <= ts.len()
            &&& forall|k: int|
                #![trigger r[k]]
                0 <= k < r.len() ==> !week_of_course(ws, r[k].week_id, course_id) && exists|i: int|
                    0 <= i < ts.len() && #[trigger] ts[i] == r[k]
            &&& forall|i: int|
                0 <= i < ts.len() && !week_of_course(ws, (#[trigger] ts[i]).week_id, course_id)
                    ==> r.contains(ts[i])
            &&& forall|a: int, b: int|
                #![trigger r[a], r[b]]
                0 <= a < b < r.len() ==> r[a].id != r[b].id
        }),
    decreases ts.len(),
{
    if ts.len() > 0 {
        let prev = ts.drop_last();
        lemma_other_targets(prev, ws, course_id);
        let rp = other_targets(prev, ws, course_id);
        let r = other_targets(ts, ws, course_id);
        assert forall|i: int|
            0 <= i < ts.len() && !week_of_course(
                ws,
                (#[trigger] ts[i]).week_id,
                course_id,
            ) implies r.contains(ts[i]) by {
            if i < ts.len() - 1 {
                assert(prev[i] == ts[i]);
                assert(rp.contains(ts[i]));
                let k = choose|k: int| 0 <= k < rp.len() && rp[k] == ts[i];
                assert(r[k] == ts[i]);
            } else {
                assert(r[r.len() - 1] == ts[i]);
            }
        }
        assert forall|k: int| #![trigger r[k]] 0 <= k < r.len() implies !week_of_course(
            ws,
            r[k].week_id,
            course_id,
        ) && exists|i: int| 0 <= i < ts.len() && #[trigger] ts[i] == r[k] by {
            if k < rp.len() {
                assert(rp[k] == r[k]);
                let i = choose|i: int| 0 <= i < prev.len() && #[trigger] prev[i] == rp[k];
                assert(ts[i] == r[k]);
            } else {
                assert(r[k] == ts[ts.len() - 1]);
            }
        }
        assert forall|a: int, b: int|
            #![trigger r[a], r[b]]
            0 <= a < b < r.len() implies r[a].id != r[b].id by {
            if b == r.len() - 1 && r.len() > rp.len() {
                let i = choose|i: int| 0 <= i < prev.len() && #[trigger] prev[i] == rp[a];
                assert(ts[i] == r[a]);
                assert(ts[i].id != ts[ts.len() - 1].id);
            } else {
                assert(r[a] == rp[a] && r[b] == rp[b]);
            }
        }
    }
}

/// Whether a week row with this id exists and belongs to this course.
pub fn is_week_of_course(ws: &Vec<WeekRow>, week_id: u64, course_id: u64) -> (b: bool)
    ensures
        b == week_of_course(ws@, week_id, course_id),
{
    let mut i: usize = 0;
    while i < ws.len()
        invariant
            i <= ws@.len(),
            forall|k: int|
                0 <= k < i ==> !((#[trigger] ws@[k]).id == week_id && ws@[k].course_id
                    == course_id),
        decreases ws@.len() - i,
    {
        if ws[i].id == week_id && ws[i].course_id == course_id {
            return true;
        }
        i = i + 1;
    }
    false
}

/// The `i`th draft week, as inserted at position `base + i` of the week
/// table: serial and text from the draft, no date, not complete, owned by
/// the course, with the id minted after all ids of the drafts before it.
pub open spec fn new_week_at(
    wk: Seq<WeekRow>,
    base: int,
    ws: Seq<WeekDraft>,
    nid0: u64,
    course_id: u64,
    i: int,
) -> bool {
    let row = wk[base + i];
    &&& row.id == nid0 + ids_used(ws.take(i))
    &&& row.course_id == course_id
    &&& row.serial == ws[i].serial
    &&& row.text == ws[i].text
    &&& row.date is None
    &&& row.is_complete == false
}

/// The `j`th target of the `i`th draft week, as inserted in the target
/// table: serial, text and source from the draft, not complete, owned by the
/// `i`th new week, with its id minted right after that week's.
pub open spec fn new_target_at(
    ts: Seq<TargetRow>,
    base: int,
    ws: Seq<WeekDraft>,
    nid0: u64,
    i: int,
    j: int,
) -> bool {
    let t = ts[base + (ids_used(ws.take(i)) - i) + j];
    &&& t.id == nid0 + ids_used(ws.take(i)) + 1 + j
    &&& t.week_id == nid0 + ids_used(ws.take(i))
    &&& t.serial == ws[i].targets@[j].serial
    &&& t.text == ws[i].targets@[j].text
    &&& t.source == ws[i].targets@[j].source
    &&& t.is_complete == false
}

/// What a content update guarantees: header fields from the draft (the
/// prompt and status are untouched), every week and target of the course
/// replaced by the draft's weeks and targets with freshly minted ids, and
/// everything of other courses kept in place.
pub open spec fn content_replaced(
    old_s: Store,
    new_s: Store,
    course_id: u64,
    draft: CourseContentDraft,
) -> bool {
    let kept_w = other_weeks(old_s.weeks@, course_id);
    let kept_t = other_targets(old_s.targets@, old_s.weeks@, course_id);
    let ws = draft.weeks@;
    &&& new_s.departments == old_s.departments
    &&& new_s.courses@.len() == old_s.courses@.len()
    &&& forall|i: int|
        #![trigger new_s.courses@[i]]
        0 <= i < old_s.courses@.len() ==> if old_s.courses@[i].id == course_id {
            &&& new_s.courses@[i].id == old_s.courses@[i].id
            &&& new_s.courses@[i].department_id == old_s.courses@[i].department_id
            &&& new_s.courses@[i].serial == old_s.courses@[i].serial
            &&& new_s.courses@[i].name == draft.name
            &&& new_s.courses@[i].description == draft.description
            &&& new_s.courses@[i].book == draft.book
            &&& new_s.courses@[i].prompt == old_s.courses@[i].prompt
            &&& new_s.courses@[i].status == old_s.courses@[i].status
        } else {
            new_s.courses@[i] == old_s.courses@[i]
        }
    &&& new_s.weeks@.len() == kept_w.len() + ws.len()
    &&& forall|k: int| 0 <= k < kept_w.len() ==> #[trigger] new_s.weeks@[k] == kept_w[k]
    &&& forall|i: int|
        0 <= i < ws.len() ==> #[trigger] new_week_at(
            new_s.weeks@,
            kept_w.len() as int,
            ws,
            old_s.next_id,
            course_id,
            i,
        )
    &&& new_s.targets@.len() == kept_t.len() + (ids_used(ws) - ws.len())
    &&& forall|k: int| 0 <= k < kept_t.len() ==> #[trigger] new_s.targets@[k] == kept_t[k]
    &&& forall|i: int, j: int|
        0 <= i < ws.len() && 0 <= j < ws[i].targets@.len() ==> #[trigger] new_target_at(
            new_s.targets@,
            kept_t.len() as int,
            ws,
            old_s.next_id,
            i,
            j,
        )
    &&& new_s.next_id == old_s.next_id + ids_used(ws)
}

/// Append one draft week's targets to the staged target table, with ids
/// minted right after the week's own id.
fn append_targets(ts: &mut Vec<TargetRow>, wd: &WeekDraft, wid: u64)
    requires
        wid + 1 + wd.targets@.len() <= u64::MAX,
    ensures
        final(ts)@.len() == old(ts)@.len() + wd.targets@.len(),
        forall|k: int| 0 <= k < old(ts)@.len() ==> #[trigger] final(ts)@[k] == old(ts)@[k],
        forall|j: int|
            #![trigger wd.targets@[j]]
            0 <= j < wd.targets@.len() ==> final(ts)@[old(ts)@.len() + j] == (TargetRow {
                id: (wid + 1 + j) as u64,
                week_id: wid,
                serial: wd.targets@[j].serial,
                text: wd.targets@[j].text,
                source: wd.targets@[j].source,
                is_complete: false,
            }),
        forall|p: int|
            old(ts)@.len() <= p < final(ts)@.len() ==> (#[trigger] final(ts)@[p]).id == wid + 1 + (p
                - old(ts)@.len()) && final(ts)@[p].week_id == wid,
{
    let n = wd.targets.len();
    let base = ts.len();
    let mut j: usize = 0;
    while j < n
        invariant
            j <= n == wd.targets@.len(),
            wid + 1 + wd.targets@.len() <= u64::MAX,
            base == old(ts)@.len(),
            ts@.len() == base + j,
            forall|k: int| 0 <= k < base ==> #[trigger] ts@[k] == old(ts)@[k],
            forall|j2: int|
                #![trigger wd.targets@[j2]]
                0 <= j2 < j ==> ts@[base + j2] == (TargetRow {
                    id: (wid + 1 + j2) as u64,
                    week_id: wid,
                    serial: wd.targets@[j2].serial,
                    text: wd.targets@[j2].text,
                    source: wd.targets@[j2].source,
                    is_complete: false,
                }),
            forall|p: int|
                base <= p < ts@.len() ==> (#[trigger] ts@[p]).id == wid + 1 + (p - base)
                    && ts@[p].week_id == wid,
        decreases n - j,
    {
        ts.push(
            TargetRow {
                id: wid + 1 + (j as u64),
                week_id: wid,
                serial: wd.targets[j].serial,
                text: wd.targets[j].text.clone(),
                source: wd.targets[j].source.clone(),
                is_complete: false,
            },
        );
        j = j + 1;
    }
}

/// Replace a course's content: update its name, description and book, drop
/// every week and target it had, and insert the draft's weeks and targets
/// in draft order with fresh ids, no dates, and nothing complete. This is a
/// full replacement, not a merge; an unknown course id fails with `NotFound`
/// and changes nothing.
#[verifier::rlimit(100)]
pub fn update_course(store: &mut Store, course_id: u64, draft: CourseContentDraft) -> (r: Result<
    (),
    StoreError,
>)
    requires
        old(store).wf(),
        old(store).next_id + ids_used(draft.weeks@) <= u64::MAX,
    ensures
        final(store).wf(),
        r is Err ==> *final(store) == *old(store),
        r == Err::<(), StoreError>(StoreError::NotFound) <==> !has_course(
            old(store).courses@,
            course_id,
        ),
        r is Err ==> r == Err::<(), StoreError>(StoreError::NotFound),
        r is Ok ==> content_replaced(*old(store), *final(store), course_id, draft),
{
    let ghost old_store = *old(store);
    let ghost ws = draft.weeks@;
    proof {
        assert(ws.take(0) =~= Seq::<WeekDraft>::empty());
        lemma_ids_used_mono(ws, 0, ws.len() as int);
        assert(ws.take(ws.len() as int) =~= ws);
    }
    let ci = match find_course_index(&store.courses, course_id) {
        Some(ci) => ci,
        None => {
            return Err(StoreError::NotFound);
        },
    };
    store.courses[ci].name = draft.name.clone();
    store.courses[ci].description = clone_opt_string(&draft.description);
    store.courses[ci].book = clone_opt_string(&draft.book);
    let ghost s1 = *store;
    proof {
        assert(s1.weeks == old_store.weeks && s1.targets == old_store.targets && s1.next_id
            == old_store.next_id && s1.departments == old_store.departments);
        lemma_other_weeks(old_store.weeks@, course_id);
        lemma_other_targets(old_store.targets@, old_store.weeks@, course_id);
    }
    let ghost kw = other_weeks(old_store.weeks@, course_id);
    let ghost kt = other_targets(old_store.targets@, old_store.weeks@, course_id);

    // Keep the weeks of other courses, in table order.
    let mut wks2: Vec<WeekRow> = Vec::new();
    let mut i: usize = 0;
    while i < store.weeks.len()
        invariant
            i <= store.weeks@.len(),
            *store == s1,
            wks2@ == other_weeks(store.weeks@.take(i as int), course_id),
        decreases store.weeks@.len() - i,
    {
        proof {
            assert(store.weeks@.take(i + 1).drop_last() =~= store.weeks@.take(i as int));
            assert(store.weeks@.take(i + 1).last() == store.weeks@[i as int]);
        }
        if store.weeks[i].course_id != course_id {
            let ghost prior = wks2@;
            wks2.push(store.weeks[i].clone_row());
            proof {
                assert(wks2@ =~= prior + seq![store.weeks@[i as int]]);
            }
        }
        i = i + 1;
    }
    proof {
        assert(store.weeks@.take(store.weeks@.len() as int) =~= store.weeks@);
        assert(wks2@ == kw);
    }

    // Keep the targets whose week belongs to another course.
    let mut tgs2: Vec<TargetRow> = Vec::new();
    let mut i: usize = 0;
    while i < store.targets.len()
        invariant
            i <= store.targets@.len(),
            *store == s1,
            s1.weeks == old_store.weeks,
            s1.targets == old_store.targets,
            tgs2@ == other_targets(store.targets@.take(i as int), store.weeks@, course_id),
        decreases store.targets@.len() - i,
    {
        proof {
            assert(store.targets@.take(i + 1).drop_last() =~= store.targets@.take(i as int));
            assert(store.targets@.take(i + 1).last() == store.targets@[i as int]);
        }
        if !is_week_of_course(&store.weeks, store.targets[i].week_id, course_id) {
            let ghost prior = tgs2@;
            tgs2.push(store.targets[i].clone_row());
            proof {
                assert(tgs2@ =~= prior + seq![store.targets@[i as int]]);
            }
        }
        i = i + 1;
    }
    proof {
        assert(store.targets@.take(store.targets@.len() as int) =~= store.targets@);
        assert(tgs2@ == kt);
    }

    // Establish the bookkeeping facts the append phase relies on.
    proof {
        assert forall|k: int| 0 <= k < wks2@.len() implies (#[trigger] wks2@[k]).id
            < old_store.next_id && has_course(s1.courses@, wks2@[k].course_id) by {
            let i2 = choose|i2: int|
                0 <= i2 < old_store.weeks@.len() && #[trigger] old_store.weeks@[i2] == wks2@[k];
            assert(old_store.weeks@[i2].id < old_store.next_id);
            let c = choose|c: int|
                0 <= c < old_store.courses@.len() && (#[trigger] old_store.courses@[c]).id
                    == old_store.weeks@[i2].course_id;
            assert(s1.courses@[c].id == wks2@[k].course_id);
        }
        assert forall|k: int| 0 <= k < tgs2@.len() implies (#[trigger] tgs2@[k]).id
            < old_store.next_id && has_week(wks2@, tgs2@[k].week_id) by {
            let i2 = choose|i2: int|
                0 <= i2 < old_store.targets@.len() && #[trigger] old_store.targets@[i2] == tgs2@[k];
            assert(old_store.targets@[i2].id < old_store.next_id);
            assert(has_week(old_store.weeks@, tgs2@[k].week_id));
            let w = choose|w: int|
                0 <= w < old_store.weeks@.len() && (#[trigger] old_store.weeks@[w]).id
                    == tgs2@[k].week_id;
            assert(!week_of_course(old_store.weeks@, tgs2@[k].week_id, course_id));
            assert(old_store.weeks@[w].course_id != course_id);
            assert(kw.contains(old_store.weeks@[w]));
            let k2 = choose|k2: int| 0 <= k2 < kw.len() && kw[k2] == old_store.weeks@[w];
            assert(wks2@[k2].id == tgs2@[k].week_id);
        }
    }

    // Append the draft's weeks and their targets, minting ids in order.
    let mut idc: u64 = store.next_id;
    let nw = draft.weeks.len();
    let mut i: usize = 0;
    while i < nw
        invariant
            i <= nw == ws.len(),
            ws == draft.weeks@,
            *store == s1,
            s1.weeks == old_store.weeks,
            s1.targets == old_store.targets,
            s1.next_id == old_store.next_id,
            old_store.wf(),
            old_store.next_id + ids_used(ws) <= u64::MAX,
            ci < s1.courses@.len() && s1.courses@[ci as int].id == course_id,
            kw == other_weeks(old_store.weeks@, course_id),
            kt == other_targets(old_store.targets@, old_store.weeks@, course_id),
            idc == old_store.next_id + ids_used(ws.take(i as int)),
            wks2@.len() == kw.len() + i,
            forall|k: int| 0 <= k < kw.len() ==> #[trigger] wks2@[k] == kw[k],
            forall|i2: int|
                0 <= i2 < i ==> #[trigger] new_week_at(
                    wks2@,
                    kw.len() as int,
                    ws,
                    old_store.next_id,
                    course_id,
                    i2,
                ),
            tgs2@.len() == kt.len() + (ids_used(ws.take(i as int)) - i),
            forall|k: int| 0 <= k < kt.len() ==> #[trigger] tgs2@[k] == kt[k],
            forall|i2: int, j: int|
                0 <= i2 < i && 0 <= j < ws[i2].targets@.len() ==> #[trigger] new_target_at(
                    tgs2@,
                    kt.len() as int,
                    ws,
                    old_store.next_id,
                    i2,
                    j,
                ),
            forall|a: int, b: int|
                #![trigger wks2@[a], wks2@[b]]
                0 <= a < b < wks2@.len() ==> wks2@[a].id != wks2@[b].id,
            forall|k: int| 0 <= k < wks2@.len() ==> (#[trigger] wks2@[k]).id < idc,
            forall|k: int|
                0 <= k < wks2@.len() ==> has_course(s1.courses@, (#[trigger] wks2@[k]).course_id),
            forall|a: int, b: int|
                #![trigger tgs2@[a], tgs2@[b]]
                0 <= a < b < tgs2@.len() ==> tgs2@[a].id != tgs2@[b].id,
            forall|k: int| 0 <= k < tgs2@.len() ==> (#[trigger] tgs2@[k]).id < idc,
            forall|k: int| 0 <= k < tgs2@.len() ==> has_week(wks2@, (#[trigger] tgs2@[k]).week_id),
        decreases nw - i,
    {
        proof {
            assert(ws.take(0) =~= Seq::<WeekDraft>::empty());
            lemma_ids_used_mono(ws, 0, i as int);
            lemma_ids_used_succ(ws, i as int);
            lemma_ids_used_mono(ws, i + 1, ws.len() as int);
            assert(ws.take(ws.len() as int) =~= ws);
        }
        let wd = &draft.weeks[i];
        let wid = idc;
        let ghost wprior = wks2@;
        let ghost tprior = tgs2@;
        wks2.push(
            WeekRow {
                id: wid,
                course_id: course_id,
                serial: wd.serial,
                text: wd.text.clone(),
                date: None,
                is_complete: false,
            },
        );
        append_targets(&mut tgs2, wd, wid);
        idc = wid + 1 + (wd.targets.len() as u64);
        proof {
            let nid0 = old_store.next_id;
            assert(idc == nid0 + ids_used(ws.take(i + 1)));
            assert forall|i2: int| 0 <= i2 < i + 1 implies #[trigger] new_week_at(
                wks2@,
                kw.len() as int,
                ws,
                nid0,
                course_id,
                i2,
            ) by {
                if i2 < i {
                    assert(new_week_at(wprior, kw.len() as int, ws, nid0, course_id, i2));
                    assert(wks2@[kw.len() + i2] == wprior[kw.len() + i2]);
                } else {
                    assert(wks2@[kw.len() + i2] == (WeekRow {
                        id: wid,
                        course_id: course_id,
                        serial: ws[i2].serial,
                        text: ws[i2].text,
                        date: None,
                        is_complete: false,
                    }));
                }
            }
            assert forall|i2: int, j: int|
                0 <= i2 < i + 1 && 0 <= j < ws[i2].targets@.len() implies #[trigger] new_target_at(
                tgs2@,
                kt.len() as int,
                ws,
                nid0,
                i2,
                j,
            ) by {
                if i2 < i {
                    assert(new_target_at(tprior, kt.len() as int, ws, nid0, i2, j));
                    lemma_ids_used_mono(ws, 0, i2);
                    lemma_ids_used_succ(ws, i2);
                    lemma_ids_used_mono(ws, i2 + 1, i as int);
                    assert(0 <= kt.len() + (ids_used(ws.take(i2)) - i2) + j < tprior.len());
                    assert(tgs2@[kt.len() + (ids_used(ws.take(i2)) - i2) + j] == tprior[kt.len() + (
                    ids_used(ws.take(i2)) - i2) + j]);
                } else {
                    assert(kt.len() + (ids_used(ws.take(i2)) - i2) + j == tprior.len() + j);
                    assert(tgs2@[tprior.len() + j] == (TargetRow {
                        id: (wid + 1 + j) as u64,
                        week_id: wid,
                        serial: ws[i2].targets@[j].serial,
                        text: ws[i2].targets@[j].text,
                        source: ws[i2].targets@[j].source,
                        is_complete: false,
                    }));
                }
            }
            assert forall|a: int, b: int|
                #![trigger tgs2@[a], tgs2@[b]]
                0 <= a < b < tgs2@.len() implies tgs2@[a].id != tgs2@[b].id by {
                if a < tprior.len() && b >= tprior.len() {
                    assert(tgs2@[a] == tprior[a]);
                    assert(tprior[a].id < wid);
                    assert(tgs2@[b].id > wid);
                } else if a >= tprior.len() {
                    assert(tgs2@[a].id == wid + 1 + (a - tprior.len()));
                    assert(tgs2@[b].id == wid + 1 + (b - tprior.len()));
                } else {
                    assert(tgs2@[a] == tprior[a] && tgs2@[b] == tprior[b]);
                }
            }
            assert forall|k: int| 0 <= k < tgs2@.len() implies has_week(
                wks2@,
                (#[trigger] tgs2@[k]).week_id,
            ) by {
                if k < tprior.len() {
                    assert(tgs2@[k] == tprior[k]);
                    let w = choose|w: int|
                        0 <= w < wprior.len() && (#[trigger] wprior[w]).id == tprior[k].week_id;
                    assert(wks2@[w].id == tgs2@[k].week_id);
                } else {
                    assert(tgs2@[k].week_id == wid);
                    assert(wks2@[wks2@.len() - 1].id == wid);
                }
            }
        }
        i = i + 1;
    }
    proof {
        assert(ws.take(nw as int) =~= ws);
    }

    // Commit the staged tables in one step.
    store.weeks = wks2;
    store.targets = tgs2;
    store.next_id = idc;
    proof {
        assert forall|a: int, b: int|
            #![trigger store.courses@[a], store.courses@[b]]
            0 <= a < b < store.courses@.len() implies store.courses@[a].id != store.courses@[b].id
            && !(store.courses@[a].department_id == store.courses@[b].department_id
            && store.courses@[a].serial == store.courses@[b].serial) by {
            assert(old_store.courses@[a].id != old_store.courses@[b].id);
        }
        assert forall|i2: int| 0 <= i2 < store.courses@.len() implies (#[trigger] store.courses@[i2]).id
            < store.next_id && has_dept(store.departments@, store.courses@[i2].department_id) by {
            assert(old_store.courses@[i2].id < old_store.next_id);
            assert(has_dept(old_store.departments@, old_store.courses@[i2].department_id));
        }
        assert(store.departments_wf());
        assert(store.courses_wf());
        assert(store.weeks_wf());
        assert(store.targets_wf());
        assert(content_replaced(old_store, *store, course_id, draft));
    }
    Ok(())
}

pub proof fn lemma_course_weeks_concat(a: Seq<WeekRow>, b: Seq<WeekRow>, course_id: u64)
    ensures
        course_weeks(a + b, course_id) == course_weeks(a, course_id) + course_weeks(b, course_id),
    decreases b.len(),
{
    if b.len() == 0 {
        assert(a + b =~= a);
        assert(course_weeks(b, course_id) =~= Seq::<WeekRow>::empty());
        assert(course_weeks(a, course_id) + course_weeks(b, course_id) =~= course_weeks(
            a,
            course_id,
        ));
    } else {
        lemma_course_weeks_concat(a, b.drop_last(), course_id);
        assert((a + b).drop_last() =~= a + b.drop_last());
        assert((a + b).last() == b.last());
        if b.last().course_id == course_id {
            assert(course_weeks(a + b, course_id) =~= course_weeks(a, course_id) + course_weeks(
                b,
                course_id,
            ));
        } else {
            assert(course_weeks(a + b, course_id) =~= course_weeks(a, course_id) + course_weeks(
                b,
                course_id,
            ));
        }
    }
}

pub proof fn lemma_course_weeks_none(a: Seq<WeekRow>, course_id: u64)
    requires
        forall|k: int| 0 <= k < a.len() ==> (#[trigger] a[k]).course_id != course_id,
    ensures
        course_weeks(a, course_id) == Seq::<WeekRow>::empty(),
    decreases a.len(),
{
    if a.len() > 0 {
        lemma_course_weeks_none(a.drop_last(), course_id);
    }
}

pub proof fn lemma_course_weeks_all(a: Seq<WeekRow>, course_id: u64)
    requires
        forall|k: int| 0 <= k < a.len() ==> (#[trigger] a[k]).course_id == course_id,
    ensures
        course_weeks(a, course_id) == a,
    decreases a.len(),
{
    if a.len() > 0 {
        lemma_course_weeks_all(a.drop_last(), course_id);
        assert(course_weeks(a, course_id) =~= a);
    }
}

/// A content update fully replaces the course's weekly content: afterwards
/// the week rows belonging to the course are exactly the draft's weeks, in
/// draft order, with no date and nothing complete — nothing of any earlier
/// content survives, whatever the store held before.
pub proof fn replacement_leaves_only_draft_weeks(
    old_s: Store,
    new_s: Store,
    course_id: u64,
    draft: CourseContentDraft,
)
    requires
        old_s.wf(),
        content_replaced(old_s, new_s, course_id, draft),
    ensures
        course_weeks(new_s.weeks@, course_id).len() == draft.weeks@.len(),
        forall|i: int|
            #![trigger draft.weeks@[i]]
            0 <= i < draft.weeks@.len() ==> ({
                let row = course_weeks(new_s.weeks@, course_id)[i];
                &&& row.course_id == course_id
                &&& row.serial == draft.weeks@[i].serial
                &&& row.text == draft.weeks@[i].text
                &&& row.date is None
                &&& row.is_complete == false
            }),
{
    let kw = other_weeks(old_s.weeks@, course_id);
    let ws = draft.weeks@;
    lemma_other_weeks(old_s.weeks@, course_id);
    let new_part = new_s.weeks@.skip(kw.len() as int);
    assert(new_s.weeks@ =~= kw + new_part);
    assert forall|k: int| 0 <= k < new_part.len() implies (#[trigger] new_part[k]).course_id
        == course_id by {
        assert(new_week_at(new_s.weeks@, kw.len() as int, ws, old_s.next_id, course_id, k));
    }
    lemma_course_weeks_concat(kw, new_part, course_id);
    lemma_course_weeks_none(kw, course_id);
    lemma_course_weeks_all(new_part, course_id);
    assert(course_weeks(new_s.weeks@, course_id) =~= new_part);
    assert forall|i: int| #![trigger draft.weeks@[i]] 0 <= i < ws.len() implies ({
        let row = course_weeks(new_s.weeks@, course_id)[i];
        &&& row.course_id == course_id
        &&& row.serial == ws[i].serial
        &&& row.text == ws[i].text
        &&& row.date is None
        &&& row.is_complete == false
    }) by {
        assert(new_week_at(new_s.weeks@, kw.len() as int, ws, old_s.next_id, course_id, i));
    }
}

} // verus!
