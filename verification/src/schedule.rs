//! The daily schedule query: every course with a week falling on the given
//! day, each with those weeks and their targets, under the visibility rule
//! for course status and week completion.

use vstd::prelude::*;
use vstd::pervasive::unreached;
use crate::store::{
    Store, CourseRow, WeekRow, TargetRow, course_with_id, lemma_course_with_id, find_dept_index,
    find_week_index, find_target_index,
};
use crate::types::{CourseHeader, CourseStatus, ScheduleItem, Target, Week};
use crate::order::{SerialKey, keys_sorted, keys_distinct, sort_keys};
use crate::status::{key_pos, lemma_key_pos};

verus! {

/// The visibility rule: a week shows up while its course is active or
/// complete; of an inactive course only weeks already done show up (so
/// finished work stays visible after deactivation, unfinished work is
/// hidden); a draft course shows nothing.
pub open spec fn week_visible(status: CourseStatus, week_complete: bool) -> bool {
    status == CourseStatus::Active || status == CourseStatus::Complete || (status
        == CourseStatus::Inactive && week_complete)
}

/// A week of this course scheduled on this day and visible.
pub open spec fn week_on(w: WeekRow, c: CourseRow, date: u32) -> bool {
    w.course_id == c.id && w.date == Some(date) && week_visible(c.status, w.is_complete)
}

/// Of an inactive course, an unfinished week is excluded from the schedule
/// and the same week, once complete, is included.
pub proof fn inactive_week_visibility()
    ensures
        !week_visible(CourseStatus::Inactive, false),
        week_visible(CourseStatus::Inactive, true),
{
}

/// How many weeks of this course fall on this day and are visible.
pub open spec fn scheduled_count(ws: Seq<WeekRow>, c: CourseRow, date: u32) -> int
    decreases ws.len(),
{
    if ws.len() == 0 {
        0
    } else {
        scheduled_count(ws.drop_last(), c, date) + if week_on(ws.last(), c, date) {
            1int
        } else {
            0int
        }
    }
}

/// How many targets belong to this week.
pub open spec fn target_count(ts: Seq<TargetRow>, week_id: u64) -> int
    decreases ts.len(),
{
    if ts.len() == 0 {
        0
    } else {
        target_count(ts.drop_last(), week_id) + if ts.last().week_id == week_id {
            1int
        } else {
            0int
        }
    }
}

/// First index of the target row carrying this id, or -1.
pub open spec fn target_with_id(ts: Seq<TargetRow>, id: u64) -> int
    decreases ts.len(),
{
    if ts.len() == 0 {
        -1
    } else if ts[0].id == id {
        0
    } else {
        let r = target_with_id(ts.drop_first(), id);
        if r == -1 {
            -1
        } else {
            r + 1
        }
    }
}

pub proof fn lemma_target_with_id(ts: Seq<TargetRow>, id: u64)
    ensures
        target_with_id(ts, id) == -1 ==> forall|i: int| 0 <= i < ts.len() ==> (#[trigger] ts[i]).id
            != id,
        target_with_id(ts, id) != -1 ==> 0 <= target_with_id(ts, id) < ts.len() && ts[target_with_id(
            ts,
            id,
        )].id == id,
    decreases ts.len(),
{
    if ts.len() > 0 && ts[0].id != id {
        let rest = ts.drop_first();
        lemma_target_with_id(rest, id);
        if target_with_id(ts, id) == -1 {
            assert forall|i: int| 0 <= i < ts.len() implies (#[trigger] ts[i]).id != id by {
                if i > 0 {
                    assert(rest[i - 1] == ts[i]);
                }
            }
        }
    }
}

/// First index of the week row carrying this id, or -1.
pub open spec fn week_row_with_id(ws: Seq<WeekRow>, id: u64) -> int
    decreases ws.len(),
{
    if ws.len() == 0 {
        -1
    } else if ws[0].id == id {
        0
    } else {
        let r = week_row_with_id(ws.drop_first(), id);
        if r == -1 {
            -1
        } else {
            r + 1
        }
    }
}

pub proof fn lemma_week_row_with_id(ws: Seq<WeekRow>, id: u64)
    ensures
        week_row_with_id(ws, id) == -1 ==> forall|i: int| 0 <= i < ws.len() ==> (#[trigger] ws[i]).id
            != id,
        week_row_with_id(ws, id) != -1 ==> 0 <= week_row_with_id(ws, id) < ws.len()
            && ws[week_row_with_id(ws, id)].id == id,
    decreases ws.len(),
{
    if ws.len() > 0 && ws[0].id != id {
        let rest = ws.drop_first();
        lemma_week_row_with_id(rest, id);
        if week_row_with_id(ws, id) == -1 {
            assert forall|i: int| 0 <= i < ws.len() implies (#[trigger] ws[i]).id != id by {
                if i > 0 {
                    assert(rest[i - 1] == ws[i]);
                }
            }
        }
    }
}

/// Which weeks a read selects: the weeks of one course, optionally only
/// those falling on a given day and visible under the course's status.
#[derive(Clone, Copy)]
pub struct WeekFilter {
    pub course_id: u64,
    pub on: Option<(CourseStatus, u32)>,
}

/// Whether the filter picks this week row.
pub open spec fn picks_week(f: WeekFilter, w: WeekRow) -> bool {
    &&& w.course_id == f.course_id
    &&& match f.on {
        Some(sd) => w.date == Some(sd.1) && week_visible(sd.0, w.is_complete),
        None => true,
    }
}

/// The filter the schedule query applies for one course row: its weeks on
/// the queried day, under the visibility rule. A week passes it exactly
/// when `week_on` holds of the week and the course.
pub open spec fn on_day(c: CourseRow, date: u32) -> WeekFilter {
    WeekFilter { course_id: c.id, on: Some((c.status, date)) }
}

/// The visibility rule, computed.
fn week_visible_exec(status: CourseStatus, complete: bool) -> (r: bool)
    ensures
        r == week_visible(status, complete),
{
    match status {
        CourseStatus::Active => true,
        CourseStatus::Complete => true,
        CourseStatus::Inactive => complete,
        CourseStatus::Draft => false,
    }
}

/// The filter, computed.
fn week_picked(f: &WeekFilter, w: &WeekRow) -> (r: bool)
    ensures
        r == picks_week(*f, *w),
{
    if w.course_id != f.course_id {
        return false;
    }
    match f.on {
        Some((st, d)) => {
            let on_date = match w.date {
                Some(wd) => wd == d,
                None => false,
            };
            on_date && week_visible_exec(st, w.is_complete)
        },
        None => true,
    }
}

/// The sort keys of the weeks the filter picks, in table order.
#[verifier::rlimit(100)]
#[verifier::spinoff_prover]
fn collect_week_keys(ws: &Vec<WeekRow>, f: &WeekFilter) -> (r: Vec<SerialKey>)
    requires
        forall|i: int, j: int|
            #![trigger ws@[i], ws@[j]]
            0 <= i < j < ws@.len() ==> ws@[i].id != ws@[j].id,
    ensures
        keys_distinct(r@),
        forall|k: int|
            #![trigger r@[k]]
            0 <= k < r@.len() ==> ({
                let i = week_row_with_id(ws@, r@[k].id);
                &&& 0 <= i < ws@.len()
                &&& picks_week(*f, ws@[i])
                &&& ws@[i].serial == r@[k].serial
            }),
        forall|i: int|
            #![trigger ws@[i]]
            0 <= i < ws@.len() && picks_week(*f, ws@[i]) ==> key_pos(r@, ws@[i].id) != -1,
{
    let mut r: Vec<SerialKey> = Vec::new();
    let mut i: usize = 0;
    while i < ws.len()
        invariant
            i <= ws@.len(),
            forall|a: int, b: int|
                #![trigger ws@[a], ws@[b]]
                0 <= a < b < ws@.len() ==> ws@[a].id != ws@[b].id,
            keys_distinct(r@),
            forall|k: int|
                #![trigger r@[k]]
                0 <= k < r@.len() ==> ({
                    let i2 = week_row_with_id(ws@, r@[k].id);
                    &&& 0 <= i2 < i
                    &&& picks_week(*f, ws@[i2])
                    &&& ws@[i2].serial == r@[k].serial
                }),
            forall|i2: int|
                #![trigger ws@[i2]]
                0 <= i2 < i && picks_week(*f, ws@[i2]) ==> key_pos(r@, ws@[i2].id) != -1,
        decreases ws@.len() - i,
    {
        let keep = week_picked(f, &ws[i]);
        if keep {
            let ghost prior = r@;
            r.push(SerialKey { serial: ws[i].serial, id: ws[i].id });
            proof {
                lemma_week_row_with_id(ws@, ws@[i as int].id);
                let iw = week_row_with_id(ws@, ws@[i as int].id);
                assert(iw != -1);
                assert(ws@[iw].id == ws@[i as int].id);
                assert(iw == i as int);
                assert forall|a: int, b: int|
                    #![trigger r@[a], r@[b]]
                    0 <= a < b < r@.len() implies r@[a].id != r@[b].id by {
                    if b == r@.len() - 1 {
                        let i2 = week_row_with_id(ws@, prior[a].id);
                        assert(ws@[i2].id != ws@[i as int].id);
                    }
                }
                assert forall|i2: int|
                    #![trigger ws@[i2]]
                    0 <= i2 < i + 1 && picks_week(*f, ws@[i2]) implies key_pos(r@, ws@[i2].id)
                    != -1 by {
                    lemma_key_pos(r@, ws@[i2].id);
                    if i2 < i {
                        if key_pos(r@, ws@[i2].id) == -1 {
                            lemma_key_pos(prior, ws@[i2].id);
                            let kp = key_pos(prior, ws@[i2].id);
                            assert(kp != -1);
                            assert(prior[kp].id == ws@[i2].id);
                            assert(r@[kp].id == ws@[i2].id);
                            assert(false);
                        }
                    } else {
                        if key_pos(r@, ws@[i2].id) == -1 {
                            assert(r@[r@.len() - 1].id == ws@[i as int].id);
                            assert(false);
                        }
                    }
                }
            }
        }
        i = i + 1;
    }
    r
}

/// Sorting the collected week keys preserves which weeks they describe.
#[verifier::spinoff_prover]
proof fn lemma_sorted_week_keys(
    ws: Seq<WeekRow>,
    keys: Seq<SerialKey>,
    sorted: Seq<SerialKey>,
    f: WeekFilter,
)
    requires
        forall|k: int|
            #![trigger keys[k]]
            0 <= k < keys.len() ==> ({
                let i = week_row_with_id(ws, keys[k].id);
                &&& 0 <= i < ws.len()
                &&& picks_week(f, ws[i])
                &&& ws[i].serial == keys[k].serial
            }),
        forall|i: int|
            #![trigger ws[i]]
            0 <= i < ws.len() && picks_week(f, ws[i]) ==> key_pos(keys, ws[i].id) != -1,
        forall|x: SerialKey| sorted.contains(x) <==> keys.contains(x),
    ensures
        forall|k: int|
            #![trigger sorted[k]]
            0 <= k < sorted.len() ==> ({
                let i = week_row_with_id(ws, sorted[k].id);
                &&& 0 <= i < ws.len()
                &&& picks_week(f, ws[i])
                &&& ws[i].serial == sorted[k].serial
            }),
        forall|i: int|
            #![trigger ws[i]]
            0 <= i < ws.len() && picks_week(f, ws[i]) ==> key_pos(sorted, ws[i].id) != -1,
{
    assert forall|k: int| #![trigger sorted[k]] 0 <= k < sorted.len() implies ({
        let i = week_row_with_id(ws, sorted[k].id);
        &&& 0 <= i < ws.len()
        &&& picks_week(f, ws[i])
        &&& ws[i].serial == sorted[k].serial
    }) by {
        assert(sorted.contains(sorted[k]));
        assert(keys.contains(sorted[k]));
        let kk = choose|kk: int| 0 <= kk < keys.len() && keys[kk] == sorted[k];
        assert(0 <= kk < keys.len());
        assert(keys[kk] == sorted[k]);
    }
    assert forall|i: int|
        #![trigger ws[i]]
        0 <= i < ws.len() && picks_week(f, ws[i]) implies key_pos(sorted, ws[i].id) != -1 by {
        lemma_key_pos(keys, ws[i].id);
        let kp = key_pos(keys, ws[i].id);
        assert(kp != -1);
        assert(keys[kp].id == ws[i].id);
        assert(keys.contains(keys[kp]));
        assert(sorted.contains(keys[kp]));
        let k2 = choose|k2: int| 0 <= k2 < sorted.len() && sorted[k2] == keys[kp];
        lemma_key_pos(sorted, ws[i].id);
        if key_pos(sorted, ws[i].id) == -1 {
            assert(sorted[k2].id == ws[i].id);
            assert(false);
        }
    }
}

/// The sort keys of the targets of one week, in table order.
#[verifier::rlimit(100)]
#[verifier::spinoff_prover]
fn collect_target_keys(ts: &Vec<TargetRow>, week_id: u64) -> (r: Vec<SerialKey>)
    requires
        forall|i: int, j: int|
            #![trigger ts@[i], ts@[j]]
            0 <= i < j < ts@.len() ==> ts@[i].id != ts@[j].id,
    ensures
        keys_distinct(r@),
        forall|k: int|
            #![trigger r@[k]]
            0 <= k < r@.len() ==> ({
                let i = target_with_id(ts@, r@[k].id);
                &&& 0 <= i < ts@.len()
                &&& ts@[i].week_id == week_id
                &&& ts@[i].serial == r@[k].serial
            }),
        forall|i: int|
            #![trigger ts@[i]]
            0 <= i < ts@.len() && ts@[i].week_id == week_id ==> key_pos(r@, ts@[i].id) != -1,
{
    let mut r: Vec<SerialKey> = Vec::new();
    let mut i: usize = 0;
    while i < ts.len()
        invariant
            i <= ts@.len(),
            forall|a: int, b: int|
                #![trigger ts@[a], ts@[b]]
                0 <= a < b < ts@.len() ==> ts@[a].id != ts@[b].id,
            keys_distinct(r@),
            forall|k: int|
                #![trigger r@[k]]
                0 <= k < r@.len() ==> ({
                    let i2 = target_with_id(ts@, r@[k].id);
                    &&& 0 <= i2 < i
                    &&& ts@[i2].week_id == week_id
                    &&& ts@[i2].serial == r@[k].serial
                }),
            forall|i2: int|
                #![trigger ts@[i2]]
                0 <= i2 < i && ts@[i2].week_id == week_id ==> key_pos(r@, ts@[i2].id) != -1,
        decreases ts@.len() - i,
    {
        if ts[i].week_id == week_id {
            let ghost prior = r@;
            r.push(SerialKey { serial: ts[i].serial, id: ts[i].id });
            proof {
                lemma_target_with_id(ts@, ts@[i as int].id);
                let it = target_with_id(ts@, ts@[i as int].id);
                assert(it != -1);
                assert(ts@[it].id == ts@[i as int].id);
                assert(it == i as int);
                assert forall|a: int, b: int|
                    #![trigger r@[a], r@[b]]
                    0 <= a < b < r@.len() implies r@[a].id != r@[b].id by {
                    if b == r@.len() - 1 {
                        let i2 = target_with_id(ts@, prior[a].id);
                        assert(ts@[i2].id != ts@[i as int].id);
                    }
                }
                assert forall|i2: int|
                    #![trigger ts@[i2]]
                    0 <= i2 < i + 1 && ts@[i2].week_id == week_id implies key_pos(r@, ts@[i2].id)
                    != -1 by {
                    lemma_key_pos(r@, ts@[i2].id);
                    if i2 < i {
                        if key_pos(r@, ts@[i2].id) == -1 {
                            lemma_key_pos(prior, ts@[i2].id);
                            let kp = key_pos(prior, ts@[i2].id);
                            assert(kp != -1);
                            assert(prior[kp].id == ts@[i2].id);
                            assert(r@[kp].id == ts@[i2].id);
                            assert(false);
                        }
                    } else {
                        if key_pos(r@, ts@[i2].id) == -1 {
                            assert(r@[r@.len() - 1].id == ts@[i as int].id);
                            assert(false);
                        }
                    }
                }
            }
        }
        i = i + 1;
    }
    r
}

/// Sorting the collected target keys preserves which targets they describe.
#[verifier::spinoff_prover]
proof fn lemma_sorted_target_keys(
    ts: Seq<TargetRow>,
    keys: Seq<SerialKey>,
    sorted: Seq<SerialKey>,
    week_id: u64,
)
    requires
        forall|k: int|
            #![trigger keys[k]]
            0 <= k < keys.len() ==> ({
                let i = target_with_id(ts, keys[k].id);
                &&& 0 <= i < ts.len()
                &&& ts[i].week_id == week_id
                &&& ts[i].serial == keys[k].serial
            }),
        forall|i: int|
            #![trigger ts[i]]
            0 <= i < ts.len() && ts[i].week_id == week_id ==> key_pos(keys, ts[i].id) != -1,
        forall|x: SerialKey| sorted.contains(x) <==> keys.contains(x),
    ensures
        forall|k: int|
            #![trigger sorted[k]]
            0 <= k < sorted.len() ==> ({
                let i = target_with_id(ts, sorted[k].id);
                &&& 0 <= i < ts.len()
                &&& ts[i].week_id == week_id
                &&& ts[i].serial == sorted[k].serial
            }),
        forall|i: int|
            #![trigger ts[i]]
            0 <= i < ts.len() && ts[i].week_id == week_id ==> key_pos(sorted, ts[i].id) != -1,
{
    assert forall|k: int| #![trigger sorted[k]] 0 <= k < sorted.len() implies ({
        let i = target_with_id(ts, sorted[k].id);
        &&& 0 <= i < ts.len()
        &&& ts[i].week_id == week_id
        &&& ts[i].serial == sorted[k].serial
    }) by {
        assert(sorted.contains(sorted[k]));
        assert(keys.contains(sorted[k]));
        let kk = choose|kk: int| 0 <= kk < keys.len() && keys[kk] == sorted[k];
        assert(0 <= kk < keys.len());
        assert(keys[kk] == sorted[k]);
    }
    assert forall|i: int|
        #![trigger ts[i]]
        0 <= i < ts.len() && ts[i].week_id == week_id implies key_pos(sorted, ts[i].id) != -1 by {
        lemma_key_pos(keys, ts[i].id);
        let kp = key_pos(keys, ts[i].id);
        assert(kp != -1);
        assert(keys[kp].id == ts[i].id);
        assert(keys.contains(keys[kp]));
        assert(sorted.contains(keys[kp]));
        let k2 = choose|k2: int| 0 <= k2 < sorted.len() && sorted[k2] == keys[kp];
        lemma_key_pos(sorted, ts[i].id);
        if key_pos(sorted, ts[i].id) == -1 {
            assert(sorted[k2].id == ts[i].id);
            assert(false);
        }
    }
}

/// The target list a read returns for one week: exactly the week's target
/// rows, each carrying its row's fields, in strictly ascending (serial, id)
/// order.
pub open spec fn targets_exact(ts: Seq<TargetRow>, week_id: u64, out: Seq<Target>) -> bool {
    &&& forall|j: int|
        #![trigger out[j]]
        0 <= j < out.len() ==> ({
            let i = target_with_id(ts, out[j].id);
            &&& 0 <= i < ts.len()
            &&& ts[i].week_id == week_id
            &&& out[j].serial == ts[i].serial
            &&& out[j].text == ts[i].text
            &&& out[j].source == ts[i].source
            &&& out[j].is_complete == ts[i].is_complete
        })
    &&& forall|i: int|
        #![trigger ts[i]]
        0 <= i < ts.len() && ts[i].week_id == week_id ==> exists|j: int|
            0 <= j < out.len() && (#[trigger] out[j]).id == ts[i].id
    &&& forall|a: int, b: int|
        #![trigger out[a], out[b]]
        0 <= a < b < out.len() ==> (out[a].serial < out[b].serial || (out[a].serial
            == out[b].serial && out[a].id < out[b].id))
}

/// The targets of one week, ordered by serial with the id as tie-breaker.
#[verifier::rlimit(100)]
#[verifier::spinoff_prover]
fn build_targets(ts: &Vec<TargetRow>, week_id: u64) -> (out: Vec<Target>)
    requires
        forall|i: int, j: int|
            #![trigger ts@[i], ts@[j]]
            0 <= i < j < ts@.len() ==> ts@[i].id != ts@[j].id,
    ensures
        targets_exact(ts@, week_id, out@),
{
    let keys = collect_target_keys(ts, week_id);
    let sorted = sort_keys(&keys);
    proof {
        lemma_sorted_target_keys(ts@, keys@, sorted@, week_id);
    }
    let mut out: Vec<Target> = Vec::new();
    let mut k: usize = 0;
    while k < sorted.len()
        invariant
            k <= sorted@.len(),
            out@.len() == k,
            forall|i: int, j: int|
                #![trigger ts@[i], ts@[j]]
                0 <= i < j < ts@.len() ==> ts@[i].id != ts@[j].id,
            keys_sorted(sorted@),
            keys_distinct(sorted@),
            forall|k2: int|
                #![trigger sorted@[k2]]
                0 <= k2 < sorted@.len() ==> ({
                    let i = target_with_id(ts@, sorted@[k2].id);
                    &&& 0 <= i < ts@.len()
                    &&& ts@[i].week_id == week_id
                    &&& ts@[i].serial == sorted@[k2].serial
                }),
            forall|i: int|
                #![trigger ts@[i]]
                0 <= i < ts@.len() && ts@[i].week_id == week_id ==> key_pos(sorted@, ts@[i].id)
                    != -1,
            forall|j: int|
                #![trigger out@[j]]
                0 <= j < k ==> out@[j].id == sorted@[j].id && out@[j].serial == sorted@[j].serial
                    && ({
                    let i = target_with_id(ts@, out@[j].id);
                    &&& 0 <= i < ts@.len()
                    &&& ts@[i].week_id == week_id
                    &&& out@[j].text == ts@[i].text
                    &&& out@[j].source == ts@[i].source
                    &&& out@[j].is_complete == ts@[i].is_complete
                }),
        decreases sorted@.len() - k,
    {
        proof {
            lemma_target_with_id(ts@, sorted@[k as int].id);
        }
        let ti = match find_target_index(ts, sorted[k].id) {
            Some(i) => i,
            None => unreached(),
        };
        proof {
            let i0 = target_with_id(ts@, sorted@[k as int].id);
            assert(ts@[i0].id == sorted@[k as int].id && ts@[ti as int].id == sorted@[k as int].id);
            assert(i0 == ti as int);
        }
        let row = &ts[ti];
        out.push(
            Target {
                id: row.id,
                serial: row.serial,
                text: row.text.clone(),
                source: row.source.clone(),
                is_complete: row.is_complete,
            },
        );
        k = k + 1;
    }
    proof {
        assert forall|i: int|
            #![trigger ts@[i]]
            0 <= i < ts@.len() && ts@[i].week_id == week_id implies exists|j: int|
            0 <= j < out@.len() && (#[trigger] out@[j]).id == ts@[i].id by {
            lemma_key_pos(sorted@, ts@[i].id);
            let kp = key_pos(sorted@, ts@[i].id);
            assert(kp != -1);
            assert(sorted@[kp].id == ts@[i].id);
            assert(out@[kp].id == ts@[i].id);
        }
    }
    out
}

/// The week list a read returns for filter `f`: exactly the rows the filter
/// picks, each carrying its row's fields and exactly its targets, in
/// strictly ascending (serial, id) order.
pub open spec fn weeks_exact_by(
    ws: Seq<WeekRow>,
    ts: Seq<TargetRow>,
    f: WeekFilter,
    out: Seq<Week>,
) -> bool {
    &&& forall|j: int|
        #![trigger out[j]]
        0 <= j < out.len() ==> ({
            let i = week_row_with_id(ws, out[j].id);
            &&& 0 <= i < ws.len()
            &&& picks_week(f, ws[i])
            &&& out[j].serial == ws[i].serial
            &&& out[j].text == ws[i].text
            &&& out[j].date == ws[i].date
            &&& out[j].is_complete == ws[i].is_complete
            &&& targets_exact(ts, out[j].id, out[j].targets@)
        })
    &&& forall|i: int|
        #![trigger ws[i]]
        0 <= i < ws.len() && picks_week(f, ws[i]) ==> exists|j: int|
            0 <= j < out.len() && (#[trigger] out[j]).id == ws[i].id
    &&& forall|a: int, b: int|
        #![trigger out[a], out[b]]
        0 <= a < b < out.len() ==> (out[a].serial < out[b].serial || (out[a].serial
            == out[b].serial && out[a].id < out[b].id))
}

/// The weeks the filter picks, ordered by serial with the id as
/// tie-breaker, each with its full ordered target list.
#[verifier::rlimit(100)]
#[verifier::spinoff_prover]
pub fn build_weeks(ws: &Vec<WeekRow>, ts: &Vec<TargetRow>, f: &WeekFilter) -> (out: Vec<Week>)
    requires
        forall|i: int, j: int|
            #![trigger ws@[i], ws@[j]]
            0 <= i < j < ws@.len() ==> ws@[i].id != ws@[j].id,
        forall|i: int, j: int|
            #![trigger ts@[i], ts@[j]]
            0 <= i < j < ts@.len() ==> ts@[i].id != ts@[j].id,
    ensures
        weeks_exact_by(ws@, ts@, *f, out@),
{
    let keys = collect_week_keys(ws, f);
    let sorted = sort_keys(&keys);
    proof {
        lemma_sorted_week_keys(ws@, keys@, sorted@, *f);
    }
    let mut out: Vec<Week> = Vec::new();
    let mut k: usize = 0;
    while k < sorted.len()
        invariant
            k <= sorted@.len(),
            out@.len() == k,
            forall|i: int, j: int|
                #![trigger ws@[i], ws@[j]]
                0 <= i < j < ws@.len() ==> ws@[i].id != ws@[j].id,
            forall|i: int, j: int|
                #![trigger ts@[i], ts@[j]]
                0 <= i < j < ts@.len() ==> ts@[i].id != ts@[j].id,
            keys_sorted(sorted@),
            keys_distinct(sorted@),
            forall|k2: int|
                #![trigger sorted@[k2]]
                0 <= k2 < sorted@.len() ==> ({
                    let i = week_row_with_id(ws@, sorted@[k2].id);
                    &&& 0 <= i < ws@.len()
                    &&& picks_week(*f, ws@[i])
                    &&& ws@[i].serial == sorted@[k2].serial
                }),
            forall|i: int|
                #![trigger ws@[i]]
                0 <= i < ws@.len() && picks_week(*f, ws@[i]) ==> key_pos(sorted@, ws@[i].id) != -1,
            forall|j: int|
                #![trigger out@[j]]
                0 <= j < k ==> out@[j].id == sorted@[j].id && out@[j].serial == sorted@[j].serial
                    && ({
                    let i = week_row_with_id(ws@, out@[j].id);
                    &&& 0 <= i < ws@.len()
                    &&& picks_week(*f, ws@[i])
                    &&& out@[j].text == ws@[i].text
                    &&& out@[j].date == ws@[i].date
                    &&& out@[j].is_complete == ws@[i].is_complete
                    &&& targets_exact(ts@, out@[j].id, out@[j].targets@)
                }),
        decreases sorted@.len() - k,
    {
        proof {
            lemma_week_row_with_id(ws@, sorted@[k as int].id);
        }
        let wi = match find_week_index(ws, sorted[k].id) {
            Some(i) => i,
            None => unreached(),
        };
        proof {
            let i0 = week_row_with_id(ws@, sorted@[k as int].id);
            assert(ws@[i0].id == sorted@[k as int].id && ws@[wi as int].id == sorted@[k as int].id);
            assert(i0 == wi as int);
        }
        let targets = build_targets(ts, ws[wi].id);
        let row = &ws[wi];
        out.push(
            Week {
                id: row.id,
                serial: row.serial,
                text: row.text.clone(),
                date: row.date,
                is_complete: row.is_complete,
                targets,
            },
        );
        k = k + 1;
    }
    proof {
        assert forall|i: int|
            #![trigger ws@[i]]
            0 <= i < ws@.len() && picks_week(*f, ws@[i]) implies exists|j: int|
            0 <= j < out@.len() && (#[trigger] out@[j]).id == ws@[i].id by {
            lemma_key_pos(sorted@, ws@[i].id);
            let kp = key_pos(sorted@, ws@[i].id);
            assert(kp != -1);
            assert(sorted@[kp].id == ws@[i].id);
            assert(out@[kp].id == ws@[i].id);
        }
    }
    out
}

/// What one schedule entry guarantees: its header carries the fields of the
/// course row with its id and the owning department's code, and its weeks
/// are exactly the course's visible weeks on the queried day, each with its
/// full ordered target list; an entry never stands for an empty week list.
pub open spec fn schedule_item_ok(s: Store, date: u32, item: ScheduleItem) -> bool {
    let c = course_with_id(s.courses@, item.course.id);
    &&& 0 <= c < s.courses@.len()
    &&& item.course.id == s.courses@[c].id
    &&& item.course.serial == s.courses@[c].serial
    &&& item.course.name == s.courses@[c].name
    &&& item.course.status == s.courses@[c].status
    &&& exists|d: int|
        0 <= d < s.departments@.len() && (#[trigger] s.departments@[d]).id
            == s.courses@[c].department_id && item.course.department == s.departments@[d].code
    &&& weeks_exact_by(s.weeks@, s.targets@, on_day(s.courses@[c], date), item.weeks@)
    &&& item.weeks@.len() > 0
}

/// The daily schedule: one entry per course with at least one visible week
/// falling on the given day, in course-table order, each entry holding
/// exactly those weeks in ascending serial order with their full ordered
/// target lists. A week is visible while its course is active or complete,
/// or once it is itself complete and its course merely inactive; weeks of
/// draft courses, and unfinished weeks of inactive courses, never appear.
#[verifier::rlimit(100)]
#[verifier::spinoff_prover]
pub fn get_schedule(store: &Store, date: u32) -> (r: Vec<ScheduleItem>)
    requires
        store.wf(),
    ensures
        forall|i: int| 0 <= i < r@.len() ==> schedule_item_ok(*store, date, #[trigger] r@[i]),
        forall|c: int|
            #![trigger store.courses@[c]]
            0 <= c < store.courses@.len() && (exists|w: int|
                0 <= w < store.weeks@.len() && week_on(
                    #[trigger] store.weeks@[w],
                    store.courses@[c],
                    date,
                )) ==> exists|i: int|
                0 <= i < r@.len() && (#[trigger] r@[i]).course.id == store.courses@[c].id,
        forall|a: int, b: int|
            #![trigger r@[a], r@[b]]
            0 <= a < b < r@.len() ==> course_with_id(store.courses@, r@[a].course.id)
                < course_with_id(store.courses@, r@[b].course.id),
{
    let mut r: Vec<ScheduleItem> = Vec::new();
    let mut c: usize = 0;
    while c < store.courses.len()
        invariant
            c <= store.courses@.len(),
            store.wf(),
            forall|i: int| 0 <= i < r@.len() ==> schedule_item_ok(*store, date, #[trigger] r@[i]),
            forall|c2: int|
                #![trigger store.courses@[c2]]
                0 <= c2 < c && (exists|w: int|
                    0 <= w < store.weeks@.len() && week_on(
                        #[trigger] store.weeks@[w],
                        store.courses@[c2],
                        date,
                    )) ==> exists|i: int|
                    0 <= i < r@.len() && (#[trigger] r@[i]).course.id == store.courses@[c2].id,
            forall|i: int|
                0 <= i < r@.len() ==> course_with_id(store.courses@, (#[trigger] r@[i]).course.id)
                    < c,
            forall|a: int, b: int|
                #![trigger r@[a], r@[b]]
                0 <= a < b < r@.len() ==> course_with_id(store.courses@, r@[a].course.id)
                    < course_with_id(store.courses@, r@[b].course.id),
        decreases store.courses@.len() - c,
    {
        let crow = &store.courses[c];
        let f = WeekFilter { course_id: crow.id, on: Some((crow.status, date)) };
        let wk = build_weeks(&store.weeks, &store.targets, &f);
        proof {
            lemma_course_with_id(store.courses@, store.courses@[c as int].id);
            let c0 = course_with_id(store.courses@, store.courses@[c as int].id);
            assert(c0 != -1);
            assert(store.courses@[c0].id == store.courses@[c as int].id);
            assert(c0 == c as int);
            assert forall|w: int|
                0 <= w < store.weeks@.len() implies (week_on(
                #[trigger] store.weeks@[w],
                store.courses@[c as int],
                date,
            ) == picks_week(f, store.weeks@[w])) by {}
        }
        if wk.len() > 0 {
            let di = match find_dept_index(&store.departments, crow.department_id) {
                Some(d) => d,
                None => unreached(),
            };
            let ghost prior = r@;
            r.push(
                ScheduleItem {
                    course: CourseHeader {
                        id: crow.id,
                        department: store.departments[di].code.clone(),
                        serial: crow.serial,
                        name: crow.name.clone(),
                        status: crow.status,
                    },
                    weeks: wk,
                },
            );
            proof {
                assert(schedule_item_ok(*store, date, r@[r@.len() - 1]));
                assert forall|c2: int|
                    #![trigger store.courses@[c2]]
                    0 <= c2 < c + 1 && (exists|w: int|
                        0 <= w < store.weeks@.len() && week_on(
                            #[trigger] store.weeks@[w],
                            store.courses@[c2],
                            date,
                        )) implies exists|i: int|
                    0 <= i < r@.len() && (#[trigger] r@[i]).course.id
                        == store.courses@[c2].id by {
                    if c2 < c {
                        let i = choose|i: int|
                            0 <= i < prior.len() && (#[trigger] prior[i]).course.id
                                == store.courses@[c2].id;
                        assert(r@[i].course.id == store.courses@[c2].id);
                    } else {
                        assert(r@[r@.len() - 1].course.id == store.courses@[c2].id);
                    }
                }
            }
        } else {
            proof {
                assert forall|w: int|
                    0 <= w < store.weeks@.len() implies !week_on(
                    #[trigger] store.weeks@[w],
                    store.courses@[c as int],
                    date,
                ) by {
                    if picks_week(f, store.weeks@[w]) {
                        assert(exists|j: int|
                            0 <= j < wk@.len() && (#[trigger] wk@[j]).id == store.weeks@[w].id);
                        assert(false);
                    }
                }
            }
        }
        c = c + 1;
    }
    r
}

} // verus!
