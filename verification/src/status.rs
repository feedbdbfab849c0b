//! Status changes, and the scheduling side effect of activation: laying a
//! course's incomplete weeks out one per calendar week from the Monday of
//! the current week.

use vstd::prelude::*;
use crate::store::{Store, WeekRow, has_dept, has_course, has_week, find_course_index};
use crate::types::{CourseStatus, StoreError, status_from_code};
use crate::order::{SerialKey, keys_sorted, keys_distinct, sort_keys};

verus! {

/// The Monday on or before this day; day 1 of the common era is a Monday,
/// so a day is a Monday exactly when its number is 1 modulo 7.
pub open spec fn monday_on_or_before(day: int) -> int {
    day - ((day + 6) % 7)
}

/// How many weeks of this course are not complete.
pub open spec fn incomplete_count(ws: Seq<WeekRow>, course_id: u64) -> int
    decreases ws.len(),
{
    if ws.len() == 0 {
        0
    } else {
        incomplete_count(ws.drop_last(), course_id) + if ws.last().course_id == course_id
            && !ws.last().is_complete {
            1int
        } else {
            0int
        }
    }
}

/// First position in the order whose key carries this id, or -1.
pub open spec fn key_pos(ord: Seq<SerialKey>, id: u64) -> int
    decreases ord.len(),
{
    if ord.len() == 0 {
        -1
    } else if ord[0].id == id {
        0
    } else {
        let r = key_pos(ord.drop_first(), id);
        if r == -1 {
            -1
        } else {
            r + 1
        }
    }
}

pub proof fn lemma_key_pos(ord: Seq<SerialKey>, id: u64)
    ensures
        key_pos(ord, id) == -1 ==> forall|k: int| 0 <= k < ord.len() ==> (#[trigger] ord[k]).id
            != id,
        key_pos(ord, id) != -1 ==> 0 <= key_pos(ord, id) < ord.len() && ord[key_pos(ord, id)].id
            == id,
    decreases ord.len(),
{
    if ord.len() > 0 && ord[0].id != id {
        let rest = ord.drop_first();
        lemma_key_pos(rest, id);
        if key_pos(ord, id) == -1 {
            assert forall|k: int| 0 <= k < ord.len() implies (#[trigger] ord[k]).id != id by {
                if k > 0 {
                    assert(rest[k - 1] == ord[k]);
                }
            }
        }
    }
}

/// First index of the week row carrying this id, or -1.
pub open spec fn week_with_id(ws: Seq<WeekRow>, id: u64) -> int
    decreases ws.len(),
{
    if ws.len() == 0 {
        -1
    } else if ws[0].id == id {
        0
    } else {
        let r = week_with_id(ws.drop_first(), id);
        if r == -1 {
            -1
        } else {
            r + 1
        }
    }
}

pub proof fn lemma_week_with_id(ws: Seq<WeekRow>, id: u64)
    ensures
        week_with_id(ws, id) == -1 ==> forall|i: int| 0 <= i < ws.len() ==> (#[trigger] ws[i]).id
            != id,
        week_with_id(ws, id) != -1 ==> 0 <= week_with_id(ws, id) < ws.len() && ws[week_with_id(
            ws,
            id,
        )].id == id,
    decreases ws.len(),
{
    if ws.len() > 0 && ws[0].id != id {
        let rest = ws.drop_first();
        lemma_week_with_id(rest, id);
        if week_with_id(ws, id) == -1 {
            assert forall|i: int| 0 <= i < ws.len() implies (#[trigger] ws[i]).id != id by {
                if i > 0 {
                    assert(rest[i - 1] == ws[i]);
                }
            }
        }
    }
}

/// The row a week turns into when activation dates it.
pub open spec fn dated_week(w: WeekRow, date: u32) -> WeekRow {
    WeekRow {
        id: w.id,
        course_id: w.course_id,
        serial: w.serial,
        text: w.text,
        date: Some(date),
        is_complete: w.is_complete,
    }
}

/// What activating a course does to the week table, witnessed by `ord`: the
/// keys of exactly the course's incomplete weeks, in strictly ascending
/// (serial, id) order. The week carrying the key at position `p` gets the
/// date `monday + 7 p`; complete weeks and other courses' weeks are
/// untouched.
pub open spec fn dates_assigned_by(
    old_w: Seq<WeekRow>,
    new_w: Seq<WeekRow>,
    course_id: u64,
    monday: int,
    ord: Seq<SerialKey>,
) -> bool {
    &&& new_w.len() == old_w.len()
    &&& keys_sorted(ord)
    &&& keys_distinct(ord)
    &&& forall|k: int|
        #![trigger ord[k]]
        0 <= k < ord.len() ==> ({
            let i = week_with_id(old_w, ord[k].id);
            &&& 0 <= i < old_w.len()
            &&& old_w[i].course_id == course_id
            &&& !old_w[i].is_complete
            &&& old_w[i].serial == ord[k].serial
        })
    &&& forall|i: int|
        #![trigger old_w[i]]
        0 <= i < old_w.len() ==> if old_w[i].course_id == course_id && !old_w[i].is_complete {
            ({
                let p = key_pos(ord, old_w[i].id);
                &&& 0 <= p < ord.len()
                &&& new_w[i] == dated_week(old_w[i], (monday + 7 * p) as u32)
            })
        } else {
            new_w[i] == old_w[i]
        }
}

/// What activating a course does to the week table: its incomplete weeks,
/// in ascending serial order with the id as tie-breaker, get consecutive
/// weekly dates starting at `monday`; nothing else changes.
pub open spec fn dates_assigned(
    old_w: Seq<WeekRow>,
    new_w: Seq<WeekRow>,
    course_id: u64,
    monday: int,
) -> bool {
    exists|ord: Seq<SerialKey>| dates_assigned_by(old_w, new_w, course_id, monday, ord)
}

/// The sort keys of the course's incomplete weeks, in table order.
#[verifier::rlimit(100)]
#[verifier::spinoff_prover]
fn collect_incomplete_keys(ws: &Vec<WeekRow>, course_id: u64) -> (r: Vec<SerialKey>)
    requires
        forall|i: int, j: int|
            #![trigger ws@[i], ws@[j]]
            0 <= i < j < ws@.len() ==> ws@[i].id != ws@[j].id,
    ensures
        keys_distinct(r@),
        r@.len() == incomplete_count(ws@, course_id),
        forall|k: int|
            #![trigger r@[k]]
            0 <= k < r@.len() ==> ({
                let i = week_with_id(ws@, r@[k].id);
                &&& 0 <= i < ws@.len()
                &&& ws@[i].course_id == course_id
                &&& !ws@[i].is_complete
                &&& ws@[i].serial == r@[k].serial
            }),
        forall|i: int|
            #![trigger ws@[i]]
            0 <= i < ws@.len() && ws@[i].course_id == course_id && !ws@[i].is_complete ==> key_pos(
                r@,
                ws@[i].id,
            ) != -1,
{
    let mut r: Vec<SerialKey> = Vec::new();
    let mut i: usize = 0;
    while i < ws.len()
        invariant
            i <= ws@.len(),
            forall|a: int, b: int|
                #![trigger ws@[a], ws@[b]]
                0 <= a < b < ws@.len() ==> ws@[a].id != ws@[b].id,
            r@.len() == incomplete_count(ws@.take(i as int), course_id),
            keys_distinct(r@),
            forall|k: int|
                #![trigger r@[k]]
                0 <= k < r@.len() ==> ({
                    let i2 = week_with_id(ws@, r@[k].id);
                    &&& 0 <= i2 < i
                    &&& ws@[i2].course_id == course_id
                    &&& !ws@[i2].is_complete
                    &&& ws@[i2].serial == r@[k].serial
                }),
            forall|i2: int|
                #![trigger ws@[i2]]
                0 <= i2 < i && ws@[i2].course_id == course_id && !ws@[i2].is_complete ==> key_pos(
                    r@,
                    ws@[i2].id,
                ) != -1,
        decreases ws@.len() - i,
    {
        proof {
            assert(ws@.take(i + 1).drop_last() =~= ws@.take(i as int));
            assert(ws@.take(i + 1).last() == ws@[i as int]);
        }
        let keep = ws[i].course_id == course_id && !ws[i].is_complete;
        if keep {
            let ghost prior = r@;
            r.push(SerialKey { serial: ws[i].serial, id: ws[i].id });
            proof {
                lemma_week_with_id(ws@, ws@[i as int].id);
                let iw = week_with_id(ws@, ws@[i as int].id);
                assert(iw != -1);
                assert(ws@[iw].id == ws@[i as int].id);
                assert(iw == i as int);
                assert forall|a: int, b: int|
                    #![trigger r@[a], r@[b]]
                    0 <= a < b < r@.len() implies r@[a].id != r@[b].id by {
                    if b == r@.len() - 1 {
                        let i2 = week_with_id(ws@, prior[a].id);
                        assert(ws@[i2].id != ws@[i as int].id);
                    }
                }
                assert forall|i2: int|
                    #![trigger ws@[i2]]
                    0 <= i2 < i + 1 && ws@[i2].course_id == course_id
                        && !ws@[i2].is_complete implies key_pos(r@, ws@[i2].id) != -1 by {
                    lemma_key_pos(r@, ws@[i2].id);
                    if i2 < i {
                        if key_pos(r@, ws@[i2].id) == -1 {
                            lemma_key_pos(prior, ws@[i2].id);
                            let kp = key_pos(prior, ws@[i2].id);
                            assert(kp != -1);
                            assert(prior[kp].id == ws@[i2].id);
                            assert(r@[kp].id == ws@[i2].id);
                            assert(false);
                        }
                    } else {
                        if key_pos(r@, ws@[i2].id) == -1 {
                            assert(r@[r@.len() - 1].id == ws@[i as int].id);
                            assert(false);
                        }
                    }
                }
            }
        }
        i = i + 1;
    }
    proof {
        assert(ws@.take(ws@.len() as int) =~= ws@);
    }
    r
}

/// Sorting the collected keys preserves which weeks they describe.
#[verifier::spinoff_prover]
proof fn lemma_sorted_keys_transfer(
    weeks: Seq<WeekRow>,
    keys: Seq<SerialKey>,
    sorted: Seq<SerialKey>,
    course_id: u64,
)
    requires
        forall|k: int|
            #![trigger keys[k]]
            0 <= k < keys.len() ==> ({
                let i = week_with_id(weeks, keys[k].id);
                &&& 0 <= i < weeks.len()
                &&& weeks[i].course_id == course_id
                &&& !weeks[i].is_complete
                &&& weeks[i].serial == keys[k].serial
            }),
        forall|i: int|
            #![trigger weeks[i]]
            0 <= i < weeks.len() && weeks[i].course_id == course_id && !weeks[i].is_complete
                ==> key_pos(keys, weeks[i].id) != -1,
        forall|x: SerialKey| sorted.contains(x) <==> keys.contains(x),
    ensures
        forall|k: int|
            #![trigger sorted[k]]
            0 <= k < sorted.len() ==> ({
                let i = week_with_id(weeks, sorted[k].id);
                &&& 0 <= i < weeks.len()
                &&& weeks[i].course_id == course_id
                &&& !weeks[i].is_complete
                &&& weeks[i].serial == sorted[k].serial
            }),
        forall|i: int|
            #![trigger weeks[i]]
            0 <= i < weeks.len() && weeks[i].course_id == course_id && !weeks[i].is_complete
                ==> key_pos(sorted, weeks[i].id) != -1,
{
    assert forall|k: int| #![trigger sorted[k]] 0 <= k < sorted.len() implies ({
        let i = week_with_id(weeks, sorted[k].id);
        &&& 0 <= i < weeks.len()
        &&& weeks[i].course_id == course_id
        &&& !weeks[i].is_complete
        &&& weeks[i].serial == sorted[k].serial
    }) by {
        assert(sorted.contains(sorted[k]));
        assert(keys.contains(sorted[k]));
        let kk = choose|kk: int| 0 <= kk < keys.len() && keys[kk] == sorted[k];
        assert(0 <= kk < keys.len());
        assert(keys[kk] == sorted[k]);
    }
    assert forall|i: int|
        #![trigger weeks[i]]
        0 <= i < weeks.len() && weeks[i].course_id == course_id
            && !weeks[i].is_complete implies key_pos(sorted, weeks[i].id) != -1 by {
        lemma_key_pos(keys, weeks[i].id);
        let kp = key_pos(keys, weeks[i].id);
        assert(kp != -1);
        assert(keys[kp].id == weeks[i].id);
        assert(keys.contains(keys[kp]));
        assert(sorted.contains(keys[kp]));
        let k2 = choose|k2: int| 0 <= k2 < sorted.len() && sorted[k2] == keys[kp];
        lemma_key_pos(sorted, weeks[i].id);
        if key_pos(sorted, weeks[i].id) == -1 {
            assert(sorted[k2].id == weeks[i].id);
            assert(false);
        }
    }
}

/// First position of the key carrying this id in a distinct-id order, as
/// an index, or `None` when no key carries it.
fn find_key_pos(sorted: &Vec<SerialKey>, id: u64) -> (r: Option<usize>)
    requires
        keys_distinct(sorted@),
    ensures
        match r {
            Some(p) => p < sorted@.len() && key_pos(sorted@, id) == p as int,
            None => key_pos(sorted@, id) == -1,
        },
{
    let mut k: usize = 0;
    while k < sorted.len()
        invariant
            k <= sorted@.len(),
            keys_distinct(sorted@),
            forall|k2: int| 0 <= k2 < k ==> (#[trigger] sorted@[k2]).id != id,
        decreases sorted@.len() - k,
    {
        if sorted[k].id == id {
            proof {
                lemma_key_pos(sorted@, id);
                let kp = key_pos(sorted@, id);
                if kp == -1 {
                    assert(sorted@[k as int].id != id);
                    assert(false);
                }
                assert(sorted@[kp].id == id && sorted@[k as int].id == id);
            }
            return Some(k);
        }
        k = k + 1;
    }
    proof {
        lemma_key_pos(sorted@, id);
        let kp = key_pos(sorted@, id);
        if kp != -1 {
            assert(sorted@[kp].id == id);
            assert(false);
        }
    }
    None
}

/// Walk the weeks, and give each week whose key stands in the order the
/// date belonging to that key's position.
#[verifier::rlimit(100)]
#[verifier::spinoff_prover]
fn assign_week_dates(ws: &mut Vec<WeekRow>, sorted: &Vec<SerialKey>, course_id: u64, monday_u: u64)
    requires
        forall|a: int, b: int|
            #![trigger old(ws)@[a], old(ws)@[b]]
            0 <= a < b < old(ws)@.len() ==> old(ws)@[a].id != old(ws)@[b].id,
        keys_sorted(sorted@),
        keys_distinct(sorted@),
        forall|k: int|
            #![trigger sorted@[k]]
            0 <= k < sorted@.len() ==> ({
                let i = week_with_id(old(ws)@, sorted@[k].id);
                &&& 0 <= i < old(ws)@.len()
                &&& old(ws)@[i].course_id == course_id
                &&& !old(ws)@[i].is_complete
                &&& old(ws)@[i].serial == sorted@[k].serial
            }),
        forall|i: int|
            #![trigger old(ws)@[i]]
            0 <= i < old(ws)@.len() && old(ws)@[i].course_id == course_id
                && !old(ws)@[i].is_complete ==> key_pos(sorted@, old(ws)@[i].id) != -1,
        sorted@.len() > 0 ==> monday_u + 7 * (sorted@.len() - 1) <= u32::MAX,
    ensures
        final(ws)@.len() == old(ws)@.len(),
        forall|i: int|
            0 <= i < old(ws)@.len() ==> (#[trigger] final(ws)@[i]).id == old(ws)@[i].id
                && final(ws)@[i].course_id == old(ws)@[i].course_id,
        dates_assigned_by(old(ws)@, final(ws)@, course_id, monday_u as int, sorted@),
{
    let n = ws.len();
    let mut i: usize = 0;
    while i < n
        invariant
            i <= n == ws@.len(),
            ws@.len() == old(ws)@.len(),
            keys_distinct(sorted@),
            sorted@.len() > 0 ==> monday_u + 7 * (sorted@.len() - 1) <= u32::MAX,
            forall|i2: int|
                #![trigger ws@[i2]]
                0 <= i2 < i ==> ({
                    let p = key_pos(sorted@, old(ws)@[i2].id);
                    if 0 <= p < sorted@.len() {
                        ws@[i2] == dated_week(old(ws)@[i2], (monday_u + 7 * p) as u32)
                    } else {
                        ws@[i2] == old(ws)@[i2]
                    }
                }),
            forall|i2: int| i <= i2 < n ==> ws@[i2] == old(ws)@[i2],
        decreases n - i,
    {
        let wid = ws[i].id;
        proof {
            assert(ws@[i as int] == old(ws)@[i as int]);
            lemma_key_pos(sorted@, wid);
        }
        match find_key_pos(sorted, wid) {
            Some(p) => {
                ws[i].date = Some((monday_u as u32) + 7 * (p as u32));
            },
            None => {},
        }
        i = i + 1;
    }
    proof {
        assert forall|i: int| #![trigger old(ws)@[i]] 0 <= i < old(ws)@.len() implies if old(
            ws,
        )@[i].course_id == course_id && !old(ws)@[i].is_complete {
            ({
                let p = key_pos(sorted@, old(ws)@[i].id);
                &&& 0 <= p < sorted@.len()
                &&& ws@[i] == dated_week(old(ws)@[i], (monday_u as int + 7 * p) as u32)
            })
        } else {
            ws@[i] == old(ws)@[i]
        } by {
            lemma_key_pos(sorted@, old(ws)@[i].id);
            let p = key_pos(sorted@, old(ws)@[i].id);
            if old(ws)@[i].course_id == course_id && !old(ws)@[i].is_complete {
                assert(p != -1);
                assert(ws@[i] == dated_week(old(ws)@[i], (monday_u + 7 * p) as u32));
            } else {
                if p != -1 {
                    assert(sorted@[p].id == old(ws)@[i].id);
                    lemma_week_with_id(old(ws)@, sorted@[p].id);
                    let i2 = week_with_id(old(ws)@, sorted@[p].id);
                    assert(old(ws)@[i2].id == old(ws)@[i].id);
                    assert(i2 == i);
                    assert(false);
                }
            }
        }
        assert(dates_assigned_by(old(ws)@, ws@, course_id, monday_u as int, sorted@));
        assert forall|i: int| 0 <= i < old(ws)@.len() implies (#[trigger] ws@[i]).id == old(
            ws,
        )@[i].id && ws@[i].course_id == old(ws)@[i].course_id by {
            lemma_key_pos(sorted@, old(ws)@[i].id);
        }
    }
}

/// Change a course's status. The text must decode to one of the four
/// statuses, else the call fails with `InvalidArgument`; an unknown course
/// id fails with `NotFound`. Setting `active` also lays the course's
/// incomplete weeks out one per calendar week, in ascending serial order,
/// starting at the Monday on or before `today` (a day number counted from
/// the first day of the common era); dates of already complete weeks are
/// not touched. The other three statuses only update the status column.
/// `StorageError` is returned, and nothing changes, in the one case where
/// an assigned date would not fit a 32-bit day number.
#[verifier::rlimit(100)]
#[verifier::spinoff_prover]
pub fn update_course_status(store: &mut Store, course_id: u64, status: String, today: u32) -> (r:
    Result<(), StoreError>)
    requires
        old(store).wf(),
        1 <= today,
    ensures
        final(store).wf(),
        r is Err ==> *final(store) == *old(store),
        r == Err::<(), StoreError>(StoreError::InvalidArgument) <==> status_from_code(status@)
            is None,
        r == Err::<(), StoreError>(StoreError::NotFound) <==> (status_from_code(status@) is Some
            && !has_course(old(store).courses@, course_id)),
        r == Err::<(), StoreError>(StoreError::StorageError) <==> (status_from_code(status@)
            == Some(CourseStatus::Active) && has_course(old(store).courses@, course_id)
            && incomplete_count(old(store).weeks@, course_id) > 0 && monday_on_or_before(
            today as int,
        ) + 7 * (incomplete_count(old(store).weeks@, course_id) - 1) > u32::MAX),
        r is Ok ==> ({
            let st = status_from_code(status@)->Some_0;
            &&& final(store).departments == old(store).departments
            &&& final(store).targets == old(store).targets
            &&& final(store).next_id == old(store).next_id
            &&& final(store).courses@.len() == old(store).courses@.len()
            &&& forall|i: int|
                #![trigger final(store).courses@[i]]
                0 <= i < old(store).courses@.len() ==> if old(store).courses@[i].id == course_id {
                    &&& final(store).courses@[i].id == old(store).courses@[i].id
                    &&& final(store).courses@[i].department_id == old(
                        store,
                    ).courses@[i].department_id
                    &&& final(store).courses@[i].serial == old(store).courses@[i].serial
                    &&& final(store).courses@[i].name == old(store).courses@[i].name
                    &&& final(store).courses@[i].description == old(store).courses@[i].description
                    &&& final(store).courses@[i].book == old(store).courses@[i].book
                    &&& final(store).courses@[i].prompt == old(store).courses@[i].prompt
                    &&& final(store).courses@[i].status == st
                } else {
                    final(store).courses@[i] == old(store).courses@[i]
                }
            &&& st == CourseStatus::Active ==> dates_assigned(
                old(store).weeks@,
                final(store).weeks@,
                course_id,
                monday_on_or_before(today as int),
            )
            &&& st != CourseStatus::Active ==> final(store).weeks == old(store).weeks
        }),
{
    let ghost old_store = *old(store);
    let st = match CourseStatus::parse(&status) {
        Some(st) => st,
        None => {
            return Err(StoreError::InvalidArgument);
        },
    };
    let ci = match find_course_index(&store.courses, course_id) {
        Some(ci) => ci,
        None => {
            return Err(StoreError::NotFound);
        },
    };
    let is_active = match st {
        CourseStatus::Active => true,
        _ => false,
    };
    if !is_active {
        store.courses[ci].status = st;
        proof {
            assert forall|a: int, b: int|
                #![trigger store.courses@[a], store.courses@[b]]
                0 <= a < b < store.courses@.len() implies store.courses@[a].id
                != store.courses@[b].id && !(store.courses@[a].department_id
                == store.courses@[b].department_id && store.courses@[a].serial
                == store.courses@[b].serial) by {
                assert(old_store.courses@[a].id != old_store.courses@[b].id);
            }
            assert forall|i: int| 0 <= i < store.courses@.len() implies (#[trigger] store.courses@[i]).id
                < store.next_id && has_dept(store.departments@, store.courses@[i].department_id) by {
                assert(old_store.courses@[i].id < old_store.next_id);
                assert(has_dept(old_store.departments@, old_store.courses@[i].department_id));
            }
            assert forall|i: int| 0 <= i < store.weeks@.len() implies (#[trigger] store.weeks@[i]).id
                < store.next_id && has_course(store.courses@, store.weeks@[i].course_id) by {
                let c = choose|c: int|
                    0 <= c < old_store.courses@.len() && (#[trigger] old_store.courses@[c]).id
                        == old_store.weeks@[i].course_id;
                assert(store.courses@[c].id == store.weeks@[i].course_id);
            }
            assert(store.wf());
        }
        return Ok(());
    }
    let keys = collect_incomplete_keys(&store.weeks, course_id);
    let sorted = sort_keys(&keys);
    proof {
        lemma_sorted_keys_transfer(store.weeks@, keys@, sorted@, course_id);
    }
    let m = sorted.len();
    proof {
        if today < 7 {
            assert(((today as u64) + 6) % 7 == (today as u64) - 1);
        }
    }
    let monday_u: u64 = (today as u64) - (((today as u64) + 6) % 7);
    let ghost monday = monday_on_or_before(today as int);
    proof {
        assert(monday_u == monday);
        assert(monday_u <= today);
    }
    if m > 0 {
        let overflow: bool = if (m - 1) as u64 > 613_566_756 {
            proof {
                assert(7 * (m - 1) > u32::MAX) by (nonlinear_arith)
                    requires
                        m - 1 > 613_566_756,
                ;
            }
            true
        } else {
            monday_u + 7 * ((m - 1) as u64) > 0xFFFF_FFFFu64
        };
        if overflow {
            return Err(StoreError::StorageError);
        }
    }
    store.courses[ci].status = st;
    proof {
        assert forall|a: int, b: int|
            #![trigger store.courses@[a], store.courses@[b]]
            0 <= a < b < store.courses@.len() implies store.courses@[a].id != store.courses@[b].id
            && !(store.courses@[a].department_id == store.courses@[b].department_id
            && store.courses@[a].serial == store.courses@[b].serial) by {
            assert(old_store.courses@[a].id != old_store.courses@[b].id);
        }
        assert forall|i: int| 0 <= i < store.courses@.len() implies (#[trigger] store.courses@[i]).id
            < store.next_id && has_dept(store.departments@, store.courses@[i].department_id) by {
            assert(old_store.courses@[i].id < old_store.next_id);
            assert(has_dept(old_store.departments@, old_store.courses@[i].department_id));
        }
    }
    let ghost w0 = store.weeks@;
    assign_week_dates(&mut store.weeks, &sorted, course_id, monday_u);
    proof {
        assert(dates_assigned(w0, store.weeks@, course_id, monday));
        assert forall|i: int| 0 <= i < store.weeks@.len() implies (#[trigger] store.weeks@[i]).id
            < store.next_id && has_course(store.courses@, store.weeks@[i].course_id) by {
            assert(store.weeks@[i].id == w0[i].id && store.weeks@[i].course_id == w0[i].course_id);
            assert(w0[i].id < old_store.next_id);
            let c = choose|c: int|
                0 <= c < old_store.courses@.len() && (#[trigger] old_store.courses@[c]).id
                    == w0[i].course_id;
            assert(store.courses@[c].id == store.weeks@[i].course_id);
        }
        assert forall|a: int, b: int|
            #![trigger store.weeks@[a], store.weeks@[b]]
            0 <= a < b < store.weeks@.len() implies store.weeks@[a].id != store.weeks@[b].id by {
            assert(store.weeks@[a].id == w0[a].id && store.weeks@[b].id == w0[b].id);
            assert(w0[a].id != w0[b].id);
        }
        assert forall|i: int| 0 <= i < store.targets@.len() implies (#[trigger] store.targets@[i]).id
            < store.next_id && has_week(store.weeks@, store.targets@[i].week_id) by {
            assert(has_week(w0, store.targets@[i].week_id));
            let w = choose|w: int|
                0 <= w < w0.len() && (#[trigger] w0[w]).id == store.targets@[i].week_id;
            assert(store.weeks@[w].id == store.targets@[i].week_id);
        }
        assert(store.wf());
    }
    Ok(())
}

/// Relies on chrono's `Utc::now`, `date_naive` and `Datelike::num_days_from_ce`:
/// the current date as a day count from the first day of the common era,
/// which chrono returns as a 32-bit number.
#[verifier::external_body]
fn current_day_number() -> (r: i64)
    ensures
        -2_147_483_648 <= r <= 2_147_483_647,
{
    chrono::Datelike::num_days_from_ce(&chrono::Utc::now().date_naive()) as i64
}

/// Change a course's status, reading the clock for the `active` side
/// effect: incomplete weeks are scheduled starting at the Monday of the
/// current week. The clock is consulted only when the new status is
/// `active`, so a change to `draft`, `inactive` or `complete` of an
/// existing course always succeeds; an activation whose clock reading lies
/// outside the representable range of week dates is refused as a storage
/// error. The guarantees are otherwise those of `update_course_status` for
/// some day number read from the clock.
pub fn update_course_status_now(store: &mut Store, course_id: u64, status: String) -> (r: Result<
    (),
    StoreError,
>)
    requires
        old(store).wf(),
    ensures
        final(store).wf(),
        r is Err ==> *final(store) == *old(store),
        r == Err::<(), StoreError>(StoreError::InvalidArgument) <==> status_from_code(status@)
            is None,
        r == Err::<(), StoreError>(StoreError::NotFound) <==> (status_from_code(status@) is Some
            && !has_course(old(store).courses@, course_id)),
        r == Err::<(), StoreError>(StoreError::StorageError) ==> (status_from_code(status@) == Some(
            CourseStatus::Active,
        ) && has_course(old(store).courses@, course_id)),
        (status_from_code(status@) is Some && status_from_code(status@) != Some(
            CourseStatus::Active,
        ) && has_course(old(store).courses@, course_id)) ==> r is Ok,
        r is Ok ==> ({
            let st = status_from_code(status@)->Some_0;
            &&& final(store).departments == old(store).departments
            &&& final(store).targets == old(store).targets
            &&& final(store).next_id == old(store).next_id
            &&& final(store).courses@.len() == old(store).courses@.len()
            &&& forall|i: int|
                #![trigger final(store).courses@[i]]
                0 <= i < old(store).courses@.len() ==> if old(store).courses@[i].id == course_id {
                    final(store).courses@[i].status == st && final(store).courses@[i].id == old(
                        store,
                    ).courses@[i].id
                } else {
                    final(store).courses@[i] == old(store).courses@[i]
                }
            &&& st == CourseStatus::Active ==> exists|today: u32|
                1 <= today && dates_assigned(
                    old(store).weeks@,
                    final(store).weeks@,
                    course_id,
                    monday_on_or_before(today as int),
                )
            &&& st != CourseStatus::Active ==> final(store).weeks == old(store).weeks
        }),
{
    let st = match CourseStatus::parse(&status) {
        Some(st) => st,
        None => {
            return Err(StoreError::InvalidArgument);
        },
    };
    let is_active = match st {
        CourseStatus::Active => true,
        _ => false,
    };
    if !is_active {
        // No date side effect: the day number is irrelevant, any valid one
        // serves.
        let r = update_course_status(store, course_id, status, 1);
        proof {
            if r is Err && has_course(old(store).courses@, course_id) {
                let e = r->Err_0;
                assert(r == Err::<(), StoreError>(e));
                assert(e is NotFound || e is InvalidArgument || e is StorageError);
                assert(false);
            }
        }
        return r;
    }
    let t = current_day_number();
    if t < 1 || t > 0xFFFF_FFFFi64 {
        // the clock is outside the representable range of week dates
        match find_course_index(&store.courses, course_id) {
            Some(_) => Err(StoreError::StorageError),
            None => Err(StoreError::NotFound),
        }
    } else {
        let today: u32 = t as u32;
        let r = update_course_status(store, course_id, status, today);
        proof {
            if r is Ok {
                assert(1 <= today && dates_assigned(
                    old(store).weeks@,
                    store.weeks@,
                    course_id,
                    monday_on_or_before(today as int),
                ));
            }
        }
        r
    }
}

} // verus!
