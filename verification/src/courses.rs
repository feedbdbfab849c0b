//! Course creation: one atomic batch that upserts departments and inserts
//! course drafts with freshly generated serials.

use vstd::prelude::*;
use vstd::pervasive::unreached;
use vstd::multiset::Multiset;
use crate::store::{
    Store, CourseRow, WeekRow, dept_table_wf, course_table_wf, has_code, has_dept, has_course,
    has_week, find_dept_by_code, find_course_index, find_dept_index, course_with_id,
    lemma_course_with_id, clone_departments, clone_courses, clone_opt_string,
};
use crate::types::{
    Course, CourseDraft, CoursePreview, CourseStatus, Department, DepartmentDraft, StoreError,
    WeeksPreview,
};
use crate::departments::{upsert_all, upsert_departments, lemma_upsert_wf};
use crate::serial::{generate_course_serial, serial_taken};
use crate::schedule::{WeekFilter, weeks_exact_by, build_weeks};
use crate::order::{str_lt, str_less, lemma_str_lt_total, lemma_str_lt_trans};

verus! {


/// What batch creation guarantees of the `k`th inserted course row, at index
/// `base + k` of the course table: the draft's fields, status `draft`, a
/// department resolved by code, an id minted in order, and a serial that no
/// earlier course of the same department carries.
pub open spec fn created_course_ok(
    cs: Seq<CourseRow>,
    base: int,
    k: int,
    draft: CourseDraft,
    deps: Seq<Department>,
    first_id: u64,
) -> bool {
    let row = cs[base + k];
    &&& row.id == first_id + k
    &&& row.name == draft.name
    &&& row.description == draft.description
    &&& row.book == draft.book
    &&& row.prompt == draft.prompt
    &&& row.status == CourseStatus::Draft
    &&& exists|di: int|
        0 <= di < deps.len() && (#[trigger] deps[di]).code@ == draft.department@
            && row.department_id == deps[di].id
    &&& 100 <= row.serial <= 999_999_999_999_999_999
    &&& !serial_taken(cs.take(base + k), row.department_id, row.serial as int)
}

/// One atomic batch: upsert the department drafts, then insert every course
/// draft with a freshly generated serial and status `draft`. An unknown
/// department code on any course fails the whole batch with
/// `InvalidArgument` and leaves the store untouched, as does a saturated
/// serial space (`StorageError`).
pub fn create_courses(
    store: &mut Store,
    courses: Vec<CourseDraft>,
    departments: Vec<DepartmentDraft>,
) -> (r: Result<(), StoreError>)
    requires
        old(store).wf(),
        old(store).next_id + departments@.len() + courses@.len() <= u64::MAX,
    ensures
        final(store).wf(),
        r is Err ==> *final(store) == *old(store),
        r is Err ==> r == Err::<(), StoreError>(StoreError::InvalidArgument) || r == Err::<
            (),
            StoreError,
        >(StoreError::StorageError),
        r == Err::<(), StoreError>(StoreError::InvalidArgument) <==> exists|k: int|
            0 <= k < courses@.len() && !has_code(
                upsert_all(old(store).departments@, departments@, old(store).next_id).0,
                (#[trigger] courses@[k]).department@,
            ),
        r == Err::<(), StoreError>(StoreError::StorageError) ==> courses@.len() > 0,
        courses@.len() == 0 ==> r is Ok,
        r is Ok ==> ({
            let up = upsert_all(old(store).departments@, departments@, old(store).next_id);
            &&& final(store).departments@ == up.0
            &&& final(store).weeks == old(store).weeks
            &&& final(store).targets == old(store).targets
            &&& final(store).courses@.len() == old(store).courses@.len() + courses@.len()
            &&& forall|i: int|
                0 <= i < old(store).courses@.len() ==> #[trigger] final(store).courses@[i] == old(
                    store,
                ).courses@[i]
            &&& forall|k: int|
                #![trigger courses@[k]]
                0 <= k < courses@.len() ==> created_course_ok(
                    final(store).courses@,
                    old(store).courses@.len() as int,
                    k,
                    courses@[k],
                    up.0,
                    up.1,
                )
            &&& final(store).next_id == up.1 + courses@.len()
        }),
{
    let ghost old_store = *old(store);
    let ghost up = upsert_all(old(store).departments@, departments@, old(store).next_id);

    // Stage the upserted department table; the store itself is untouched
    // until the whole batch is known to succeed.
    let mut deps2 = clone_departments(&store.departments);
    let mut nid2: u64 = store.next_id;
    upsert_departments(&mut deps2, &mut nid2, &departments);
    proof {
        lemma_upsert_wf(old_store.departments@, departments@, old_store.next_id);
    }

    // Resolve every course draft's department code before touching anything.
    let mut k: usize = 0;
    while k < courses.len()
        invariant
            k <= courses@.len(),
            old_store == *old(store),
            old_store.wf(),
            *store == old_store,
            up == upsert_all(old_store.departments@, departments@, old_store.next_id),
            deps2@ == up.0,
            forall|k2: int|
                0 <= k2 < k ==> has_code(deps2@, (#[trigger] courses@[k2]).department@),
        decreases courses@.len() - k,
    {
        match find_dept_by_code(&deps2, &courses[k].department) {
            Some(_) => {},
            None => {
                return Err(StoreError::InvalidArgument);
            },
        }
        k = k + 1;
    }

    // Stage the course inserts, one serial per course, each fresh with
    // respect to everything staged before it.
    let mut crs2 = clone_courses(&store.courses);
    let mut cnid: u64 = nid2;
    let ghost base = old_store.courses@.len() as int;
    proof {
        assert forall|i: int| 0 <= i < crs2@.len() implies (#[trigger] crs2@[i]).id < cnid
            && has_dept(deps2@, crs2@[i].department_id) by {
            let di = choose|di: int|
                0 <= di < old_store.departments@.len() && (#[trigger] old_store.departments@[di]).id
                    == crs2@[i].department_id;
            assert(deps2@[di].id == crs2@[i].department_id);
        }
        assert(course_table_wf(crs2@, deps2@, cnid));
    }
    let mut k: usize = 0;
    while k < courses.len()
        invariant
            k <= courses@.len(),
            old_store == *old(store),
            *store == old_store,
            old_store.wf(),
            up == upsert_all(old_store.departments@, departments@, old_store.next_id),
            deps2@ == up.0,
            nid2 == up.1,
            dept_table_wf(deps2@, nid2),
            nid2 <= old_store.next_id + departments@.len(),
            old_store.next_id + departments@.len() + courses@.len() <= u64::MAX,
            forall|k2: int|
                0 <= k2 < courses@.len() ==> has_code(deps2@, (#[trigger] courses@[k2]).department@),
            base == old_store.courses@.len() as int,
            crs2@.len() == base + k,
            cnid == nid2 + k,
            forall|i: int| 0 <= i < base ==> #[trigger] crs2@[i] == old_store.courses@[i],
            forall|k2: int|
                #![trigger courses@[k2]]
                0 <= k2 < k ==> created_course_ok(crs2@, base, k2, courses@[k2], deps2@, nid2),
            course_table_wf(crs2@, deps2@, cnid),
        decreases courses@.len() - k,
    {
        let d = &courses[k];
        let di = match find_dept_by_code(&deps2, &d.department) {
            Some(di) => di,
            None => unreached(),
        };
        let dept_id = deps2[di].id;
        let serial = match generate_course_serial(&crs2, dept_id) {
            Ok(s) => s,
            Err(_) => {
                return Err(StoreError::StorageError);
            },
        };
        let ghost prev = crs2@;
        crs2.push(
            CourseRow {
                id: cnid,
                department_id: dept_id,
                serial: serial,
                name: d.name.clone(),
                description: clone_opt_string(&d.description),
                book: clone_opt_string(&d.book),
                prompt: clone_opt_string(&d.prompt),
                status: CourseStatus::Draft,
            },
        );
        cnid = cnid + 1;
        proof {
            assert(crs2@.take(base + k) =~= prev);
            assert(created_course_ok(crs2@, base, k as int, courses@[k as int], deps2@, nid2));
            assert forall|k2: int|
                #![trigger courses@[k2]]
                0 <= k2 < k + 1 implies created_course_ok(
                crs2@,
                base,
                k2,
                courses@[k2],
                deps2@,
                nid2,
            ) by {
                assert(crs2@.take(base + k2) =~= prev.take(base + k2));
            }
            assert forall|a: int, b: int|
                #![trigger crs2@[a], crs2@[b]]
                0 <= a < b < crs2@.len() implies crs2@[a].id != crs2@[b].id && !(crs2@[a].department_id
                == crs2@[b].department_id && crs2@[a].serial == crs2@[b].serial) by {
                if b == crs2@.len() - 1 {
                    if crs2@[a].department_id == dept_id && crs2@[a].serial == serial {
                        assert(serial_taken(prev, dept_id, serial as int));
                    }
                }
            }
            assert(course_table_wf(crs2@, deps2@, cnid));
        }
        k = k + 1;
    }

    // Commit the staged tables in one step.
    store.departments = deps2;
    store.courses = crs2;
    store.next_id = cnid;
    proof {
        assert(store.departments_wf());
        assert(store.courses_wf());
        assert forall|i: int| 0 <= i < store.weeks@.len() implies (#[trigger] store.weeks@[i]).id
            < store.next_id && has_course(store.courses@, store.weeks@[i].course_id) by {
            assert(old_store.weeks@[i].id < old_store.next_id);
            let c = choose|c: int|
                0 <= c < old_store.courses@.len() && (#[trigger] old_store.courses@[c]).id
                    == old_store.weeks@[i].course_id;
            assert(store.courses@[c].id == store.weeks@[i].course_id);
        }
        assert(store.weeks_wf());
        assert forall|i: int| 0 <= i < store.targets@.len() implies (#[trigger] store.targets@[i]).id
            < store.next_id && has_week(store.weeks@, store.targets@[i].week_id) by {
            assert(old_store.targets@[i].id < old_store.next_id);
        }
        assert(store.targets_wf());
    }
    Ok(())
}

/// What the course read returns on success: the header fields of the row
/// with the queried id, the owning department row, and exactly the
/// course's weeks in ascending (serial, id) order, each with its full
/// ordered target list.
pub open spec fn course_aggregate_ok(s: Store, course_id: u64, out: Course) -> bool {
    let c = course_with_id(s.courses@, course_id);
    &&& 0 <= c < s.courses@.len()
    &&& out.id == course_id
    &&& out.serial == s.courses@[c].serial
    &&& out.name == s.courses@[c].name
    &&& out.description == s.courses@[c].description
    &&& out.book == s.courses@[c].book
    &&& out.prompt == s.courses@[c].prompt
    &&& out.status == s.courses@[c].status
    &&& out.department.id == s.courses@[c].department_id
    &&& exists|d: int|
        0 <= d < s.departments@.len() && #[trigger] s.departments@[d] == out.department
    &&& weeks_exact_by(s.weeks@, s.targets@, WeekFilter { course_id, on: None }, out.weeks@)
}

/// The full course aggregate for one id: its header and department, and all
/// its weeks with their targets, both ordered by serial with the id as
/// tie-breaker. An unknown id fails with `NotFound`, and only then.
pub fn get_course(store: &Store, course_id: u64) -> (r: Result<Course, StoreError>)
    requires
        store.wf(),
    ensures
        r is Ok <==> has_course(store.courses@, course_id),
        r is Err ==> r == Err::<Course, StoreError>(StoreError::NotFound),
        r is Ok ==> course_aggregate_ok(*store, course_id, r->Ok_0),
{
    let ci = match find_course_index(&store.courses, course_id) {
        Some(ci) => ci,
        None => {
            return Err(StoreError::NotFound);
        },
    };
    let row = &store.courses[ci];
    let di = match find_dept_index(&store.departments, row.department_id) {
        Some(d) => d,
        None => unreached(),
    };
    let dept = store.departments[di].clone_row();
    let f = WeekFilter { course_id, on: None };
    let weeks = build_weeks(&store.weeks, &store.targets, &f);
    let out = Course {
        id: course_id,
        department: dept,
        serial: row.serial,
        name: row.name.clone(),
        description: clone_opt_string(&row.description),
        book: clone_opt_string(&row.book),
        prompt: clone_opt_string(&row.prompt),
        status: row.status,
        weeks,
    };
    proof {
        lemma_course_with_id(store.courses@, course_id);
        let c0 = course_with_id(store.courses@, course_id);
        assert(store.courses@[ci as int].id == course_id);
        assert(c0 != -1);
        assert(store.courses@[c0].id == course_id);
        assert(c0 == ci as int);
    }
    Ok(out)
}

/// How many weeks belong to this course.
pub open spec fn week_total(ws: Seq<WeekRow>, course_id: u64) -> int
    decreases ws.len(),
{
    if ws.len() == 0 {
        0
    } else {
        week_total(ws.drop_last(), course_id) + if ws.last().course_id == course_id {
            1int
        } else {
            0int
        }
    }
}

/// How many weeks of this course are complete.
pub open spec fn weeks_done(ws: Seq<WeekRow>, course_id: u64) -> int
    decreases ws.len(),
{
    if ws.len() == 0 {
        0
    } else {
        weeks_done(ws.drop_last(), course_id) + if ws.last().course_id == course_id
            && ws.last().is_complete {
            1int
        } else {
            0int
        }
    }
}

/// Week counts are bounded by the number of weeks.
pub proof fn lemma_week_counts(ws: Seq<WeekRow>, course_id: u64)
    ensures
        0 <= weeks_done(ws, course_id) <= week_total(ws, course_id) <= ws.len(),
    decreases ws.len(),
{
    if ws.len() > 0 {
        lemma_week_counts(ws.drop_last(), course_id);
    }
}

/// The total and completed week counts of one course.
fn count_course_weeks(ws: &Vec<WeekRow>, course_id: u64) -> (r: (u64, u64))
    ensures
        r.0 == week_total(ws@, course_id),
        r.1 == weeks_done(ws@, course_id),
{
    let mut total: u64 = 0;
    let mut done: u64 = 0;
    let mut i: usize = 0;
    while i < ws.len()
        invariant
            i <= ws@.len(),
            total == week_total(ws@.take(i as int), course_id),
            done == weeks_done(ws@.take(i as int), course_id),
            total <= i,
            done <= i,
        decreases ws@.len() - i,
    {
        proof {
            assert(ws@.take(i + 1).drop_last() =~= ws@.take(i as int));
            assert(ws@.take(i + 1).last() == ws@[i as int]);
            lemma_week_counts(ws@.take(i + 1), course_id);
        }
        if ws[i].course_id == course_id {
            total = total + 1;
            if ws[i].is_complete {
                done = done + 1;
            }
        }
        i = i + 1;
    }
    proof {
        assert(ws@.take(ws@.len() as int) =~= ws@);
    }
    (total, done)
}

/// What one course list entry guarantees: the fields of the course row with
/// its id, the owning department's code, and the course's week counts.
pub open spec fn preview_ok(s: Store, p: CoursePreview) -> bool {
    let c = course_with_id(s.courses@, p.id);
    &&& 0 <= c < s.courses@.len()
    &&& p.serial == s.courses@[c].serial
    &&& p.name == s.courses@[c].name
    &&& p.status == s.courses@[c].status
    &&& exists|d: int|
        0 <= d < s.departments@.len() && (#[trigger] s.departments@[d]).id
            == s.courses@[c].department_id && p.department == s.departments@[d].code
    &&& p.weeks.num_total == week_total(s.weeks@, p.id)
    &&& p.weeks.num_complete == weeks_done(s.weeks@, p.id)
}

/// The order of the course list: department code first, then the serial,
/// then the id as tie-breaker.
pub open spec fn preview_lt(a: CoursePreview, b: CoursePreview) -> bool {
    str_lt(a.department@, b.department@) || (a.department@ == b.department@ && (a.serial < b.serial
        || (a.serial == b.serial && a.id < b.id)))
}

/// The course list as a whole: one entry per course row, each correct for
/// its course, in strictly ascending (code, serial, id) order.
pub open spec fn course_listing(s: Store, out: Seq<CoursePreview>) -> bool {
    &&& out.len() == s.courses@.len()
    &&& forall|i: int| 0 <= i < out.len() ==> preview_ok(s, #[trigger] out[i])
    &&& forall|c: int|
        0 <= c < s.courses@.len() ==> exists|i: int|
            0 <= i < out.len() && out[i].id == (#[trigger] s.courses@[c]).id
    &&& forall|a: int, b: int|
        #![trigger out[a], out[b]]
        0 <= a < b < out.len() ==> preview_lt(out[a], out[b])
}

/// The order decides every pair of entries with distinct ids.
proof fn lemma_preview_lt_total(a: CoursePreview, b: CoursePreview)
    requires
        a.id != b.id,
    ensures
        preview_lt(a, b) || preview_lt(b, a),
{
    lemma_str_lt_total(a.department@, b.department@);
}

/// The order is transitive.
proof fn lemma_preview_lt_trans(a: CoursePreview, b: CoursePreview, c: CoursePreview)
    requires
        preview_lt(a, b),
        preview_lt(b, c),
    ensures
        preview_lt(a, c),
{
    if str_lt(a.department@, b.department@) && str_lt(b.department@, c.department@) {
        lemma_str_lt_trans(a.department@, b.department@, c.department@);
    }
}

/// Whether `a` orders strictly before `b` in the course list.
fn preview_less(a: &CoursePreview, b: &CoursePreview) -> (r: bool)
    ensures
        r == preview_lt(*a, *b),
{
    if str_less(a.department.as_str(), b.department.as_str()) {
        return true;
    }
    if a.department == b.department {
        if a.serial < b.serial {
            true
        } else if a.serial == b.serial {
            a.id < b.id
        } else {
            false
        }
    } else {
        false
    }
}

/// Pairwise distinct entry ids.
pub open spec fn previews_distinct(s: Seq<CoursePreview>) -> bool {
    forall|i: int, j: int|
        #![trigger s[i], s[j]]
        0 <= i < j < s.len() ==> s[i].id != s[j].id
}

/// Sort course list entries into strictly ascending (code, serial, id)
/// order. The result holds exactly the given entries; ids must be pairwise
/// distinct, which makes the order strict and the result unique.
#[verifier::rlimit(100)]
#[verifier::spinoff_prover]
fn sort_previews(v: Vec<CoursePreview>) -> (r: Vec<CoursePreview>)
    requires
        previews_distinct(v@),
    ensures
        r@.len() == v@.len(),
        forall|x: CoursePreview| r@.contains(x) <==> v@.contains(x),
        forall|a: int, b: int|
            #![trigger r@[a], r@[b]]
            0 <= a < b < r@.len() ==> preview_lt(r@[a], r@[b]),
{
    broadcast use vstd::seq_lib::group_to_multiset_ensures;

    let ghost v0 = v@;
    let mut rem = v;
    let mut out: Vec<CoursePreview> = Vec::new();
    while rem.len() > 0
        invariant
            out@.to_multiset().add(rem@.to_multiset()) =~= v0.to_multiset(),
            out@.len() + rem@.len() == v0.len(),
            previews_distinct(rem@),
            forall|a: int, b: int|
                #![trigger out@[a], out@[b]]
                0 <= a < b < out@.len() ==> preview_lt(out@[a], out@[b]),
            forall|i: int, j: int|
                #![trigger out@[i], rem@[j]]
                0 <= i < out@.len() && 0 <= j < rem@.len() ==> preview_lt(out@[i], rem@[j]),
        decreases rem@.len(),
    {
        let mut m: usize = 0;
        let mut j: usize = 1;
        while j < rem.len()
            invariant
                m < j <= rem@.len(),
                rem@.len() > 0,
                previews_distinct(rem@),
                forall|k: int|
                    0 <= k < j && k != m ==> preview_lt(rem@[m as int], #[trigger] rem@[k]),
            decreases rem@.len() - j,
        {
            if preview_less(&rem[j], &rem[m]) {
                proof {
                    assert forall|k: int| 0 <= k < j && k != j implies preview_lt(
                        rem@[j as int],
                        #[trigger] rem@[k],
                    ) by {
                        if k != m {
                            lemma_preview_lt_trans(rem@[j as int], rem@[m as int], rem@[k]);
                        }
                    }
                }
                m = j;
            } else {
                proof {
                    lemma_preview_lt_total(rem@[m as int], rem@[j as int]);
                }
            }
            j = j + 1;
        }
        let ghost old_rem = rem@;
        let ghost old_out = out@;
        let x = rem.remove(m);
        out.push(x);
        proof {
            broadcast use vstd::seq_lib::group_to_multiset_ensures;

            assert(out@.to_multiset() =~= old_out.to_multiset().insert(x));
            assert(rem@.to_multiset() =~= old_rem.to_multiset().remove(x));
            assert(old_rem.to_multiset().count(x) > 0);
            assert(out@.to_multiset().add(rem@.to_multiset()) =~= old_out.to_multiset().add(
                old_rem.to_multiset(),
            ));
            old_rem.remove_ensures(m as int);
            assert(previews_distinct(rem@));
            assert forall|i: int, j2: int|
                #![trigger out@[i], rem@[j2]]
                0 <= i < out@.len() && 0 <= j2 < rem@.len() implies preview_lt(
                out@[i],
                rem@[j2],
            ) by {
                if i < out@.len() - 1 {
                    assert(old_out[i] == out@[i]);
                }
            }
        }
    }
    proof {
        assert(rem@.to_multiset() =~= Multiset::<CoursePreview>::empty());
        assert(out@.to_multiset().add(Multiset::<CoursePreview>::empty()) =~= out@.to_multiset());
        assert forall|x: CoursePreview| out@.contains(x) <==> v0.contains(x) by {
            assert(out@.contains(x) <==> out@.to_multiset().count(x) > 0);
            assert(v0.contains(x) <==> v0.to_multiset().count(x) > 0);
        }
    }
    out
}

/// The course list: one entry per course, holding the row's fields, its
/// department's code and its week completion counts, sorted by department
/// code, then serial, then id.
#[verifier::rlimit(100)]
#[verifier::spinoff_prover]
pub fn get_courses(store: &Store) -> (r: Vec<CoursePreview>)
    requires
        store.wf(),
    ensures
        course_listing(*store, r@),
{
    let mut v: Vec<CoursePreview> = Vec::new();
    let mut c: usize = 0;
    while c < store.courses.len()
        invariant
            store.wf(),
            c <= store.courses@.len(),
            v@.len() == c,
            forall|k: int|
                0 <= k < c ==> (#[trigger] v@[k]).id == store.courses@[k].id && preview_ok(
                    *store,
                    v@[k],
                ),
        decreases store.courses@.len() - c,
    {
        let row = &store.courses[c];
        let di = match find_dept_index(&store.departments, row.department_id) {
            Some(d) => d,
            None => unreached(),
        };
        let counts = count_course_weeks(&store.weeks, row.id);
        v.push(
            CoursePreview {
                id: row.id,
                department: store.departments[di].code.clone(),
                serial: row.serial,
                name: row.name.clone(),
                status: row.status,
                weeks: WeeksPreview { num_complete: counts.1, num_total: counts.0 },
            },
        );
        proof {
            lemma_course_with_id(store.courses@, store.courses@[c as int].id);
            let c0 = course_with_id(store.courses@, store.courses@[c as int].id);
            assert(c0 != -1);
            assert(store.courses@[c0].id == store.courses@[c as int].id);
            assert(c0 == c as int);
            assert(preview_ok(*store, v@[c as int]));
        }
        c = c + 1;
    }
    let ghost vv = v@;
    proof {
        assert forall|a: int, b: int|
            #![trigger vv[a], vv[b]]
            0 <= a < b < vv.len() implies vv[a].id != vv[b].id by {
            assert(store.courses@[a].id != store.courses@[b].id);
        }
    }
    let r = sort_previews(v);
    proof {
        assert forall|i: int| 0 <= i < r@.len() implies preview_ok(*store, #[trigger] r@[i]) by {
            assert(r@.contains(r@[i]));
            assert(vv.contains(r@[i]));
            let k = choose|k: int| 0 <= k < vv.len() && vv[k] == r@[i];
            assert(preview_ok(*store, vv[k]));
        }
        assert forall|c2: int| 0 <= c2 < store.courses@.len() implies exists|i: int|
            0 <= i < r@.len() && r@[i].id == (#[trigger] store.courses@[c2]).id by {
            assert(vv[c2].id == store.courses@[c2].id);
            assert(vv.contains(vv[c2]));
            assert(r@.contains(vv[c2]));
            let i = choose|i: int| 0 <= i < r@.len() && r@[i] == vv[c2];
            assert(0 <= i < r@.len() && r@[i].id == store.courses@[c2].id);
        }
        assert(course_listing(*store, r@));
    }
    r
}

} // verus!
