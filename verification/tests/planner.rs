use mnemona::store::Store;
use mnemona::types::{CourseDraft, CourseContentDraft, CourseStatus, DepartmentDraft, StoreError,
    TargetDraft, WeekDraft};
use mnemona::courses::{create_courses, get_course, get_courses};
use mnemona::content::update_course;
use mnemona::status::{update_course_status, update_course_status_now};
use mnemona::departments::get_departments;
use mnemona::schedule::get_schedule;
use mnemona::serial::generate_course_serial;
use mnemona::weeks::change_week_status;
use mnemona::targets::change_target_status;

fn dept(code: &str, name: &str) -> DepartmentDraft {
    DepartmentDraft { code: code.to_string(), name: name.to_string() }
}

fn course(code: &str, name: &str) -> CourseDraft {
    CourseDraft {
        department: code.to_string(),
        name: name.to_string(),
        description: None,
        book: None,
        prompt: None,
    }
}

#[test]
fn first_serial_is_three_digits() {
    let mut s = Store::new();
    let r = create_courses(&mut s, vec![course("CS", "Algorithms")], vec![dept("CS", "Computer Science")]);
    assert!(r.is_ok());
    assert_eq!(s.courses.len(), 1);
    assert!(s.courses[0].serial >= 100 && s.courses[0].serial <= 999);
    assert!(matches!(s.courses[0].status, CourseStatus::Draft));
}

#[test]
fn serial_widens_after_nine_hundred() {
    let mut s = Store::new();
    let r = create_courses(&mut s, vec![], vec![dept("CS", "Computer Science")]);
    assert!(r.is_ok());
    let dept_id = s.departments[0].id;
    // fill the whole three-digit range synthetically
    for serial in 100..1000 {
        s.courses.push(mnemona::store::CourseRow {
            id: s.next_id,
            department_id: dept_id,
            serial,
            name: format!("c{}", serial),
            description: None,
            book: None,
            prompt: None,
            status: CourseStatus::Draft,
        });
        s.next_id += 1;
    }
    let got = generate_course_serial(&s.courses, dept_id).unwrap();
    assert!(got >= 1000 && got <= 9999);
}

#[test]
fn serials_never_collide() {
    let mut s = Store::new();
    let drafts: Vec<CourseDraft> = (0..50).map(|i| course("CS", &format!("c{}", i))).collect();
    let r = create_courses(&mut s, drafts, vec![dept("CS", "Computer Science")]);
    assert!(r.is_ok());
    assert_eq!(s.courses.len(), 50);
    for i in 0..s.courses.len() {
        for j in 0..i {
            assert!(s.courses[i].serial != s.courses[j].serial);
        }
    }
}

#[test]
fn department_upsert_is_idempotent() {
    let mut s = Store::new();
    create_courses(&mut s, vec![], vec![dept("CS", "Old Name")]).unwrap();
    assert_eq!(s.departments.len(), 1);
    let id0 = s.departments[0].id;
    create_courses(&mut s, vec![], vec![dept("CS", "New Name")]).unwrap();
    assert_eq!(s.departments.len(), 1);
    assert_eq!(s.departments[0].id, id0);
    assert_eq!(s.departments[0].name, "New Name");
}

#[test]
fn unknown_department_fails_whole_batch() {
    let mut s = Store::new();
    let r = create_courses(
        &mut s,
        vec![course("CS", "Algorithms"), course("XX", "Ghost")],
        vec![dept("CS", "Computer Science")],
    );
    assert_eq!(r, Err(StoreError::InvalidArgument));
    assert_eq!(s.departments.len(), 0);
    assert_eq!(s.courses.len(), 0);
}

fn content(weeks: Vec<WeekDraft>) -> CourseContentDraft {
    CourseContentDraft {
        name: "n".to_string(),
        description: Some("d".to_string()),
        book: None,
        prompt: None,
        weeks,
    }
}

fn week(serial: i64, text: &str, targets: Vec<TargetDraft>) -> WeekDraft {
    WeekDraft { serial, text: text.to_string(), targets }
}

fn target(serial: i64, text: &str) -> TargetDraft {
    TargetDraft { serial, text: text.to_string(), source: "s".to_string() }
}

#[test]
fn content_update_fully_replaces_weeks() {
    let mut s = Store::new();
    create_courses(&mut s, vec![course("CS", "Algorithms")], vec![dept("CS", "CS")]).unwrap();
    let cid = s.courses[0].id;
    update_course(&mut s, cid, content(vec![week(1, "one", vec![target(1, "t1")])])).unwrap();
    assert_eq!(s.weeks.len(), 1);
    assert_eq!(s.targets.len(), 1);
    update_course(&mut s, cid, content(vec![week(2, "two", vec![]), week(3, "three", vec![])]))
        .unwrap();
    assert_eq!(s.weeks.len(), 2);
    assert_eq!(s.targets.len(), 0);
    assert_eq!(s.weeks[0].text, "two");
    assert_eq!(s.weeks[1].text, "three");
    assert_eq!(s.courses[0].name, "n");
    assert_eq!(s.courses[0].description.as_deref(), Some("d"));
}

#[test]
fn content_update_unknown_course_is_not_found() {
    let mut s = Store::new();
    let r = update_course(&mut s, 77, content(vec![]));
    assert_eq!(r, Err(StoreError::NotFound));
}

#[test]
fn activation_assigns_consecutive_mondays() {
    let mut s = Store::new();
    create_courses(&mut s, vec![course("CS", "Algorithms")], vec![dept("CS", "CS")]).unwrap();
    let cid = s.courses[0].id;
    update_course(
        &mut s,
        cid,
        content(vec![week(2, "late", vec![]), week(1, "early", vec![])]),
    )
    .unwrap();
    // mark the week with serial 2 complete and give it a date by hand
    let w2 = s.weeks.iter().position(|w| w.serial == 2).unwrap();
    let w2_id = s.weeks[w2].id;
    change_week_status(&mut s, w2_id, true);
    // day 18 is a Thursday; its Monday is day 15
    let today: u32 = 18;
    update_course_status(&mut s, cid, "active".to_string(), today).unwrap();
    assert!(matches!(s.courses[0].status, CourseStatus::Active));
    let w1 = s.weeks.iter().position(|w| w.serial == 1).unwrap();
    assert_eq!(s.weeks[w1].date, Some(15));
    // the completed week keeps its date untouched
    let w2 = s.weeks.iter().position(|w| w.serial == 2).unwrap();
    assert_eq!(s.weeks[w2].date, None);
}

#[test]
fn invalid_status_is_rejected() {
    let mut s = Store::new();
    create_courses(&mut s, vec![course("CS", "Algorithms")], vec![dept("CS", "CS")]).unwrap();
    let cid = s.courses[0].id;
    let r = update_course_status(&mut s, cid, "paused".to_string(), 18);
    assert_eq!(r, Err(StoreError::InvalidArgument));
    let r = update_course_status(&mut s, 999, "draft".to_string(), 18);
    assert_eq!(r, Err(StoreError::NotFound));
    update_course_status(&mut s, cid, "inactive".to_string(), 18).unwrap();
    assert!(matches!(s.courses[0].status, CourseStatus::Inactive));
}

#[test]
fn status_codes_round_trip() {
    for (st, code) in [
        (CourseStatus::Draft, "draft"),
        (CourseStatus::Inactive, "inactive"),
        (CourseStatus::Active, "active"),
        (CourseStatus::Complete, "complete"),
    ] {
        assert_eq!(st.encode(), code);
        assert_eq!(CourseStatus::parse(&code.to_string()), Some(st));
    }
    assert_eq!(CourseStatus::parse(&"Active".to_string()), None);
}

#[test]
fn toggles_touch_only_their_row() {
    let mut s = Store::new();
    create_courses(&mut s, vec![course("CS", "Algorithms")], vec![dept("CS", "CS")]).unwrap();
    let cid = s.courses[0].id;
    update_course(&mut s, cid, content(vec![week(1, "w", vec![target(1, "a"), target(2, "b")])]))
        .unwrap();
    let t0 = s.targets[0].id;
    change_target_status(&mut s, t0, true);
    assert!(s.targets[0].is_complete);
    assert!(!s.targets[1].is_complete);
    assert!(!s.weeks[0].is_complete);
    let w0 = s.weeks[0].id;
    change_week_status(&mut s, w0, true);
    assert!(s.weeks[0].is_complete);
    assert!(s.targets[0].is_complete && !s.targets[1].is_complete);
}

#[test]
fn departments_listing_matches_table() {
    let mut s = Store::new();
    create_courses(&mut s, vec![], vec![dept("CS", "Computer Science"), dept("MA", "Maths")])
        .unwrap();
    let list = get_departments(&s);
    assert_eq!(list.len(), 2);
    assert_eq!(list[0].code, "CS");
    assert_eq!(list[1].name, "Maths");
}

#[test]
fn departments_listing_is_sorted_by_code() {
    let mut s = Store::new();
    create_courses(&mut s, vec![], vec![dept("MA", "Maths"), dept("CS", "Computer Science")])
        .unwrap();
    let list = get_departments(&s);
    assert_eq!(list.len(), 2);
    assert_eq!(list[0].code, "CS");
    assert_eq!(list[0].name, "Computer Science");
    assert_eq!(list[1].code, "MA");
}

#[test]
fn code_prefix_orders_before_extension() {
    let mut s = Store::new();
    create_courses(&mut s, vec![], vec![dept("CSX", "Extended"), dept("CS", "Core")]).unwrap();
    let list = get_departments(&s);
    assert_eq!(list[0].code, "CS");
    assert_eq!(list[1].code, "CSX");
}

#[test]
fn empty_batch_always_succeeds() {
    let mut s = Store::new();
    assert_eq!(create_courses(&mut s, vec![], vec![]), Ok(()));
    assert_eq!(create_courses(&mut s, vec![], vec![dept("CS", "CS")]), Ok(()));
    assert_eq!(create_courses(&mut s, vec![], vec![dept("CS", "CS")]), Ok(()));
    assert_eq!(s.departments.len(), 1);
}

#[test]
fn nonactive_status_change_reads_no_clock() {
    let mut s = Store::new();
    create_courses(&mut s, vec![course("CS", "Algorithms")], vec![dept("CS", "CS")]).unwrap();
    let cid = s.courses[0].id;
    assert_eq!(update_course_status_now(&mut s, cid, "inactive".to_string()), Ok(()));
    assert!(matches!(s.courses[0].status, CourseStatus::Inactive));
    assert_eq!(
        update_course_status_now(&mut s, 999, "draft".to_string()),
        Err(StoreError::NotFound)
    );
}

#[test]
fn schedule_hides_unfinished_weeks_of_inactive_courses() {
    let mut s = Store::new();
    create_courses(&mut s, vec![course("CS", "Algorithms")], vec![dept("CS", "CS")]).unwrap();
    let cid = s.courses[0].id;
    update_course(&mut s, cid, content(vec![week(1, "one", vec![]), week(2, "two", vec![])]))
        .unwrap();
    // day 18 is a Thursday; activation dates the weeks on Mondays 15 and 22
    update_course_status(&mut s, cid, "active".to_string(), 18).unwrap();
    let items = get_schedule(&s, 15);
    assert_eq!(items.len(), 1);
    assert_eq!(items[0].weeks.len(), 1);
    assert_eq!(items[0].weeks[0].text, "one");
    // deactivating hides the unfinished week on that day
    update_course_status(&mut s, cid, "inactive".to_string(), 18).unwrap();
    assert_eq!(get_schedule(&s, 15).len(), 0);
    // the same week, once complete, is shown again
    let w1 = s.weeks.iter().position(|w| w.serial == 1).unwrap();
    let w1_id = s.weeks[w1].id;
    change_week_status(&mut s, w1_id, true);
    let items = get_schedule(&s, 15);
    assert_eq!(items.len(), 1);
    assert_eq!(items[0].course.id, cid);
    assert_eq!(items[0].weeks[0].is_complete, true);
}

#[test]
fn schedule_groups_weeks_under_their_course() {
    let mut s = Store::new();
    create_courses(
        &mut s,
        vec![course("MA", "Analysis"), course("CS", "Algorithms")],
        vec![dept("CS", "CS"), dept("MA", "Maths")],
    )
    .unwrap();
    let ma = s.courses[0].id;
    let cs = s.courses[1].id;
    update_course(&mut s, ma, content(vec![week(1, "ma-week", vec![target(1, "read")])]))
        .unwrap();
    update_course(&mut s, cs, content(vec![week(1, "cs-week", vec![])])).unwrap();
    update_course_status(&mut s, ma, "active".to_string(), 18).unwrap();
    update_course_status(&mut s, cs, "active".to_string(), 18).unwrap();
    let items = get_schedule(&s, 15);
    assert_eq!(items.len(), 2);
    for item in &items {
        assert_eq!(item.weeks.len(), 1);
        if item.course.id == ma {
            assert_eq!(item.course.department, "MA");
            assert_eq!(item.weeks[0].text, "ma-week");
            assert_eq!(item.weeks[0].targets.len(), 1);
            assert_eq!(item.weeks[0].targets[0].text, "read");
        } else {
            assert_eq!(item.course.id, cs);
            assert_eq!(item.course.department, "CS");
            assert_eq!(item.weeks[0].targets.len(), 0);
        }
    }
    // a day with nothing scheduled yields an empty schedule
    assert_eq!(get_schedule(&s, 16).len(), 0);
}

#[test]
fn course_aggregate_lists_weeks_in_serial_order() {
    let mut s = Store::new();
    create_courses(&mut s, vec![course("CS", "Algorithms")], vec![dept("CS", "CS")]).unwrap();
    let cid = s.courses[0].id;
    update_course(
        &mut s,
        cid,
        content(vec![
            week(2, "late", vec![target(2, "b"), target(1, "a")]),
            week(1, "early", vec![]),
        ]),
    )
    .unwrap();
    let c = get_course(&s, cid).unwrap();
    assert_eq!(c.id, cid);
    assert_eq!(c.department.code, "CS");
    assert_eq!(c.name, "n");
    assert_eq!(c.weeks.len(), 2);
    assert_eq!(c.weeks[0].serial, 1);
    assert_eq!(c.weeks[0].text, "early");
    assert_eq!(c.weeks[1].serial, 2);
    assert_eq!(c.weeks[1].targets.len(), 2);
    assert_eq!(c.weeks[1].targets[0].text, "a");
    assert_eq!(c.weeks[1].targets[1].text, "b");
    assert!(matches!(get_course(&s, 424242), Err(StoreError::NotFound)));
}

#[test]
fn course_list_carries_counts_and_order() {
    let mut s = Store::new();
    create_courses(
        &mut s,
        vec![course("MA", "Analysis"), course("CS", "Algorithms")],
        vec![dept("CS", "CS"), dept("MA", "Maths")],
    )
    .unwrap();
    let cs = s.courses[1].id;
    update_course(&mut s, cs, content(vec![week(1, "a", vec![]), week(2, "b", vec![])]))
        .unwrap();
    let w = s.weeks[0].id;
    change_week_status(&mut s, w, true);
    let list = get_courses(&s);
    assert_eq!(list.len(), 2);
    assert_eq!(list[0].department, "CS");
    assert_eq!(list[0].id, cs);
    assert_eq!(list[0].weeks.num_total, 2);
    assert_eq!(list[0].weeks.num_complete, 1);
    assert_eq!(list[1].department, "MA");
    assert_eq!(list[1].weeks.num_total, 0);
}
