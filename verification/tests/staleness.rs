use class_days::cache::{is_stale, update, DeptRecord, GlobalStamps};

fn globals(days: u64, holidays: u64, central_notices: u64) -> GlobalStamps {
    GlobalStamps { days, holidays, central_notices }
}

#[test]
fn unchanged_stamps_are_fresh() {
    let stored = globals(10, 20, 30);
    let rec = DeptRecord { semester: 1, notices: Some(2) };
    assert!(!is_stale(Some(rec), stored, 1, Some(2), globals(10, 20, 30)));
}

#[test]
fn changing_any_single_stamp_is_stale() {
    let stored = globals(10, 20, 30);
    let rec = DeptRecord { semester: 1, notices: Some(2) };
    assert!(is_stale(Some(rec), stored, 9, Some(2), globals(10, 20, 30)));
    assert!(is_stale(Some(rec), stored, 1, Some(9), globals(10, 20, 30)));
    assert!(is_stale(Some(rec), stored, 1, Some(2), globals(9, 20, 30)));
    assert!(is_stale(Some(rec), stored, 1, Some(2), globals(10, 9, 30)));
    assert!(is_stale(Some(rec), stored, 1, Some(2), globals(10, 20, 9)));
}

#[test]
fn notices_file_appearing_or_vanishing_is_stale() {
    let stored = globals(10, 20, 30);
    let had_none = DeptRecord { semester: 1, notices: None };
    let had_some = DeptRecord { semester: 1, notices: Some(2) };
    assert!(is_stale(Some(had_none), stored, 1, Some(2), globals(10, 20, 30)));
    assert!(is_stale(Some(had_some), stored, 1, None, globals(10, 20, 30)));
    assert!(!is_stale(Some(had_none), stored, 1, None, globals(10, 20, 30)));
}

#[test]
fn missing_record_is_always_stale() {
    let stored = globals(10, 20, 30);
    assert!(is_stale(None, stored, 1, Some(2), globals(10, 20, 30)));
}

#[test]
fn update_makes_the_department_fresh() {
    let cur = globals(11, 21, 31);
    let (rec, stored) = update(5, None, cur);
    assert_eq!(rec.semester, 5);
    assert_eq!(rec.notices, None);
    assert!(!is_stale(Some(rec), stored, 5, None, cur));
}
