use lending_library::lending::parse_timestamp;
use lending_library::model::{BookStatus, LendingStatus, LibraryError};
use lending_library::stats::DAY_MILLIS;
use lending_library::store::Library;

const NOW: i64 = 1_700_000_000_000;

fn lifecycle_store(quantity: i32) -> Library {
    let mut lib = Library::new();
    lib.create_book_with_id("b1".to_string(), "Dune", "Herbert", quantity, "isbn-1", "scifi", NOW)
        .unwrap();
    lib.create_student_with_id("s1".to_string(), "Ann", "5", None, "S-001", NOW).unwrap();
    lib.create_student_with_id("s2".to_string(), "Bob", "6", Some("555"), "S-002", NOW).unwrap();
    lib
}

#[test]
fn checkout_then_second_checkout_refused() {
    let mut lib = lifecycle_store(1);
    let due = NOW + 7 * DAY_MILLIS;
    assert_eq!(lib.create_lending_with_id("l1".to_string(), "b1", "s1", due, NOW), Ok(()));
    assert_eq!(lib.books[0].quantity, 0);
    assert_eq!(lib.books[0].status, BookStatus::Unavailable);
    assert_eq!(lib.lendings.len(), 1);
    assert_eq!(lib.lendings[0].status, LendingStatus::Lent);
    assert_eq!(lib.lendings[0].due_date, due);
    assert_eq!(lib.lendings[0].returned_at, None);

    let r = lib.create_lending_with_id("l2".to_string(), "b1", "s1", NOW + 3 * DAY_MILLIS, NOW);
    assert_eq!(r, Err(LibraryError::ConstraintViolation));
    assert_eq!(lib.books[0].quantity, 0);
    assert_eq!(lib.books[0].status, BookStatus::Unavailable);
    assert_eq!(lib.lendings.len(), 1);
}

#[test]
fn return_restores_book() {
    let mut lib = lifecycle_store(1);
    lib.create_lending_with_id("l1".to_string(), "b1", "s1", NOW + 7 * DAY_MILLIS, NOW).unwrap();
    let back = NOW + DAY_MILLIS;
    assert_eq!(lib.return_lending_at("l1", back), Ok(()));
    assert_eq!(lib.books[0].quantity, 1);
    assert_eq!(lib.books[0].status, BookStatus::Available);
    assert_eq!(lib.lendings[0].status, LendingStatus::Returned);
    assert_eq!(lib.lendings[0].returned_at, Some(back));
}

#[test]
fn checkout_keeps_status_in_step_with_quantity() {
    let mut lib = lifecycle_store(2);
    lib.create_lending_with_id("l1".to_string(), "b1", "s1", NOW, NOW).unwrap();
    assert_eq!(lib.books[0].quantity, 1);
    assert_eq!(lib.books[0].status, BookStatus::Available);
    lib.create_lending_with_id("l2".to_string(), "b1", "s2", NOW, NOW).unwrap();
    assert_eq!(lib.books[0].quantity, 0);
    assert_eq!(lib.books[0].status, BookStatus::Unavailable);
}

#[test]
fn borrower_may_borrow_again_after_return() {
    let mut lib = lifecycle_store(3);
    lib.create_lending_with_id("l1".to_string(), "b1", "s1", NOW, NOW).unwrap();
    lib.return_lending_at("l1", NOW).unwrap();
    assert_eq!(lib.create_lending_with_id("l2".to_string(), "b1", "s1", NOW, NOW), Ok(()));
    assert!(lib.has_active_loan("s1"));
    assert!(!lib.has_active_loan("s2"));
}

#[test]
fn checkout_return_round_trip_restores_quantity() {
    let mut lib = lifecycle_store(4);
    lib.create_lending_with_id("l1".to_string(), "b1", "s1", NOW, NOW).unwrap();
    assert_eq!(lib.books[0].quantity, 3);
    lib.return_lending_at("l1", NOW + 5).unwrap();
    assert_eq!(lib.books[0].quantity, 4);
    assert_eq!(lib.books[0].status, BookStatus::Available);
}

#[test]
fn checkout_unknown_book_is_not_found() {
    let mut lib = lifecycle_store(1);
    let r = lib.create_lending_with_id("l1".to_string(), "nope", "s1", NOW, NOW);
    assert_eq!(r, Err(LibraryError::NotFound));
    assert!(lib.lendings.is_empty());
    assert_eq!(lib.books[0].quantity, 1);
}

#[test]
fn checkout_does_not_look_up_the_borrower() {
    let mut lib = lifecycle_store(1);
    let r = lib.create_lending_with_id("l1".to_string(), "b1", "nobody", NOW, NOW);
    assert_eq!(r, Ok(()));
    assert_eq!(lib.lendings[0].student_id, "nobody");
    assert_eq!(lib.books[0].quantity, 0);
}

#[test]
fn active_loan_is_refused_before_unknown_book() {
    let mut lib = lifecycle_store(2);
    lib.create_lending_with_id("l1".to_string(), "b1", "s1", NOW, NOW).unwrap();
    let r = lib.create_lending_with_id("l2".to_string(), "nope", "s1", NOW, NOW);
    assert_eq!(r, Err(LibraryError::ConstraintViolation));
    assert_eq!(lib.lendings.len(), 1);
    assert_eq!(lib.books[0].quantity, 1);
}

#[test]
fn checkout_at_lowest_quantity_is_invalid_input() {
    let mut lib = lifecycle_store(i32::MIN);
    let r = lib.create_lending_with_id("l1".to_string(), "b1", "s1", NOW, NOW);
    assert_eq!(r, Err(LibraryError::InvalidInput));
    assert!(lib.lendings.is_empty());
    assert_eq!(lib.books[0].quantity, i32::MIN);
}

#[test]
fn checkout_with_taken_id_is_storage_failure() {
    let mut lib = lifecycle_store(5);
    lib.create_lending_with_id("l1".to_string(), "b1", "s1", NOW, NOW).unwrap();
    let r = lib.create_lending_with_id("l1".to_string(), "b1", "s2", NOW, NOW);
    assert_eq!(r, Err(LibraryError::StorageFailure));
    assert_eq!(lib.lendings.len(), 1);
    assert_eq!(lib.books[0].quantity, 4);
}

#[test]
fn checkout_of_empty_shelf_goes_below_zero() {
    let mut lib = lifecycle_store(0);
    assert_eq!(lib.create_lending_with_id("l1".to_string(), "b1", "s1", NOW, NOW), Ok(()));
    assert_eq!(lib.books[0].quantity, -1);
    assert_eq!(lib.books[0].status, BookStatus::Unavailable);
}

#[test]
fn return_twice_is_invalid_state() {
    let mut lib = lifecycle_store(1);
    lib.create_lending_with_id("l1".to_string(), "b1", "s1", NOW, NOW).unwrap();
    lib.return_lending_at("l1", NOW + 1).unwrap();
    assert_eq!(lib.return_lending_at("l1", NOW + 2), Err(LibraryError::InvalidState));
    assert_eq!(lib.books[0].quantity, 1);
    assert_eq!(lib.lendings[0].returned_at, Some(NOW + 1));
}

#[test]
fn return_unknown_loan_is_not_found() {
    let mut lib = lifecycle_store(1);
    assert_eq!(lib.return_lending_at("missing", NOW), Err(LibraryError::NotFound));
}

#[test]
fn return_at_highest_quantity_is_invalid_input() {
    let mut lib = lifecycle_store(1);
    lib.create_lending_with_id("l1".to_string(), "b1", "s1", NOW, NOW).unwrap();
    lib.update_book("b1", "Dune", "Herbert", i32::MAX, "isbn-1", "scifi", BookStatus::Available)
        .unwrap();
    assert_eq!(lib.return_lending_at("l1", NOW), Err(LibraryError::InvalidInput));
    assert_eq!(lib.lendings[0].status, LendingStatus::Lent);
}

#[test]
fn return_after_book_deleted_closes_loan_only() {
    let mut lib = lifecycle_store(1);
    lib.create_lending_with_id("l1".to_string(), "b1", "s1", NOW, NOW).unwrap();
    lib.delete_book("b1").unwrap();
    assert_eq!(lib.return_lending_at("l1", NOW + 9), Ok(()));
    assert_eq!(lib.lendings[0].status, LendingStatus::Returned);
    assert!(lib.books.is_empty());
}

#[test]
fn delete_lending_does_not_touch_shelf() {
    let mut lib = lifecycle_store(2);
    lib.create_lending_with_id("l1".to_string(), "b1", "s1", NOW, NOW).unwrap();
    assert_eq!(lib.delete_lending("l1"), Ok(()));
    assert!(lib.lendings.is_empty());
    assert_eq!(lib.books[0].quantity, 1);
    assert_eq!(lib.delete_lending("l1"), Ok(()));
}

#[test]
fn update_lending_overwrites_fields_only() {
    let mut lib = lifecycle_store(2);
    lib.create_lending_with_id("l1".to_string(), "b1", "s1", NOW, NOW).unwrap();
    assert_eq!(lib.update_lending("l1", "b1", "s2", NOW + 10, NOW + 20), Ok(()));
    let l = &lib.lendings[0];
    assert_eq!(l.student_id, "s2");
    assert_eq!(l.due_date, NOW + 10);
    assert_eq!(l.returned_at, Some(NOW + 20));
    assert_eq!(l.status, LendingStatus::Lent);
    assert_eq!(l.lent_at, NOW);
    assert_eq!(lib.books[0].quantity, 1);
    assert_eq!(lib.update_lending("zz", "b1", "s2", 0, 0), Ok(()));
}

#[test]
fn create_lending_stamps_fresh_id_and_current_time() {
    let mut lib = lifecycle_store(1);
    assert_eq!(lib.create_lending("b1", "s1", NOW), Ok(()));
    let l = &lib.lendings[0];
    assert_eq!(l.id.len(), 36);
    assert_ne!(l.id, "b1");
    assert!(l.lent_at > NOW);
    assert_eq!(l.due_date, NOW);
    assert_eq!(lib.books[0].quantity, 0);
}

#[test]
fn return_lending_stamps_current_time() {
    let mut lib = lifecycle_store(1);
    lib.create_lending_with_id("l1".to_string(), "b1", "s1", NOW, NOW).unwrap();
    assert_eq!(lib.return_lending("l1"), Ok(()));
    assert!(lib.lendings[0].returned_at.unwrap() > NOW);
    assert_eq!(lib.return_lending("l1"), Err(LibraryError::InvalidState));
}

#[test]
fn parse_timestamp_reads_rfc3339() {
    assert_eq!(parse_timestamp("2024-01-01T00:00:00Z"), Ok(1_704_067_200_000));
    assert_eq!(parse_timestamp("2024-01-01T02:00:00.250+02:00"), Ok(1_704_067_200_250));
}

#[test]
fn parse_timestamp_refuses_other_text() {
    assert_eq!(parse_timestamp("tomorrow"), Err(LibraryError::InvalidInput));
    assert_eq!(parse_timestamp(""), Err(LibraryError::InvalidInput));
    assert_eq!(parse_timestamp("2024-01-01"), Err(LibraryError::InvalidInput));
}
