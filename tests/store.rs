use lending_library::model::{BookStatus, LendingStatus, LibraryError, StudentStatus};
use lending_library::store::Library;

const AT: i64 = 1_650_000_000_000;

#[test]
fn create_book_is_available_whatever_its_quantity() {
    let mut lib = Library::new();
    lib.create_book_with_id("b1".to_string(), "T", "A", 0, "I", "C", AT).unwrap();
    let b = &lib.books[0];
    assert_eq!(b.id, "b1");
    assert_eq!(b.title, "T");
    assert_eq!(b.author, "A");
    assert_eq!(b.quantity, 0);
    assert_eq!(b.isbn, "I");
    assert_eq!(b.category, "C");
    assert_eq!(b.status, BookStatus::Available);
    assert_eq!(b.created_at, AT);
}

#[test]
fn create_book_with_taken_id_is_storage_failure() {
    let mut lib = Library::new();
    lib.create_book_with_id("b1".to_string(), "T", "A", 1, "I", "C", AT).unwrap();
    let r = lib.create_book_with_id("b1".to_string(), "U", "B", 2, "J", "D", AT);
    assert_eq!(r, Err(LibraryError::StorageFailure));
    assert_eq!(lib.books.len(), 1);
    assert_eq!(lib.books[0].title, "T");
}

#[test]
fn create_book_gets_fresh_id_and_time() {
    let mut lib = Library::new();
    lib.create_book("T", "A", 3, "I", "C").unwrap();
    lib.create_book("U", "B", 1, "J", "D").unwrap();
    assert_eq!(lib.books.len(), 2);
    assert_eq!(lib.books[0].id.len(), 36);
    assert_ne!(lib.books[0].id, lib.books[1].id);
    assert!(lib.books[0].created_at > AT);
    assert_eq!(lib.books[1].status, BookStatus::Available);
}

#[test]
fn get_all_books_newest_first_ties_in_order_added() {
    let mut lib = Library::new();
    lib.create_book_with_id("old".to_string(), "T", "A", 1, "I", "C", AT).unwrap();
    lib.create_book_with_id("new".to_string(), "T", "A", 1, "I", "C", AT + 10).unwrap();
    lib.create_book_with_id("tie1".to_string(), "T", "A", 1, "I", "C", AT + 5).unwrap();
    lib.create_book_with_id("tie2".to_string(), "T", "A", 1, "I", "C", AT + 5).unwrap();
    let ids: Vec<String> = lib.get_all_books().unwrap().iter().map(|b| b.id.clone()).collect();
    assert_eq!(ids, vec!["new", "tie1", "tie2", "old"]);
}

#[test]
fn get_book_by_id_finds_or_not() {
    let mut lib = Library::new();
    lib.create_book_with_id("b1".to_string(), "T", "A", 1, "I", "C", AT).unwrap();
    let b = lib.get_book_by_id("b1").unwrap().unwrap();
    assert_eq!(b.title, "T");
    assert!(lib.get_book_by_id("b2").unwrap().is_none());
}

#[test]
fn update_book_overwrites_without_recomputing_status() {
    let mut lib = Library::new();
    lib.create_book_with_id("b1".to_string(), "T", "A", 1, "I", "C", AT).unwrap();
    lib.update_book("b1", "T2", "A2", 0, "I2", "C2", BookStatus::Available).unwrap();
    let b = &lib.books[0];
    assert_eq!((b.title.as_str(), b.author.as_str(), b.isbn.as_str(), b.category.as_str()), ("T2", "A2", "I2", "C2"));
    assert_eq!(b.quantity, 0);
    assert_eq!(b.status, BookStatus::Available);
    assert_eq!(b.created_at, AT);
    assert_eq!(lib.update_book("zz", "X", "X", 1, "X", "X", BookStatus::Unavailable), Ok(()));
    assert_eq!(lib.books[0].title, "T2");
}

#[test]
fn delete_book_removes_only_that_book() {
    let mut lib = Library::new();
    lib.create_book_with_id("b1".to_string(), "T", "A", 1, "I", "C", AT).unwrap();
    lib.create_book_with_id("b2".to_string(), "U", "B", 1, "J", "D", AT).unwrap();
    lib.delete_book("b1").unwrap();
    assert_eq!(lib.books.len(), 1);
    assert_eq!(lib.books[0].id, "b2");
    assert_eq!(lib.delete_book("b1"), Ok(()));
    assert_eq!(lib.books.len(), 1);
}

#[test]
fn student_crud() {
    let mut lib = Library::new();
    lib.create_student_with_id("s1".to_string(), "Ann", "5", Some("555-1"), "S-1", AT).unwrap();
    lib.create_student_with_id("s2".to_string(), "Bob", "6", None, "S-2", AT + 1).unwrap();
    assert_eq!(
        lib.create_student_with_id("s1".to_string(), "X", "X", None, "X", AT),
        Err(LibraryError::StorageFailure)
    );
    let s = lib.get_student_by_id("s1").unwrap().unwrap();
    assert_eq!(s.name, "Ann");
    assert_eq!(s.phone_number, Some("555-1".to_string()));
    assert_eq!(s.status, StudentStatus::Active);
    let ids: Vec<String> = lib.get_all_students().unwrap().iter().map(|s| s.id.clone()).collect();
    assert_eq!(ids, vec!["s2", "s1"]);
    lib.update_student("s1", "Anne", "7", None, "S-9", StudentStatus::Inactive).unwrap();
    let s = &lib.students[0];
    assert_eq!((s.name.as_str(), s.grade.as_str(), s.student_id.as_str()), ("Anne", "7", "S-9"));
    assert_eq!(s.phone_number, None);
    assert_eq!(s.status, StudentStatus::Inactive);
    lib.delete_student("s2").unwrap();
    assert_eq!(lib.students.len(), 1);
    assert!(lib.get_student_by_id("s2").unwrap().is_none());
}

#[test]
fn create_student_gets_fresh_id_and_time() {
    let mut lib = Library::new();
    lib.create_student("Ann", "5", None, "S-1").unwrap();
    assert_eq!(lib.students[0].id.len(), 36);
    assert!(lib.students[0].created_at > AT);
    assert_eq!(lib.students[0].status, StudentStatus::Active);
}

#[test]
fn lending_listings_join_details_newest_first() {
    let mut lib = Library::new();
    lib.create_book_with_id("b1".to_string(), "Dune", "Herbert", 5, "I", "C", AT).unwrap();
    lib.create_book_with_id("b2".to_string(), "Emma", "Austen", 5, "I", "C", AT).unwrap();
    lib.create_student_with_id("s1".to_string(), "Ann", "5", None, "S-1", AT).unwrap();
    lib.create_student_with_id("s2".to_string(), "Bob", "6", None, "S-2", AT).unwrap();
    lib.create_lending_with_id("l1".to_string(), "b1", "s1", AT + 100, AT + 1).unwrap();
    lib.return_lending_at("l1", AT + 2).unwrap();
    lib.create_lending_with_id("l2".to_string(), "b2", "s1", AT + 100, AT + 3).unwrap();
    lib.create_lending_with_id("l3".to_string(), "b1", "s2", AT + 100, AT + 2).unwrap();

    let all: Vec<String> = lib.get_all_lendings().unwrap().iter().map(|d| d.id.clone()).collect();
    assert_eq!(all, vec!["l2", "l3", "l1"]);
    let by_book: Vec<String> =
        lib.get_lending_records_by_book_id("b1").unwrap().iter().map(|d| d.id.clone()).collect();
    assert_eq!(by_book, vec!["l3", "l1"]);
    let by_student: Vec<String> =
        lib.get_lending_records_by_student_id("s1").unwrap().iter().map(|d| d.id.clone()).collect();
    assert_eq!(by_student, vec!["l2", "l1"]);

    let d = lib.get_lending_by_id("l1").unwrap().unwrap();
    assert_eq!(d.book_title, "Dune");
    assert_eq!(d.book_author, "Herbert");
    assert_eq!(d.student_name, "Ann");
    assert_eq!(d.student_number, "S-1");
    assert_eq!(d.status, LendingStatus::Returned);
    assert_eq!(d.returned_at, Some(AT + 2));
    assert!(lib.get_lending_by_id("zz").unwrap().is_none());
}

#[test]
fn lending_details_blank_when_book_and_borrower_gone() {
    let mut lib = Library::new();
    lib.create_book_with_id("b1".to_string(), "Dune", "Herbert", 5, "I", "C", AT).unwrap();
    lib.create_student_with_id("s1".to_string(), "Ann", "5", None, "S-1", AT).unwrap();
    lib.create_lending_with_id("l1".to_string(), "b1", "s1", AT + 100, AT).unwrap();
    lib.delete_book("b1").unwrap();
    lib.delete_student("s1").unwrap();
    let d = lib.get_lending_by_id("l1").unwrap().unwrap();
    assert_eq!(d.book_id, "b1");
    assert_eq!(d.book_title, "");
    assert_eq!(d.book_author, "");
    assert_eq!(d.student_name, "");
    assert_eq!(d.student_number, "");
}
