use lending_library::model::{str_eq, BookStatus, LendingStatus, StudentStatus};
use lending_library::order::stable_order_of;

#[test]
fn book_status_text_round_trip() {
    assert_eq!(BookStatus::Available.as_str(), "available");
    assert_eq!(BookStatus::Unavailable.as_str(), "unavailable");
    assert_eq!(BookStatus::parse("available"), Ok(BookStatus::Available));
    assert_eq!(BookStatus::parse("unavailable"), Ok(BookStatus::Unavailable));
    assert_eq!(BookStatus::parse("Available"), Err("Invalid book status: Available".to_string()));
    assert_eq!("unavailable".parse::<BookStatus>(), Ok(BookStatus::Unavailable));
}

#[test]
fn student_status_text_round_trip() {
    assert_eq!(StudentStatus::Active.as_str(), "active");
    assert_eq!(StudentStatus::Inactive.as_str(), "inactive");
    assert_eq!(StudentStatus::parse("inactive"), Ok(StudentStatus::Inactive));
    assert_eq!(StudentStatus::parse(""), Err("Invalid student status: ".to_string()));
    assert_eq!("active".parse::<StudentStatus>(), Ok(StudentStatus::Active));
}

#[test]
fn lending_status_text_round_trip() {
    assert_eq!(LendingStatus::Lent.as_str(), "lent");
    assert_eq!(LendingStatus::Returned.as_str(), "returned");
    assert_eq!(LendingStatus::parse("lent"), Ok(LendingStatus::Lent));
    assert_eq!(LendingStatus::parse("gone"), Err("Invalid lending status: gone".to_string()));
    assert_eq!("returned".parse::<LendingStatus>(), Ok(LendingStatus::Returned));
}

#[test]
fn str_eq_compares_characters() {
    assert!(str_eq("héllo", "héllo"));
    assert!(!str_eq("hello", "hell"));
    assert!(!str_eq("abc", "abd"));
    assert!(str_eq("", ""));
}

#[test]
fn stable_order_keeps_ties_in_place() {
    let keys: Vec<i128> = vec![3, 1, 3, 2, 1];
    assert_eq!(stable_order_of(&keys, true), vec![0, 2, 3, 1, 4]);
    assert_eq!(stable_order_of(&keys, false), vec![1, 4, 3, 0, 2]);
    assert!(stable_order_of(&Vec::new(), true).is_empty());
}
