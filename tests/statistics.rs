use lending_library::stats::DAY_MILLIS;
use lending_library::store::Library;

const T0: i64 = 1_700_000_000_000;

fn stats_store(books: &[(&str, i32, &str)], students: usize) -> Library {
    let mut lib = Library::new();
    for (i, (id, q, cat)) in books.iter().enumerate() {
        lib.create_book_with_id(id.to_string(), &format!("T-{}", id), &format!("A-{}", id), *q, "isbn", cat, T0 + i as i64)
            .unwrap();
    }
    for i in 0..students {
        lib.create_student_with_id(format!("s{}", i), &format!("N{}", i), "G", None, &format!("NO-{}", i), T0)
            .unwrap();
    }
    lib
}

#[test]
fn dashboard_totals_and_utilization() {
    let mut lib = stats_store(&[("a", 3, "scifi"), ("b", 2, "poetry"), ("c", 2, "history")], 3);
    lib.create_lending_with_id("l1".to_string(), "a", "s0", T0 + DAY_MILLIS, T0).unwrap();
    lib.create_lending_with_id("l2".to_string(), "b", "s1", T0 + DAY_MILLIS, T0).unwrap();
    let shelf: i32 = lib.books.iter().map(|b| b.quantity).sum();
    assert_eq!(shelf, 5);
    let d = lib.get_dashboard_stats_at(T0).unwrap();
    assert_eq!(d.total_students, 3);
    assert_eq!(d.total_books, 7);
    assert_eq!(d.available_books, 5);
    assert_eq!(d.books_on_loan, 2);
    assert_eq!(d.overdue_books, 0);
    assert_eq!(d.utilization_rate, 28);
    assert_eq!(d.popular_categories.len(), 2);
    assert_eq!(d.popular_categories[0].name, "scifi");
    assert_eq!(d.popular_categories[0].count, 1);
    assert_eq!(d.popular_categories[0].percentage, 50);
    assert_eq!(d.popular_categories[1].name, "poetry");
}

#[test]
fn dashboard_of_empty_store_is_all_zero() {
    let lib = Library::new();
    let d = lib.get_dashboard_stats_at(T0).unwrap();
    assert_eq!(d.total_students, 0);
    assert_eq!(d.total_books, 0);
    assert_eq!(d.available_books, 0);
    assert_eq!(d.books_on_loan, 0);
    assert_eq!(d.overdue_books, 0);
    assert_eq!(d.utilization_rate, 0);
    assert!(d.popular_categories.is_empty());
}

#[test]
fn dashboard_counts_overdue_and_skips_unavailable_shelf() {
    let mut lib = stats_store(&[("a", 1, "x"), ("b", 4, "y")], 3);
    lib.create_lending_with_id("l1".to_string(), "a", "s0", T0 - 1, T0 - DAY_MILLIS).unwrap();
    lib.create_lending_with_id("l2".to_string(), "b", "s1", T0, T0 - DAY_MILLIS).unwrap();
    lib.create_lending_with_id("l3".to_string(), "b", "s2", T0 - 5, T0 - DAY_MILLIS).unwrap();
    lib.return_lending_at("l3", T0).unwrap();
    let d = lib.get_dashboard_stats_at(T0).unwrap();
    assert_eq!(d.books_on_loan, 2);
    assert_eq!(d.overdue_books, 1);
    assert_eq!(d.total_books, 5);
    assert_eq!(d.available_books, 3);
    assert_eq!(d.utilization_rate, 40);
}

#[test]
fn dashboard_top_four_categories_with_floor_percentages() {
    let mut lib = stats_store(
        &[("gone", 5, "lost"), ("a", 9, "A"), ("b", 9, "B"), ("c", 9, "C"), ("d", 9, "D")],
        8,
    );
    let loans = ["gone", "a", "a", "b", "a", "b", "c", "d"];
    for (i, book) in loans.iter().enumerate() {
        let id = format!("l{}", i);
        let who = format!("s{}", i);
        lib.create_lending_with_id(id, book, &who, T0 + DAY_MILLIS, T0).unwrap();
    }
    lib.delete_book("gone").unwrap();
    let d = lib.get_dashboard_stats_at(T0).unwrap();
    let got: Vec<(String, i64, i64)> = d
        .popular_categories
        .iter()
        .map(|c| (c.name.clone(), c.count, c.percentage))
        .collect();
    assert_eq!(
        got,
        vec![
            ("A".to_string(), 3, 37),
            ("B".to_string(), 2, 25),
            ("".to_string(), 1, 12),
            ("C".to_string(), 1, 12),
        ]
    );
}

#[test]
fn dashboard_at_current_time() {
    let lib = stats_store(&[("a", 2, "x")], 1);
    let d = lib.get_dashboard_stats().unwrap();
    assert_eq!(d.total_books, 2);
    assert_eq!(d.available_books, 2);
}

#[test]
fn overdue_sorted_by_due_date() {
    let mut lib = stats_store(&[("a", 9, "x"), ("b", 9, "y")], 6);
    lib.create_lending_with_id("l1".to_string(), "a", "s0", T0 - DAY_MILLIS - 5_000, T0 - 9 * DAY_MILLIS).unwrap();
    lib.create_lending_with_id("l2".to_string(), "b", "s1", T0 - 3 * DAY_MILLIS, T0 - 9 * DAY_MILLIS).unwrap();
    lib.create_lending_with_id("l3".to_string(), "a", "s2", T0 - 5 * DAY_MILLIS, T0 - 9 * DAY_MILLIS).unwrap();
    lib.return_lending_at("l3", T0 - DAY_MILLIS).unwrap();
    lib.create_lending_with_id("l4".to_string(), "a", "s3", T0 + DAY_MILLIS, T0 - 9 * DAY_MILLIS).unwrap();
    lib.create_lending_with_id("l5".to_string(), "b", "s4", T0, T0 - 9 * DAY_MILLIS).unwrap();
    let v = lib.get_overdue_books_at(T0).unwrap();
    let got: Vec<(String, i64)> = v.iter().map(|o| (o.id.clone(), o.days_overdue)).collect();
    assert_eq!(got, vec![("l2".to_string(), 3), ("l1".to_string(), 1)]);
    assert_eq!(v[0].book_title, "T-b");
    assert_eq!(v[0].author, "A-b");
    assert_eq!(v[0].student_name, "N1");
    assert_eq!(v[0].grade, "G");
    assert_eq!(v[0].student_id, "NO-1");
    assert_eq!(v[0].due_date, T0 - 3 * DAY_MILLIS);
}

#[test]
fn overdue_skips_loans_whose_borrower_is_gone() {
    let mut lib = stats_store(&[("a", 9, "x")], 2);
    lib.create_lending_with_id("l1".to_string(), "a", "s0", T0 - 10, T0 - DAY_MILLIS).unwrap();
    lib.create_lending_with_id("l2".to_string(), "a", "s1", T0 - 20, T0 - DAY_MILLIS).unwrap();
    lib.delete_student("s1").unwrap();
    let v = lib.get_overdue_books_at(T0).unwrap();
    assert_eq!(v.len(), 1);
    assert_eq!(v[0].id, "l1");
    assert_eq!(v[0].days_overdue, 0);
    assert!(lib.get_overdue_books().unwrap().len() == 1);
}

#[test]
fn popular_books_ranked_stably() {
    let mut lib = stats_store(
        &[("b1", 9, "x"), ("b2", 9, "x"), ("b3", 9, "x"), ("b4", 9, "x"), ("b5", 9, "x"), ("b6", 9, "x")],
        10,
    );
    let loans = ["b1", "b2", "b3", "b2", "b6", "b1", "b5", "b3", "b2", "b6"];
    for (i, book) in loans.iter().enumerate() {
        let id = format!("l{}", i);
        let who = format!("s{}", i);
        lib.create_lending_with_id(id.clone(), book, &who, T0, T0).unwrap();
        if i % 2 == 0 {
            lib.return_lending_at(&id, T0).unwrap();
        }
    }
    let v = lib.get_popular_books().unwrap();
    let got: Vec<(String, i64)> = v.iter().map(|p| (p.id.clone(), p.times_loaned)).collect();
    assert_eq!(
        got,
        vec![
            ("b2".to_string(), 3),
            ("b1".to_string(), 2),
            ("b3".to_string(), 2),
            ("b6".to_string(), 2),
            ("b5".to_string(), 1),
        ]
    );
    assert_eq!(v[0].title, "T-b2");
    assert_eq!(v[0].author, "A-b2");
    assert_eq!(v[0].category, "x");
    assert_eq!(v[0].status, "available");
    assert_eq!(lib.times_loaned("b4"), 0);
    assert_eq!(lib.times_loaned("b2"), 3);
}

#[test]
fn popular_books_leave_out_only_less_lent_books() {
    let mut lib = stats_store(
        &[("p0", 9, "x"), ("p1", 9, "x"), ("p2", 9, "x"), ("p3", 9, "x"), ("p4", 9, "x"), ("p5", 9, "x"), ("p6", 9, "x")],
        12,
    );
    let loans = ["p6", "p6", "p5", "p5", "p4", "p3", "p2", "p1", "p6"];
    for (i, book) in loans.iter().enumerate() {
        let id = format!("l{}", i);
        let who = format!("s{}", i);
        lib.create_lending_with_id(id, book, &who, T0, T0).unwrap();
    }
    let v = lib.get_popular_books().unwrap();
    let ids: Vec<String> = v.iter().map(|p| p.id.clone()).collect();
    assert_eq!(ids, vec!["p6", "p5", "p1", "p2", "p3"]);
    assert_eq!(v[4].times_loaned, 1);
    assert!(lib.times_loaned("p4") <= 1);
    assert_eq!(lib.times_loaned("p0"), 0);
}

#[test]
fn popular_books_of_small_store_lists_all() {
    let lib = stats_store(&[("a", 0, "x"), ("b", 1, "y")], 0);
    let v = lib.get_popular_books().unwrap();
    assert_eq!(v.len(), 2);
    assert_eq!(v[0].id, "a");
    assert_eq!(v[0].times_loaned, 0);
}

#[test]
fn recent_activity_keeps_last_day_latest_first() {
    let mut lib = stats_store(&[("a", 20, "x")], 13);
    lib.create_lending_with_id("old".to_string(), "a", "s0", T0, T0 - 2 * DAY_MILLIS).unwrap();
    lib.create_lending_with_id("edge".to_string(), "a", "s1", T0, T0 - DAY_MILLIS).unwrap();
    for i in 2..13 {
        let id = format!("r{}", i);
        let who = format!("s{}", i);
        lib.create_lending_with_id(id, "a", &who, T0 + 5, T0 - 1000 + i as i64).unwrap();
    }
    let v = lib.get_recent_activity_at(T0).unwrap();
    assert_eq!(v.len(), 10);
    assert_eq!(v[0].id, "r12");
    assert_eq!(v[9].id, "r3");
    assert_eq!(v[0].student_name, "N12");
    assert_eq!(v[0].book_title, "T-a");
    assert_eq!(v[0].author, "A-a");
    assert_eq!(v[0].activity_type, "lent");
    assert_eq!(v[0].due_date, Some(T0 + 5));
    assert_eq!(v[0].created_at, T0 - 1000 + 12);
}

#[test]
fn recent_activity_includes_day_boundary_and_returned() {
    let mut lib = stats_store(&[("a", 20, "x")], 3);
    lib.create_lending_with_id("old".to_string(), "a", "s0", T0, T0 - DAY_MILLIS - 1).unwrap();
    lib.create_lending_with_id("edge".to_string(), "a", "s1", T0, T0 - DAY_MILLIS).unwrap();
    lib.create_lending_with_id("new".to_string(), "a", "s2", T0, T0 - 1).unwrap();
    lib.return_lending_at("new", T0).unwrap();
    let v = lib.get_recent_activity_at(T0).unwrap();
    let ids: Vec<String> = v.iter().map(|a| a.id.clone()).collect();
    assert_eq!(ids, vec!["new".to_string(), "edge".to_string()]);
    assert_eq!(v[0].activity_type, "returned");
    assert!(lib.get_recent_activity().unwrap().is_empty());
}
