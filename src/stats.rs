use vstd::prelude::*;

use crate::ext::now_millis;
use crate::model::{str_eq, Book, BookStatus, Lending, LendingStatus, LibraryError};
use crate::order::{
    lemma_select_bounds, lemma_select_member, lemma_stable_order_bounds, lemma_stable_order_sorted,
    lemma_stable_order_permutation, lemma_stable_order_ties,
    lemma_select_complete, select, stable_order, stable_order_of,
};
use vstd::arithmetic::div_mod::{
    lemma_div_by_multiple, lemma_div_is_ordered, lemma_div_is_ordered_by_denominator,
    lemma_div_pos_is_pos,
};

use crate::store::{book_ids, lemma_position, opt_view, student_ids, Library, LibraryState};

verus! {

/// Milliseconds in a day.
pub const DAY_MILLIS: i64 = 86_400_000;

/// Headline figures of the store.
#[derive(Debug)]
pub struct DashboardStats {
    pub total_students: i64,
    pub total_books: i64,
    pub available_books: i64,
    pub books_on_loan: i64,
    pub overdue_books: i64,
    pub utilization_rate: i64,
    pub popular_categories: Vec<CategoryStats>,
}

/// Loans of one category, and their share of all loans in whole percent.
#[derive(Debug)]
pub struct CategoryStats {
    pub name: String,
    pub count: i64,
    pub percentage: i64,
}

/// A book with the number of times it was ever lent.
#[derive(Debug)]
pub struct PopularBook {
    pub id: String,
    pub title: String,
    pub author: String,
    pub category: String,
    pub status: String,
    pub times_loaned: i64,
}

/// A loan past its due date, with its book and borrower.
#[derive(Debug)]
pub struct OverdueBook {
    pub id: String,
    pub book_title: String,
    pub author: String,
    pub student_name: String,
    pub grade: String,
    pub student_id: String,
    pub due_date: i64,
    pub days_overdue: i64,
}

/// A loan made in the last day, with its book and borrower.
#[derive(Debug)]
pub struct RecentActivity {
    pub id: String,
    pub student_name: String,
    pub book_title: String,
    pub author: String,
    pub activity_type: String,
    pub due_date: Option<i64>,
    pub created_at: i64,
}

pub open spec fn in_i64(x: int) -> bool {
    i64::MIN <= x <= i64::MAX
}

/// Copies on the shelf, over all books.
pub open spec fn shelf_total(books: Seq<Book>) -> int
    decreases books.len(),
{
    if books.len() == 0 {
        0
    } else {
        shelf_total(books.drop_last()) + books.last().quantity
    }
}

/// Copies on the shelf, over the books marked available.
pub open spec fn available_total(books: Seq<Book>) -> int
    decreases books.len(),
{
    if books.len() == 0 {
        0
    } else {
        available_total(books.drop_last()) + if books.last().status == BookStatus::Available {
            books.last().quantity as int
        } else {
            0
        }
    }
}

/// Loans still out.
pub open spec fn active_loans(lendings: Seq<Lending>) -> int
    decreases lendings.len(),
{
    if lendings.len() == 0 {
        0
    } else {
        active_loans(lendings.drop_last()) + if lendings.last().status == LendingStatus::Lent {
            1int
        } else {
            0
        }
    }
}

/// Loans still out whose due date is before `now`.
pub open spec fn overdue_loans(lendings: Seq<Lending>, now: i64) -> int
    decreases lendings.len(),
{
    if lendings.len() == 0 {
        0
    } else {
        overdue_loans(lendings.drop_last(), now) + if lendings.last().status == LendingStatus::Lent
            && lendings.last().due_date < now {
            1int
        } else {
            0
        }
    }
}

/// Copies owned: those on the shelf and those out on loan.
pub open spec fn total_units(s: LibraryState) -> int {
    shelf_total(s.books) + active_loans(s.lendings)
}

/// Whole percent of the copies owned that are out on loan; zero with none owned.
pub open spec fn utilization(s: LibraryState) -> int {
    if total_units(s) > 0 {
        active_loans(s.lendings) * 100 / total_units(s)
    } else {
        0
    }
}

proof fn lemma_counts_bounded(lendings: Seq<Lending>, now: i64)
    ensures
        0 <= overdue_loans(lendings, now) <= active_loans(lendings) <= lendings.len(),
    decreases lendings.len(),
{
    if lendings.len() > 0 {
        lemma_counts_bounded(lendings.drop_last(), now);
    }
}

/// A part of a whole, in whole percent, is at most a hundred.
proof fn lemma_share_bounded(a: int, b: int)
    requires
        0 <= a <= b,
        0 < b,
    ensures
        0 <= a * 100 / b <= 100,
{
    assert(a * 100 <= 100 * b) by (nonlinear_arith)
        requires
            a <= b,
    ;
    lemma_div_is_ordered(a * 100, 100 * b, b);
    lemma_div_by_multiple(100, b);
    lemma_div_pos_is_pos(a * 100, b);
}

fn sum_shelf(books: &Vec<Book>) -> (r: (i128, i128))
    ensures
        r.0 == shelf_total(books@),
        r.1 == available_total(books@),
        -0x8000_0000_0000_0000_0000_0000 <= r.0 <= 0x8000_0000_0000_0000_0000_0000,
{
    let mut total: i128 = 0;
    let mut avail: i128 = 0;
    let mut i: usize = 0;
    while i < books.len()
        invariant
            i <= books@.len(),
            total == shelf_total(books@.take(i as int)),
            avail == available_total(books@.take(i as int)),
            -(i as int) * 0x8000_0000 <= total <= (i as int) * 0x8000_0000,
            -(i as int) * 0x8000_0000 <= avail <= (i as int) * 0x8000_0000,
        decreases books@.len() - i,
    {
        assert(books@.take(i as int + 1).drop_last() =~= books@.take(i as int));
        let b = &books[i];
        total = total + b.quantity as i128;
        if b.status == BookStatus::Available {
            avail = avail + b.quantity as i128;
        }
        i += 1;
    }
    assert(books@.take(i as int) =~= books@);
    assert(i as int <= 0xFFFF_FFFF_FFFF_FFFF);
    (total, avail)
}

fn count_loans(lendings: &Vec<Lending>, now: i64) -> (r: (u64, u64))
    ensures
        r.0 == active_loans(lendings@),
        r.1 == overdue_loans(lendings@, now),
{
    let mut active: u64 = 0;
    let mut overdue: u64 = 0;
    let mut i: usize = 0;
    while i < lendings.len()
        invariant
            i <= lendings@.len(),
            active == active_loans(lendings@.take(i as int)),
            overdue == overdue_loans(lendings@.take(i as int), now),
        decreases lendings@.len() - i,
    {
        assert(lendings@.take(i as int + 1).drop_last() =~= lendings@.take(i as int));
        proof {
            lemma_counts_bounded(lendings@.take(i as int), now);
        }
        let l = &lendings[i];
        if l.status == LendingStatus::Lent {
            active = active + 1;
            if l.due_date < now {
                overdue = overdue + 1;
            }
        }
        i += 1;
    }
    assert(lendings@.take(i as int) =~= lendings@);
    (active, overdue)
}

/// The category of the book a loan refers to; `None` where that book is gone.
pub open spec fn lending_category(s: LibraryState, l: Lending) -> Option<Seq<char>> {
    if s.has_book(l.book_id@) {
        Some(s.books[s.book_pos(l.book_id@)].category@)
    } else {
        None
    }
}

/// The categories of the first `n` loans, each once, in order of first appearance.
pub open spec fn category_keys(s: LibraryState, n: nat) -> Seq<Option<Seq<char>>>
    decreases n,
{
    if n == 0 {
        Seq::empty()
    } else {
        let k = category_keys(s, (n - 1) as nat);
        let c = lending_category(s, s.lendings[n - 1]);
        if k.contains(c) {
            k
        } else {
            k.push(c)
        }
    }
}

/// How many of the first `n` loans fall in category `c`.
pub open spec fn category_count(s: LibraryState, n: nat, c: Option<Seq<char>>) -> nat
    decreases n,
{
    if n == 0 {
        0
    } else {
        category_count(s, (n - 1) as nat, c) + if lending_category(s, s.lendings[n - 1]) == c {
            1nat
        } else {
            0
        }
    }
}

/// Every category of the store, in order of first appearance.
pub open spec fn all_categories(s: LibraryState) -> Seq<Option<Seq<char>>> {
    category_keys(s, s.lendings.len())
}

/// Loan counts of `all_categories`, position by position.
pub open spec fn category_loan_keys(s: LibraryState) -> Seq<i128> {
    all_categories(s).map_values(
        |c: Option<Seq<char>>| category_count(s, s.lendings.len(), c) as i128,
    )
}

/// Categories by loan count, most first, ties in order of first appearance.
pub open spec fn ranked_categories(s: LibraryState) -> Seq<usize> {
    stable_order(category_loan_keys(s), all_categories(s).len(), true)
}

proof fn lemma_category_count_bounded(s: LibraryState, n: nat, c: Option<Seq<char>>)
    ensures
        category_count(s, n, c) <= n,
    decreases n,
{
    if n > 0 {
        lemma_category_count_bounded(s, (n - 1) as nat, c);
    }
}

fn opt_text_eq(a: &Option<String>, b: &Option<String>) -> (r: bool)
    ensures
        r == (opt_view(*a) == opt_view(*b)),
{
    match (a, b) {
        (Some(x), Some(y)) => str_eq(x.as_str(), y.as_str()),
        (None, None) => true,
        _ => false,
    }
}

impl Library {
    fn category_of(&self, l: &Lending) -> (r: Option<String>)
        requires
            self.wf(),
        ensures
            opt_view(r) == lending_category(self@, *l),
    {
        match self.find_book(l.book_id.as_str()) {
            Some(b) => {
                proof {
                    lemma_position(book_ids(self@.books), b as int);
                }
                Some(self.books[b].category.clone())
            },
            None => None,
        }
    }

    /// The categories of all loans, each once in order of first appearance,
    /// with their loan counts.
    fn category_tally(&self) -> (r: (Vec<Option<String>>, Vec<u64>))
        requires
            self.wf(),
        ensures
            r.0@.map_values(|k: Option<String>| opt_view(k)) == all_categories(self@),
            r.1@.len() == r.0@.len(),
            forall|j: int|
                0 <= j < r.1@.len() ==> r.1@[j] == category_count(
                    self@,
                    self@.lendings.len(),
                    all_categories(self@)[j],
                ),
    {
        let ghost s = self@;
        let mut keys: Vec<Option<String>> = Vec::new();
        let mut counts: Vec<u64> = Vec::new();
        let mut i: usize = 0;
        while i < self.lendings.len()
            invariant
                self@ == s,
                self.wf(),
                i <= s.lendings.len(),
                keys@.map_values(|k: Option<String>| opt_view(k)) == category_keys(s, i as nat),
                counts@.len() == keys@.len(),
                forall|j: int|
                    0 <= j < counts@.len() ==> #[trigger] counts@[j] == category_count(
                        s,
                        i as nat,
                        category_keys(s, i as nat)[j],
                    ),
                forall|a: int, b: int|
                    0 <= a < keys@.len() && 0 <= b < keys@.len() && #[trigger] category_keys(
                        s,
                        i as nat,
                    )[a] == #[trigger] category_keys(s, i as nat)[b] ==> a == b,
            decreases s.lendings.len() - i,
        {
            let ghost ks = category_keys(s, i as nat);
            let c = self.category_of(&self.lendings[i]);
            let ghost cv = opt_view(c);
            proof {
                lemma_category_count_bounded(s, i as nat, cv);
            }
            let mut j: usize = 0;
            let mut found = false;
            while !found && j < keys.len()
                invariant
                    keys@.map_values(|k: Option<String>| opt_view(k)) == ks,
                    cv == opt_view(c),
                    j <= keys@.len(),
                    found ==> j < keys@.len() && ks[j as int] == cv,
                    forall|m: int| 0 <= m < j ==> ks[m] != cv,
                decreases keys@.len() - j + if found {
                    0int
                } else {
                    1int
                },
            {
                assert(ks[j as int] == opt_view(keys@[j as int]));
                if opt_text_eq(&keys[j], &c) {
                    found = true;
                } else {
                    j += 1;
                }
            }
            let ghost old_counts = counts@;
            if found {
                assert(ks[j as int] == cv);
                assert(ks.contains(cv));
                proof {
                    lemma_category_count_bounded(s, i as nat, cv);
                }
                let n = counts[j] + 1;
                counts.set(j, n);
                assert forall|m: int|
                    0 <= m < counts@.len() implies #[trigger] counts@[m] == category_count(
                    s,
                    (i + 1) as nat,
                    category_keys(s, (i + 1) as nat)[m],
                ) by {
                    assert(category_keys(s, (i + 1) as nat) == ks);
                    if m != j {
                        assert(counts@[m] == old_counts[m]);
                    }
                }
            } else {
                assert forall|m: int| 0 <= m < ks.len() implies ks[m] != cv by {}
                assert(!ks.contains(cv));
                keys.push(c);
                counts.push(1);
                assert(keys@.map_values(|k: Option<String>| opt_view(k)) =~= ks.push(cv));
                assert forall|m: int|
                    0 <= m < counts@.len() implies #[trigger] counts@[m] == category_count(
                    s,
                    (i + 1) as nat,
                    category_keys(s, (i + 1) as nat)[m],
                ) by {
                    if m < old_counts.len() {
                        assert(counts@[m] == old_counts[m]);
                        assert(ks[m] != cv);
                    } else {
                        assert(category_count(s, i as nat, cv) == 0) by {
                            lemma_count_absent(s, i as nat, cv);
                        }
                    }
                }
            }
            i += 1;
        }
        (keys, counts)
    }
}

/// Whether every figure of the dashboard fits its 64-bit field.
pub open spec fn dashboard_fits(s: LibraryState) -> bool {
    &&& s.students.len() <= i64::MAX
    &&& s.lendings.len() <= i64::MAX
    &&& in_i64(shelf_total(s.books))
    &&& in_i64(available_total(s.books))
    &&& in_i64(total_units(s))
    &&& in_i64(utilization(s))
}

/// `c` is the category of rank `k`, with its loans and its share of all loans.
pub open spec fn is_category_entry(c: CategoryStats, s: LibraryState, k: int) -> bool {
    let key = all_categories(s)[ranked_categories(s)[k] as int];
    let n = category_count(s, s.lendings.len(), key);
    &&& c.name@ == match key {
        Some(v) => v,
        None => Seq::<char>::empty(),
    }
    &&& c.count == n
    &&& c.percentage == if s.lendings.len() > 0 {
        (n as int) * 100 / (s.lendings.len() as int)
    } else {
        0
    }
}

/// The dashboard of `s` at time `now`: borrowers, copies owned, copies on
/// the shelf of available books, loans out, loans overdue, utilization, and
/// the four categories with the most loans.
pub open spec fn is_dashboard(d: DashboardStats, s: LibraryState, now: i64) -> bool {
    &&& d.total_students == s.students.len()
    &&& d.total_books == total_units(s)
    &&& d.available_books == available_total(s.books)
    &&& d.books_on_loan == active_loans(s.lendings)
    &&& d.overdue_books == overdue_loans(s.lendings, now)
    &&& d.utilization_rate == utilization(s)
    &&& d.popular_categories@.len() == if all_categories(s).len() < 4 {
        all_categories(s).len()
    } else {
        4
    }
    &&& forall|k: int|
        0 <= k < d.popular_categories@.len() ==> is_category_entry(
            #[trigger] d.popular_categories@[k],
            s,
            k,
        )
}

impl Library {
    /// The four categories with the most loans, most first.
    fn top_categories(&self) -> (r: Vec<CategoryStats>)
        requires
            self.wf(),
            self@.lendings.len() <= i64::MAX,
        ensures
            r@.len() == if all_categories(self@).len() < 4 {
                all_categories(self@).len()
            } else {
                4
            },
            forall|k: int| 0 <= k < r@.len() ==> is_category_entry(#[trigger] r@[k], self@, k),
    {
        let ghost s = self@;
        let (keys, counts) = self.category_tally();
        let ghost cats = all_categories(s);
        assert(cats.len() == keys@.len());
        let mut ck: Vec<i128> = Vec::new();
        let mut j: usize = 0;
        while j < counts.len()
            invariant
                j <= counts@.len(),
                ck@.len() == j,
                forall|m: int| 0 <= m < j ==> #[trigger] ck@[m] == counts@[m] as i128,
            decreases counts@.len() - j,
        {
            ck.push(counts[j] as i128);
            j += 1;
        }
        assert forall|m: int| 0 <= m < cats.len() implies #[trigger] ck@[m] == category_loan_keys(s)[m] by {}
        assert(ck@ =~= category_loan_keys(s));
        let order = stable_order_of(&ck, true);
        let total_loans = self.lendings.len() as u64;
        let limit: usize = if order.len() < 4 {
            order.len()
        } else {
            4
        };
        let mut out: Vec<CategoryStats> = Vec::new();
        let mut k: usize = 0;
        while k < limit
            invariant
                self@ == s,
                limit <= order@.len(),
                order@ == ranked_categories(s),
                order@.len() == keys@.len(),
                forall|m: int| 0 <= m < order@.len() ==> (#[trigger] order@[m] as int) < keys@.len(),
                keys@.map_values(|k: Option<String>| opt_view(k)) == cats,
                counts@.len() == keys@.len(),
                forall|m: int|
                    0 <= m < counts@.len() ==> counts@[m] == category_count(
                        s,
                        s.lendings.len(),
                        cats[m],
                    ),
                total_loans == s.lendings.len(),
                s.lendings.len() <= i64::MAX,
                cats == all_categories(s),
                k <= limit,
                out@.len() == k,
                forall|m: int| 0 <= m < k ==> is_category_entry(#[trigger] out@[m], s, m),
            decreases limit - k,
        {
            let p = order[k];
            assert(opt_view(keys@[p as int]) == cats[p as int]);
            let name = match &keys[p] {
                Some(v) => v.clone(),
                None => String::new(),
            };
            let cnt = counts[p];
            proof {
                lemma_category_count_bounded(s, s.lendings.len(), cats[p as int]);
            }
            proof {
                if total_loans > 0 {
                    lemma_share_bounded(cnt as int, total_loans as int);
                }
            }
            let percentage: i64 = if total_loans > 0 {
                (cnt as u128 * 100 / total_loans as u128) as i64
            } else {
                0
            };
            out.push(CategoryStats { name, count: cnt as i64, percentage });
            k += 1;
        }
        out
    }

    /// The dashboard at time `now`; refused with `StorageFailure` where a
    /// figure does not fit its 64-bit field.
    pub fn get_dashboard_stats_at(&self, now: i64) -> (r: Result<DashboardStats, LibraryError>)
        requires
            self.wf(),
        ensures
            r is Ok <==> dashboard_fits(self@),
            r is Err ==> r == Err::<DashboardStats, LibraryError>(LibraryError::StorageFailure),
            r matches Ok(d) ==> is_dashboard(d, self@, now),
    {
        let (shelf, avail) = sum_shelf(&self.books);
        let (active, overdue) = count_loans(&self.lendings, now);
        proof {
            lemma_counts_bounded(self@.lendings, now);
        }
        if self.students.len() as u64 > i64::MAX as u64 || self.lendings.len() as u64 > i64::MAX as u64 {
            return Err(LibraryError::StorageFailure);
        }
        let total: i128 = shelf + active as i128;
        if shelf < i64::MIN as i128 || shelf > i64::MAX as i128 || avail < i64::MIN as i128 || avail
            > i64::MAX as i128 || total < i64::MIN as i128 || total > i64::MAX as i128 {
            return Err(LibraryError::StorageFailure);
        }
        proof {
            if total > 0 {
                lemma_div_is_ordered_by_denominator(active as int * 100, 1, total as int);
            }
        }
        let util: i128 = if total > 0 {
            (active as u128 * 100 / total as u128) as i128
        } else {
            0
        };
        if util > i64::MAX as i128 {
            return Err(LibraryError::StorageFailure);
        }
        let popular_categories = self.top_categories();
        Ok(
            DashboardStats {
                total_students: self.students.len() as i64,
                total_books: total as i64,
                available_books: avail as i64,
                books_on_loan: active as i64,
                overdue_books: overdue as i64,
                utilization_rate: util as i64,
                popular_categories,
            },
        )
    }

    /// The dashboard at the current time.
    pub fn get_dashboard_stats(&self) -> (r: Result<DashboardStats, LibraryError>)
        requires
            self.wf(),
        ensures
            r is Ok <==> dashboard_fits(self@),
            r is Err ==> r == Err::<DashboardStats, LibraryError>(LibraryError::StorageFailure),
            r matches Ok(d) ==> exists|now: i64| is_dashboard(d, self@, now),
    {
        let now = now_millis();
        self.get_dashboard_stats_at(now)
    }
}

/// Loans ever made of the book `id`, returned or not.
pub open spec fn times_loaned(lendings: Seq<Lending>, id: Seq<char>) -> nat
    decreases lendings.len(),
{
    if lendings.len() == 0 {
        0
    } else {
        times_loaned(lendings.drop_last(), id) + if lendings.last().book_id@ == id {
            1nat
        } else {
            0
        }
    }
}

proof fn lemma_times_loaned_bounded(lendings: Seq<Lending>, id: Seq<char>)
    ensures
        times_loaned(lendings, id) <= lendings.len(),
    decreases lendings.len(),
{
    if lendings.len() > 0 {
        lemma_times_loaned_bounded(lendings.drop_last(), id);
    }
}

/// Loan counts of the books, position by position.
pub open spec fn loan_count_keys(s: LibraryState) -> Seq<i128> {
    s.books.map_values(|b: Book| times_loaned(s.lendings, b.id@) as i128)
}

/// Books by loan count, most first, ties in the order the books were added.
pub open spec fn popular_order(s: LibraryState) -> Seq<usize> {
    stable_order(loan_count_keys(s), s.books.len(), true)
}

/// `p` is the book of rank `k` by loan count.
pub open spec fn is_popular_entry(p: PopularBook, s: LibraryState, k: int) -> bool {
    let b = s.books[popular_order(s)[k] as int];
    &&& p.id == b.id
    &&& p.title == b.title
    &&& p.author == b.author
    &&& p.category == b.category
    &&& p.status@ == b.status.text()
    &&& p.times_loaned == times_loaned(s.lendings, b.id@)
}

/// The ranking of popular books lists each book once, by loan count from
/// most to least; books with equal counts stay in the order they were added.
pub proof fn lemma_popular_ranking(s: LibraryState)
    requires
        s.books.len() <= usize::MAX,
        s.lendings.len() <= usize::MAX,
    ensures
        popular_order(s).len() == s.books.len(),
        forall|a: int, b: int|
            0 <= a < b < popular_order(s).len() ==> times_loaned(
                s.lendings,
                s.books[#[trigger] popular_order(s)[a] as int].id@,
            ) >= times_loaned(s.lendings, s.books[#[trigger] popular_order(s)[b] as int].id@),
        forall|a: int, b: int|
            0 <= a < b < popular_order(s).len() && times_loaned(
                s.lendings,
                s.books[#[trigger] popular_order(s)[a] as int].id@,
            ) == times_loaned(s.lendings, s.books[#[trigger] popular_order(s)[b] as int].id@)
                ==> popular_order(s)[a] < popular_order(s)[b],
{
    let keys = loan_count_keys(s);
    let order = popular_order(s);
    lemma_stable_order_bounds(keys, s.books.len(), true);
    lemma_stable_order_sorted(keys, s.books.len(), true);
    lemma_stable_order_ties(keys, s.books.len(), true);
    assert forall|a: int, b: int| 0 <= a < b < order.len() implies times_loaned(
        s.lendings,
        s.books[#[trigger] order[a] as int].id@,
    ) >= times_loaned(s.lendings, s.books[#[trigger] order[b] as int].id@) by {
        lemma_times_loaned_bounded(s.lendings, s.books[order[a] as int].id@);
        lemma_times_loaned_bounded(s.lendings, s.books[order[b] as int].id@);
        assert(keys[order[a] as int] == times_loaned(s.lendings, s.books[order[a] as int].id@) as i128);
        assert(keys[order[b] as int] == times_loaned(s.lendings, s.books[order[b] as int].id@) as i128);
    }
    assert forall|a: int, b: int|
        0 <= a < b < order.len() && times_loaned(
            s.lendings,
            s.books[#[trigger] order[a] as int].id@,
        ) == times_loaned(s.lendings, s.books[#[trigger] order[b] as int].id@) implies order[a]
        < order[b] by {
        lemma_times_loaned_bounded(s.lendings, s.books[order[a] as int].id@);
        lemma_times_loaned_bounded(s.lendings, s.books[order[b] as int].id@);
        assert(keys[order[a] as int] == times_loaned(s.lendings, s.books[order[a] as int].id@) as i128);
        assert(keys[order[b] as int] == times_loaned(s.lendings, s.books[order[b] as int].id@) as i128);
    }
}

/// How many books the popular listing holds: five, or all where fewer.
pub open spec fn popular_limit(s: LibraryState) -> int {
    if s.books.len() < 5 {
        s.books.len() as int
    } else {
        5
    }
}

/// The popular listing names no book twice, and every book left out of it
/// was lent no more often than the last book listed.
pub proof fn lemma_popular_top(s: LibraryState)
    requires
        s.wf(),
        s.books.len() <= usize::MAX,
        s.lendings.len() <= usize::MAX,
    ensures
        forall|a: int, b: int|
            0 <= a < b < popular_limit(s) ==> s.books[#[trigger] popular_order(s)[a] as int].id@
                != s.books[#[trigger] popular_order(s)[b] as int].id@,
        forall|j: int|
            0 <= j < s.books.len() && (forall|a: int|
                0 <= a < popular_limit(s) ==> popular_order(s)[a] as int != j) ==> times_loaned(
                s.lendings,
                (#[trigger] s.books[j]).id@,
            ) <= times_loaned(s.lendings, s.books[popular_order(s)[popular_limit(s) - 1] as int].id@),
{
    let n = s.books.len();
    let order = popular_order(s);
    let m = popular_limit(s);
    lemma_popular_ranking(s);
    lemma_stable_order_bounds(loan_count_keys(s), n, true);
    lemma_stable_order_permutation(loan_count_keys(s), n, true);
    assert forall|a: int, b: int| 0 <= a < b < m implies s.books[#[trigger] order[a] as int].id@
        != s.books[#[trigger] order[b] as int].id@ by {
        assert(order[a] != order[b]);
        assert(book_ids(s.books)[order[a] as int] == s.books[order[a] as int].id@);
        assert(book_ids(s.books)[order[b] as int] == s.books[order[b] as int].id@);
    }
    assert forall|j: int|
        0 <= j < n && (forall|a: int| 0 <= a < m ==> order[a] as int != j) implies times_loaned(
        s.lendings,
        (#[trigger] s.books[j]).id@,
    ) <= times_loaned(s.lendings, s.books[order[m - 1] as int].id@) by {
        assert(order.contains(j as usize));
        let p = choose|p: int| 0 <= p < order.len() && order[p] == j as usize;
        assert(p >= m);
        assert(m - 1 < p);
    }
}

impl Library {
    /// How many loans, returned or not, refer to the book `id`.
    pub fn times_loaned(&self, id: &str) -> (r: u64)
        ensures
            r == times_loaned(self@.lendings, id@),
    {
        let mut n: u64 = 0;
        let mut i: usize = 0;
        while i < self.lendings.len()
            invariant
                i <= self@.lendings.len(),
                n == times_loaned(self@.lendings.take(i as int), id@),
            decreases self@.lendings.len() - i,
        {
            assert(self@.lendings.take(i as int + 1).drop_last() =~= self@.lendings.take(i as int));
            proof {
                lemma_times_loaned_bounded(self@.lendings.take(i as int), id@);
            }
            if str_eq(self.lendings[i].book_id.as_str(), id) {
                n = n + 1;
            }
            i += 1;
        }
        assert(self@.lendings.take(i as int) =~= self@.lendings);
        n
    }

    /// The five books lent most often, most first, ties in the order the
    /// books were added; refused with `StorageFailure` where a count could
    /// not fit its 64-bit field.
    pub fn get_popular_books(&self) -> (r: Result<Vec<PopularBook>, LibraryError>)
        ensures
            r is Ok <==> self@.lendings.len() <= i64::MAX,
            r is Err ==> r == Err::<Vec<PopularBook>, LibraryError>(LibraryError::StorageFailure),
            r matches Ok(v) ==> {
                &&& v@.len() == if self@.books.len() < 5 {
                    self@.books.len()
                } else {
                    5
                }
                &&& forall|k: int| 0 <= k < v@.len() ==> is_popular_entry(#[trigger] v@[k], self@, k)
            },
    {
        if self.lendings.len() as u64 > i64::MAX as u64 {
            return Err(LibraryError::StorageFailure);
        }
        let ghost s = self@;
        let mut keys: Vec<i128> = Vec::new();
        let mut i: usize = 0;
        while i < self.books.len()
            invariant
                self@ == s,
                i <= s.books.len(),
                keys@.len() == i,
                forall|m: int| 0 <= m < i ==> #[trigger] keys@[m] == loan_count_keys(s)[m],
            decreases s.books.len() - i,
        {
            let c = self.times_loaned(self.books[i].id.as_str());
            keys.push(c as i128);
            i += 1;
        }
        assert(keys@ =~= loan_count_keys(s));
        let order = stable_order_of(&keys, true);
        let limit: usize = if order.len() < 5 {
            order.len()
        } else {
            5
        };
        let mut out: Vec<PopularBook> = Vec::new();
        let mut k: usize = 0;
        while k < limit
            invariant
                self@ == s,
                s.lendings.len() <= i64::MAX,
                limit <= order@.len(),
                order@ == popular_order(s),
                order@.len() == s.books.len(),
                forall|m: int| 0 <= m < order@.len() ==> (#[trigger] order@[m] as int) < s.books.len(),
                k <= limit,
                out@.len() == k,
                forall|m: int| 0 <= m < k ==> is_popular_entry(#[trigger] out@[m], s, m),
            decreases limit - k,
        {
            let b = &self.books[order[k]];
            let c = self.times_loaned(b.id.as_str());
            proof {
                lemma_times_loaned_bounded(s.lendings, b.id@);
            }
            out.push(
                PopularBook {
                    id: b.id.clone(),
                    title: b.title.clone(),
                    author: b.author.clone(),
                    category: b.category.clone(),
                    status: b.status.as_str().to_owned(),
                    times_loaned: c as i64,
                },
            );
            k += 1;
        }
        Ok(out)
    }
}

/// A loan still out, due before `now`, whose book and borrower both exist.
pub open spec fn is_overdue_row(s: LibraryState, now: i64) -> spec_fn(Lending) -> bool {
    |l: Lending|
        l.status == LendingStatus::Lent && l.due_date < now && s.has_book(l.book_id@)
            && s.has_student(l.student_id@)
}

/// A loan made at or after one day before `now`, whose book and borrower both exist.
pub open spec fn is_recent_row(s: LibraryState, now: i64) -> spec_fn(Lending) -> bool {
    |l: Lending|
        l.lent_at >= now - DAY_MILLIS && s.has_book(l.book_id@) && s.has_student(
            l.student_id@,
        )
}

pub open spec fn overdue_positions(s: LibraryState, now: i64) -> Seq<usize> {
    select(s.lendings, is_overdue_row(s, now), s.lendings.len())
}

pub open spec fn recent_positions(s: LibraryState, now: i64) -> Seq<usize> {
    select(s.lendings, is_recent_row(s, now), s.lendings.len())
}

pub open spec fn due_keys(s: LibraryState, pos: Seq<usize>) -> Seq<i128> {
    pos.map_values(|p: usize| s.lendings[p as int].due_date as i128)
}

pub open spec fn lent_keys(s: LibraryState, pos: Seq<usize>) -> Seq<i128> {
    pos.map_values(|p: usize| s.lendings[p as int].lent_at as i128)
}

/// Overdue loans by due date, earliest first, ties in the order the loans were made.
pub open spec fn overdue_order(s: LibraryState, now: i64) -> Seq<usize> {
    stable_order(due_keys(s, overdue_positions(s, now)), overdue_positions(s, now).len(), false)
}

/// Recent loans by loan time, latest first, ties in the order the loans were made.
pub open spec fn recent_order(s: LibraryState, now: i64) -> Seq<usize> {
    stable_order(lent_keys(s, recent_positions(s, now)), recent_positions(s, now).len(), true)
}

/// Whole days from `due` to `now`, rounded down.
pub open spec fn days_overdue(due: i64, now: i64) -> int {
    (now - due) / (DAY_MILLIS as int)
}

/// `o` is the overdue loan of rank `k`.
pub open spec fn is_overdue_entry(o: OverdueBook, s: LibraryState, now: i64, k: int) -> bool {
    let l = s.lendings[overdue_positions(s, now)[overdue_order(s, now)[k] as int] as int];
    let b = s.books[s.book_pos(l.book_id@)];
    let st = s.students[s.student_pos(l.student_id@)];
    &&& o.id == l.id
    &&& o.book_title == b.title
    &&& o.author == b.author
    &&& o.student_name == st.name
    &&& o.grade == st.grade
    &&& o.student_id == st.student_id
    &&& o.due_date == l.due_date
    &&& o.days_overdue == days_overdue(l.due_date, now)
}

/// `a` is the recent loan of rank `k`.
pub open spec fn is_recent_entry(a: RecentActivity, s: LibraryState, now: i64, k: int) -> bool {
    let l = s.lendings[recent_positions(s, now)[recent_order(s, now)[k] as int] as int];
    let b = s.books[s.book_pos(l.book_id@)];
    let st = s.students[s.student_pos(l.student_id@)];
    &&& a.id == l.id
    &&& a.student_name == st.name
    &&& a.book_title == b.title
    &&& a.author == b.author
    &&& a.activity_type@ == l.status.text()
    &&& a.due_date == Some(l.due_date)
    &&& a.created_at == l.lent_at
}

/// The overdue listing holds exactly the loans still out, due before `now`,
/// whose book and borrower exist, each once, ordered by due date, earliest first.
pub proof fn lemma_overdue_listing(s: LibraryState, now: i64)
    requires
        s.lendings.len() <= usize::MAX,
    ensures
        forall|k: int|
            0 <= k < overdue_order(s, now).len() ==> {
                let l = s.lendings[overdue_positions(s, now)[#[trigger] overdue_order(s, now)[k] as int] as int];
                &&& l.status == LendingStatus::Lent
                &&& l.due_date < now
            },
        forall|a: int, b: int|
            0 <= a < b < overdue_order(s, now).len() ==> s.lendings[overdue_positions(
                s,
                now,
            )[#[trigger] overdue_order(s, now)[a] as int] as int].due_date <= s.lendings[overdue_positions(
                s,
                now,
            )[#[trigger] overdue_order(s, now)[b] as int] as int].due_date,
        forall|i: int|
            0 <= i < s.lendings.len() && #[trigger] is_overdue_row(s, now)(s.lendings[i])
                ==> overdue_positions(s, now).contains(i as usize),
{
    let pos = overdue_positions(s, now);
    let order = overdue_order(s, now);
    lemma_select_bounds(s.lendings, is_overdue_row(s, now), s.lendings.len());
    lemma_stable_order_bounds(due_keys(s, pos), pos.len(), false);
    lemma_stable_order_sorted(due_keys(s, pos), pos.len(), false);
    assert forall|k: int| 0 <= k < order.len() implies {
        let l = s.lendings[pos[#[trigger] order[k] as int] as int];
        &&& l.status == LendingStatus::Lent
        &&& l.due_date < now
    } by {
        lemma_select_member(s.lendings, is_overdue_row(s, now), s.lendings.len(), order[k] as int);
    }
    assert forall|a: int, b: int| 0 <= a < b < order.len() implies s.lendings[pos[#[trigger] order[a] as int] as int].due_date
        <= s.lendings[pos[#[trigger] order[b] as int] as int].due_date by {
        assert(due_keys(s, pos)[order[a] as int] == s.lendings[pos[order[a] as int] as int].due_date as i128);
        assert(due_keys(s, pos)[order[b] as int] == s.lendings[pos[order[b] as int] as int].due_date as i128);
    }
    assert forall|i: int| 0 <= i < s.lendings.len() && #[trigger] is_overdue_row(s, now)(s.lendings[i])
        implies pos.contains(i as usize) by {
        lemma_select_complete(s.lendings, is_overdue_row(s, now), s.lendings.len(), i);
    }
}

impl Library {
    /// Loans still out and due before `now` whose book and borrower exist,
    /// earliest due first, each with the whole days it is overdue.
    pub fn get_overdue_books_at(&self, now: i64) -> (r: Result<Vec<OverdueBook>, LibraryError>)
        requires
            self.wf(),
        ensures
            r matches Ok(v) && v@.len() == overdue_positions(self@, now).len() && forall|k: int|
                0 <= k < v@.len() ==> is_overdue_entry(#[trigger] v@[k], self@, now, k),
    {
        let ghost s = self@;
        let n_lendings = self.lendings.len();
        let mut pos: Vec<usize> = Vec::new();
        let mut i: usize = 0;
        while i < n_lendings
            invariant
                self@ == s,
                n_lendings == s.lendings.len(),
                i <= s.lendings.len(),
                pos@ == select(s.lendings, is_overdue_row(s, now), i as nat),
            decreases s.lendings.len() - i,
        {
            let l = &self.lendings[i];
            if l.status == LendingStatus::Lent && l.due_date < now && self.find_book(
                l.book_id.as_str(),
            ).is_some() && self.find_student(l.student_id.as_str()).is_some() {
                pos.push(i);
            }
            i += 1;
        }
        proof {
            lemma_select_bounds(s.lendings, is_overdue_row(s, now), s.lendings.len());
        }
        let mut keys: Vec<i128> = Vec::new();
        let mut j: usize = 0;
        while j < pos.len()
            invariant
                self@ == s,
                pos@ == overdue_positions(s, now),
                forall|m: int| 0 <= m < pos@.len() ==> (#[trigger] pos@[m] as int) < s.lendings.len(),
                j <= pos@.len(),
                keys@.len() == j,
                forall|m: int| 0 <= m < j ==> #[trigger] keys@[m] == due_keys(s, pos@)[m],
            decreases pos@.len() - j,
        {
            keys.push(self.lendings[pos[j]].due_date as i128);
            j += 1;
        }
        assert(keys@ =~= due_keys(s, pos@));
        let order = stable_order_of(&keys, false);
        let mut out: Vec<OverdueBook> = Vec::new();
        let mut k: usize = 0;
        while k < order.len()
            invariant
                self@ == s,
                self.wf(),
                n_lendings == s.lendings.len(),
                pos@ == overdue_positions(s, now),
                forall|m: int| 0 <= m < pos@.len() ==> (#[trigger] pos@[m] as int) < s.lendings.len(),
                order@ == overdue_order(s, now),
                order@.len() == pos@.len(),
                forall|m: int| 0 <= m < order@.len() ==> (#[trigger] order@[m] as int) < pos@.len(),
                k <= order@.len(),
                out@.len() == k,
                forall|m: int| 0 <= m < k ==> is_overdue_entry(#[trigger] out@[m], s, now, m),
            decreases order@.len() - k,
        {
            let p = pos[order[k]];
            let l = &self.lendings[p];
            proof {
                lemma_select_member(s.lendings, is_overdue_row(s, now), s.lendings.len(), order@[k as int] as int);
            }
            let bi = self.find_book(l.book_id.as_str()).unwrap();
            let si = self.find_student(l.student_id.as_str()).unwrap();
            proof {
                lemma_position(book_ids(s.books), bi as int);
                lemma_position(student_ids(s.students), si as int);
            }
            let b = &self.books[bi];
            let st = &self.students[si];
            let days = ((now as i128 - l.due_date as i128) / DAY_MILLIS as i128) as i64;
            out.push(
                OverdueBook {
                    id: l.id.clone(),
                    book_title: b.title.clone(),
                    author: b.author.clone(),
                    student_name: st.name.clone(),
                    grade: st.grade.clone(),
                    student_id: st.student_id.clone(),
                    due_date: l.due_date,
                    days_overdue: days,
                },
            );
            k += 1;
        }
        assert(out@.len() == overdue_positions(s, now).len());
        Ok(out)
    }

    /// Overdue loans as of the current time.
    pub fn get_overdue_books(&self) -> (r: Result<Vec<OverdueBook>, LibraryError>)
        requires
            self.wf(),
        ensures
            r matches Ok(v) && exists|now: i64|
                v@.len() == overdue_positions(self@, now).len() && forall|k: int|
                    0 <= k < v@.len() ==> is_overdue_entry(#[trigger] v@[k], self@, now, k),
    {
        let now = now_millis();
        self.get_overdue_books_at(now)
    }

    /// Up to ten loans made in the day before `now` whose book and borrower
    /// exist, latest first.
    pub fn get_recent_activity_at(&self, now: i64) -> (r: Result<Vec<RecentActivity>, LibraryError>)
        requires
            self.wf(),
        ensures
            r matches Ok(v) && v@.len() == (if recent_positions(self@, now).len() < 10 {
                recent_positions(self@, now).len()
            } else {
                10
            }) && forall|k: int|
                0 <= k < v@.len() ==> is_recent_entry(#[trigger] v@[k], self@, now, k),
    {
        let ghost s = self@;
        let n_lendings = self.lendings.len();
        let mut pos: Vec<usize> = Vec::new();
        let mut i: usize = 0;
        let since: i128 = now as i128 - DAY_MILLIS as i128;
        while i < n_lendings
            invariant
                self@ == s,
                n_lendings == s.lendings.len(),
                since == now - DAY_MILLIS,
                i <= s.lendings.len(),
                pos@ == select(s.lendings, is_recent_row(s, now), i as nat),
            decreases s.lendings.len() - i,
        {
            let l = &self.lendings[i];
            if l.lent_at as i128 >= since && self.find_book(l.book_id.as_str()).is_some()
                && self.find_student(l.student_id.as_str()).is_some() {
                pos.push(i);
            }
            i += 1;
        }
        proof {
            lemma_select_bounds(s.lendings, is_recent_row(s, now), s.lendings.len());
        }
        let mut keys: Vec<i128> = Vec::new();
        let mut j: usize = 0;
        while j < pos.len()
            invariant
                self@ == s,
                pos@ == recent_positions(s, now),
                forall|m: int| 0 <= m < pos@.len() ==> (#[trigger] pos@[m] as int) < s.lendings.len(),
                j <= pos@.len(),
                keys@.len() == j,
                forall|m: int| 0 <= m < j ==> #[trigger] keys@[m] == lent_keys(s, pos@)[m],
            decreases pos@.len() - j,
        {
            keys.push(self.lendings[pos[j]].lent_at as i128);
            j += 1;
        }
        assert(keys@ =~= lent_keys(s, pos@));
        let order = stable_order_of(&keys, true);
        let limit: usize = if order.len() < 10 {
            order.len()
        } else {
            10
        };
        let mut out: Vec<RecentActivity> = Vec::new();
        let mut k: usize = 0;
        while k < limit
            invariant
                self@ == s,
                self.wf(),
                n_lendings == s.lendings.len(),
                pos@ == recent_positions(s, now),
                forall|m: int| 0 <= m < pos@.len() ==> (#[trigger] pos@[m] as int) < s.lendings.len(),
                order@ == recent_order(s, now),
                order@.len() == pos@.len(),
                forall|m: int| 0 <= m < order@.len() ==> (#[trigger] order@[m] as int) < pos@.len(),
                limit <= order@.len(),
                limit == (if pos@.len() < 10 { pos@.len() } else { 10 }),
                k <= limit,
                out@.len() == k,
                forall|m: int| 0 <= m < k ==> is_recent_entry(#[trigger] out@[m], s, now, m),
            decreases limit - k,
        {
            let p = pos[order[k]];
            let l = &self.lendings[p];
            proof {
                lemma_select_member(s.lendings, is_recent_row(s, now), s.lendings.len(), order@[k as int] as int);
            }
            let bi = self.find_book(l.book_id.as_str()).unwrap();
            let si = self.find_student(l.student_id.as_str()).unwrap();
            proof {
                lemma_position(book_ids(s.books), bi as int);
                lemma_position(student_ids(s.students), si as int);
            }
            let b = &self.books[bi];
            let st = &self.students[si];
            out.push(
                RecentActivity {
                    id: l.id.clone(),
                    student_name: st.name.clone(),
                    book_title: b.title.clone(),
                    author: b.author.clone(),
                    activity_type: l.status.as_str().to_owned(),
                    due_date: Some(l.due_date),
                    created_at: l.lent_at,
                },
            );
            k += 1;
        }
        Ok(out)
    }

    /// Loans made in the last day, as of the current time.
    pub fn get_recent_activity(&self) -> (r: Result<Vec<RecentActivity>, LibraryError>)
        requires
            self.wf(),
        ensures
            r matches Ok(v) && exists|now: i64|
                v@.len() == (if recent_positions(self@, now).len() < 10 {
                    recent_positions(self@, now).len()
                } else {
                    10
                }) && forall|k: int|
                    0 <= k < v@.len() ==> is_recent_entry(#[trigger] v@[k], self@, now, k),
    {
        let now = now_millis();
        self.get_recent_activity_at(now)
    }
}

proof fn lemma_count_absent(s: LibraryState, n: nat, c: Option<Seq<char>>)
    requires
        !category_keys(s, n).contains(c),
    ensures
        category_count(s, n, c) == 0,
    decreases n,
{
    if n > 0 {
        let k = category_keys(s, (n - 1) as nat);
        let cl = lending_category(s, s.lendings[n - 1]);
        if k.contains(cl) {
            lemma_count_absent(s, (n - 1) as nat, c);
        } else {
            assert(k.push(cl)[k.len() as int] == cl);
            if k.contains(c) {
                let m = choose|m: int| 0 <= m < k.len() && k[m] == c;
                assert(k.push(cl)[m] == c);
            }
            lemma_count_absent(s, (n - 1) as nat, c);
        }
    }
}

} // verus!
