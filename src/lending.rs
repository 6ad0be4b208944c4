use vstd::prelude::*;

use crate::ext::{new_id, now_millis, parse_rfc3339_millis, rfc3339_millis};
use crate::model::{
    str_eq, Book, BookStatus, Lending, LendingStatus, LendingWithDetails, LibraryError,
};
use crate::order::{lemma_select_bounds, select, stable_order, stable_order_of};
use crate::stats::lent_keys;
use crate::store::{
    book_ids, lemma_position, lemma_unique_push, lemma_unique_remove, lending_ids, opt_str_view,
    student_ids, Library, LibraryState,
};

verus! {

/// Whether `student` holds a loan that is still out.
pub open spec fn has_active_loan(lendings: Seq<Lending>, student: Seq<char>) -> bool {
    exists|i: int|
        0 <= i < lendings.len() && (#[trigger] lendings[i]).student_id@ == student
            && lendings[i].status == LendingStatus::Lent
}

/// No borrower holds two loans that are still out.
pub open spec fn at_most_one_active_loan(lendings: Seq<Lending>) -> bool {
    forall|i: int, j: int|
        #![trigger lendings[i], lendings[j]]
        0 <= i < lendings.len() && 0 <= j < lendings.len() && lendings[i].status
            == LendingStatus::Lent && lendings[j].status == LendingStatus::Lent
            && lendings[i].student_id@ == lendings[j].student_id@ ==> i == j
}

/// Shelf status follows quantity: available exactly when a copy is on the shelf.
pub open spec fn book_consistent(b: Book) -> bool {
    (b.status == BookStatus::Available) == (b.quantity > 0)
}

pub open spec fn all_books_consistent(books: Seq<Book>) -> bool {
    forall|i: int| 0 <= i < books.len() ==> book_consistent(#[trigger] books[i])
}

/// The book after one copy leaves the shelf.
pub open spec fn checked_out(b: Book) -> Book {
    Book {
        quantity: (b.quantity - 1) as i32,
        status: if b.quantity - 1 <= 0 {
            BookStatus::Unavailable
        } else {
            BookStatus::Available
        },
        ..b
    }
}

/// The book after one copy comes back: always marked available.
pub open spec fn checked_in(b: Book) -> Book {
    Book { quantity: (b.quantity + 1) as i32, status: BookStatus::Available, ..b }
}

/// The checks of a checkout that do not depend on the new record's id, in
/// the order they are made: the borrower's loans first, then whether the
/// book exists. The borrower id is not looked up, as the store keeps no link
/// between records.
pub open spec fn checkout_checks(s: LibraryState, book_id: Seq<char>, student_id: Seq<char>) -> Option<LibraryError> {
    if has_active_loan(s.lendings, student_id) {
        Some(LibraryError::ConstraintViolation)
    } else if !s.has_book(book_id) {
        Some(LibraryError::NotFound)
    } else if s.books[s.book_pos(book_id)].quantity == i32::MIN {
        Some(LibraryError::InvalidInput)
    } else {
        None
    }
}

/// Why a checkout is refused; `None` where it goes ahead.
pub open spec fn checkout_refusal(
    s: LibraryState,
    id: Seq<char>,
    book_id: Seq<char>,
    student_id: Seq<char>,
) -> Option<LibraryError> {
    match checkout_checks(s, book_id, student_id) {
        Some(e) => Some(e),
        None => if s.has_lending(id) {
            Some(LibraryError::StorageFailure)
        } else {
            None
        },
    }
}

/// A lending record as a checkout creates it.
pub open spec fn is_new_lending(
    l: Lending,
    id: Seq<char>,
    book_id: Seq<char>,
    student_id: Seq<char>,
    due_date: i64,
    lent_at: i64,
) -> bool {
    &&& l.id@ == id
    &&& l.book_id@ == book_id
    &&& l.student_id@ == student_id
    &&& l.lent_at == lent_at
    &&& l.returned_at == None::<i64>
    &&& l.status == LendingStatus::Lent
    &&& l.due_date == due_date
}

/// Checkout: from `pre`, the result `r` and the store `post`. A refused
/// checkout changes nothing; one that goes ahead adds the record and takes
/// a copy off the shelf together.
pub open spec fn checkout_post(
    pre: LibraryState,
    post: LibraryState,
    r: Result<(), LibraryError>,
    id: Seq<char>,
    book_id: Seq<char>,
    student_id: Seq<char>,
    due_date: i64,
    lent_at: i64,
) -> bool {
    match checkout_refusal(pre, id, book_id, student_id) {
        Some(e) => r == Err::<(), LibraryError>(e) && post == pre,
        None => {
            &&& r == Ok::<(), LibraryError>(())
            &&& post.books == pre.books.update(
                pre.book_pos(book_id),
                checked_out(pre.books[pre.book_pos(book_id)]),
            )
            &&& post.students == pre.students
            &&& post.lendings.len() == pre.lendings.len() + 1
            &&& post.lendings.drop_last() == pre.lendings
            &&& is_new_lending(post.lendings.last(), id, book_id, student_id, due_date, lent_at)
        },
    }
}

/// Why a return is refused; `None` where it goes ahead.
pub open spec fn return_refusal(s: LibraryState, id: Seq<char>) -> Option<LibraryError> {
    if !s.has_lending(id) {
        Some(LibraryError::NotFound)
    } else if s.lendings[s.lending_pos(id)].status == LendingStatus::Returned {
        Some(LibraryError::InvalidState)
    } else if s.has_book(s.lendings[s.lending_pos(id)].book_id@) && s.books[s.book_pos(
        s.lendings[s.lending_pos(id)].book_id@,
    )].quantity == i32::MAX {
        Some(LibraryError::InvalidInput)
    } else {
        None
    }
}

/// The record after its copy comes back at `at`.
pub open spec fn returned(l: Lending, at: i64) -> Lending {
    Lending { returned_at: Some(at), status: LendingStatus::Returned, ..l }
}

/// Return: from `pre`, the result `r` and the store `post`. The record is
/// closed and, where its book still exists, a copy goes back on the shelf,
/// together; a refused return changes nothing.
pub open spec fn return_post(
    pre: LibraryState,
    post: LibraryState,
    r: Result<(), LibraryError>,
    id: Seq<char>,
    returned_at: i64,
) -> bool {
    match return_refusal(pre, id) {
        Some(e) => r == Err::<(), LibraryError>(e) && post == pre,
        None => {
            let k = pre.lending_pos(id);
            let b = pre.lendings[k].book_id@;
            &&& r == Ok::<(), LibraryError>(())
            &&& post.lendings == pre.lendings.update(k, returned(pre.lendings[k], returned_at))
            &&& post.students == pre.students
            &&& post.books == if pre.has_book(b) {
                pre.books.update(pre.book_pos(b), checked_in(pre.books[pre.book_pos(b)]))
            } else {
                pre.books
            }
        },
    }
}

/// A checkout keeps every borrower at one active loan at most; one by a
/// borrower who already has an active loan is refused with
/// `ConstraintViolation` and leaves the shelf and the records as they were.
pub proof fn lemma_checkout_one_active_loan(
    pre: LibraryState,
    post: LibraryState,
    r: Result<(), LibraryError>,
    id: Seq<char>,
    book_id: Seq<char>,
    student_id: Seq<char>,
    due_date: i64,
    lent_at: i64,
)
    requires
        checkout_post(pre, post, r, id, book_id, student_id, due_date, lent_at),
    ensures
        at_most_one_active_loan(pre.lendings) ==> at_most_one_active_loan(post.lendings),
        has_active_loan(pre.lendings, student_id) ==> r == Err::<(), LibraryError>(LibraryError::ConstraintViolation) && post.books
            == pre.books && post.lendings == pre.lendings,
{
    if checkout_refusal(pre, id, book_id, student_id) is None && at_most_one_active_loan(
        pre.lendings,
    ) {
        let before = pre.lendings;
        let after = post.lendings;
        assert forall|i: int, j: int|
            #![trigger after[i], after[j]]
            0 <= i < after.len() && 0 <= j < after.len() && after[i].status == LendingStatus::Lent
                && after[j].status == LendingStatus::Lent && after[i].student_id@
                == after[j].student_id@ implies i == j by {
            if i < before.len() {
                assert(before[i] == after.drop_last()[i]);
            }
            if j < before.len() {
                assert(before[j] == after.drop_last()[j]);
            }
            if i < before.len() && j == before.len() {
                assert(before[i].student_id@ == student_id && before[i].status == LendingStatus::Lent);
            } else if j < before.len() && i == before.len() {
                assert(before[j].student_id@ == student_id && before[j].status == LendingStatus::Lent);
            }
        }
    }
}

/// After any checkout every book whose status followed its quantity still
/// does, and the book checked out does so in any case.
pub proof fn lemma_checkout_keeps_books_consistent(
    pre: LibraryState,
    post: LibraryState,
    r: Result<(), LibraryError>,
    id: Seq<char>,
    book_id: Seq<char>,
    student_id: Seq<char>,
    due_date: i64,
    lent_at: i64,
)
    requires
        checkout_post(pre, post, r, id, book_id, student_id, due_date, lent_at),
    ensures
        all_books_consistent(pre.books) ==> all_books_consistent(post.books),
        r is Ok ==> book_consistent(post.books[pre.book_pos(book_id)]),
{
    if r is Ok {
        let k = pre.book_pos(book_id);
        assert(0 <= k < pre.books.len());
        if all_books_consistent(pre.books) {
            assert forall|i: int| 0 <= i < post.books.len() implies book_consistent(
                #[trigger] post.books[i],
            ) by {
                if i != k {
                    assert(post.books[i] == pre.books[i]);
                }
            }
        }
    }
}

/// After any return every book whose status followed its quantity still
/// does, and so does the book returned; left out is a return of a book whose
/// quantity had gone below zero, which comes back to zero marked available.
pub proof fn lemma_return_keeps_books_consistent(
    pre: LibraryState,
    post: LibraryState,
    r: Result<(), LibraryError>,
    id: Seq<char>,
    returned_at: i64,
)
    requires
        return_post(pre, post, r, id, returned_at),
        r is Ok && pre.has_book(pre.lendings[pre.lending_pos(id)].book_id@) ==> pre.books[pre.book_pos(
            pre.lendings[pre.lending_pos(id)].book_id@,
        )].quantity >= 0,
    ensures
        all_books_consistent(pre.books) ==> all_books_consistent(post.books),
        r is Ok && pre.has_book(pre.lendings[pre.lending_pos(id)].book_id@) ==> book_consistent(
            post.books[pre.book_pos(pre.lendings[pre.lending_pos(id)].book_id@)],
        ),
{
    if r is Ok {
        let b = pre.lendings[pre.lending_pos(id)].book_id@;
        if pre.has_book(b) {
            let k = pre.book_pos(b);
            assert(0 <= k < pre.books.len());
            if all_books_consistent(pre.books) {
                assert forall|i: int| 0 <= i < post.books.len() implies book_consistent(
                    #[trigger] post.books[i],
                ) by {
                    if i != k {
                        assert(post.books[i] == pre.books[i]);
                    }
                }
            }
        }
    }
}

/// A checkout that goes ahead followed by the return of that loan succeeds
/// and leaves the book at its quantity before the checkout, marked available.
pub proof fn lemma_checkout_return_round_trip(
    s0: LibraryState,
    s1: LibraryState,
    s2: LibraryState,
    r1: Result<(), LibraryError>,
    r2: Result<(), LibraryError>,
    id: Seq<char>,
    book_id: Seq<char>,
    student_id: Seq<char>,
    due_date: i64,
    lent_at: i64,
    returned_at: i64,
)
    requires
        s0.wf(),
        checkout_post(s0, s1, r1, id, book_id, student_id, due_date, lent_at),
        r1 is Ok,
        return_post(s1, s2, r2, id, returned_at),
    ensures
        r2 is Ok,
        s2.books[s0.book_pos(book_id)].quantity == s0.books[s0.book_pos(book_id)].quantity,
        s2.books[s0.book_pos(book_id)].status == BookStatus::Available,
{
    let k = s0.book_pos(book_id);
    assert(0 <= k < s0.books.len());
    assert(book_ids(s1.books) =~= book_ids(s0.books));
    assert(s1.book_pos(book_id) == k);
    assert(s1.has_book(book_id));
    assert(lending_ids(s1.lendings) =~= lending_ids(s0.lendings).push(id));
    lemma_unique_push(lending_ids(s0.lendings), id);
    let n = s0.lendings.len() as int;
    assert(lending_ids(s1.lendings)[n] == id);
    lemma_position(lending_ids(s1.lendings), n);
    assert(s1.lending_pos(id) == n);
    assert(s1.lendings[n].book_id@ == book_id);
}


/// Reads an RFC 3339 timestamp as milliseconds since the Unix epoch;
/// refused with `InvalidInput` where the text is not RFC 3339.
pub fn parse_timestamp(s: &str) -> (r: Result<i64, LibraryError>)
    ensures
        r == match rfc3339_millis(s@) {
            Some(t) => Ok::<i64, LibraryError>(t),
            None => Err::<i64, LibraryError>(LibraryError::InvalidInput),
        },
{
    match parse_rfc3339_millis(s) {
        Some(t) => Ok(t),
        None => Err(LibraryError::InvalidInput),
    }
}

/// `d` is the record `l` joined with its book's title and author and its
/// borrower's name and number, each blank where that record is gone.
pub open spec fn is_lending_details(d: LendingWithDetails, s: LibraryState, l: Lending) -> bool {
    &&& d.id == l.id
    &&& d.book_id == l.book_id
    &&& d.student_id == l.student_id
    &&& d.lent_at == l.lent_at
    &&& d.returned_at == l.returned_at
    &&& d.status == l.status
    &&& d.due_date == l.due_date
    &&& if s.has_book(l.book_id@) {
        d.book_title == s.books[s.book_pos(l.book_id@)].title && d.book_author == s.books[s.book_pos(
            l.book_id@,
        )].author
    } else {
        d.book_title@ == Seq::<char>::empty() && d.book_author@ == Seq::<char>::empty()
    }
    &&& if s.has_student(l.student_id@) {
        d.student_name == s.students[s.student_pos(l.student_id@)].name && d.student_number
            == s.students[s.student_pos(l.student_id@)].student_id
    } else {
        d.student_name@ == Seq::<char>::empty() && d.student_number@ == Seq::<char>::empty()
    }
}

/// Records of the book `book` (any book where `None`) and of the borrower
/// `student` (any borrower where `None`).
pub open spec fn lending_filter(book: Option<Seq<char>>, student: Option<Seq<char>>) -> spec_fn(
    Lending,
) -> bool {
    |l: Lending|
        (book is None || l.book_id@ == book.unwrap()) && (student is None || l.student_id@
            == student.unwrap())
}

pub open spec fn lending_rows(s: LibraryState, book: Option<Seq<char>>, student: Option<Seq<char>>) -> Seq<usize> {
    select(s.lendings, lending_filter(book, student), s.lendings.len())
}

/// Matching records by loan time, latest first, ties in the order the loans were made.
pub open spec fn lending_order(s: LibraryState, book: Option<Seq<char>>, student: Option<Seq<char>>) -> Seq<usize> {
    stable_order(
        lent_keys(s, lending_rows(s, book, student)),
        lending_rows(s, book, student).len(),
        true,
    )
}

/// `v` lists the matching records joined with their details, latest loan first.
pub open spec fn is_lending_listing(
    v: Seq<LendingWithDetails>,
    s: LibraryState,
    book: Option<Seq<char>>,
    student: Option<Seq<char>>,
) -> bool {
    &&& v.len() == lending_rows(s, book, student).len()
    &&& forall|k: int|
        0 <= k < v.len() ==> is_lending_details(
            #[trigger] v[k],
            s,
            s.lendings[lending_rows(s, book, student)[lending_order(s, book, student)[k] as int] as int],
        )
}

impl Library {
    /// Whether the borrower `student_id` holds a loan that is still out.
    pub fn has_active_loan(&self, student_id: &str) -> (r: bool)
        ensures
            r == has_active_loan(self@.lendings, student_id@),
    {
        let mut i: usize = 0;
        while i < self.lendings.len()
            invariant
                i <= self@.lendings.len(),
                forall|k: int|
                    0 <= k < i ==> !((#[trigger] self@.lendings[k]).student_id@ == student_id@
                        && self@.lendings[k].status == LendingStatus::Lent),
            decreases self@.lendings.len() - i,
        {
            if self.lendings[i].status == LendingStatus::Lent && str_eq(
                self.lendings[i].student_id.as_str(),
                student_id,
            ) {
                return true;
            }
            i += 1;
        }
        false
    }

    /// Takes one copy of the book at `i` off the shelf; it is unavailable
    /// once none is left.
    fn decrement_on_checkout(&mut self, i: usize)
        requires
            i < old(self)@.books.len(),
            old(self)@.books[i as int].quantity > i32::MIN,
        ensures
            final(self)@.books == old(self)@.books.update(i as int, checked_out(old(self)@.books[i as int])),
            final(self)@.students == old(self)@.students,
            final(self)@.lendings == old(self)@.lendings,
    {
        let q = self.books[i].quantity - 1;
        self.books[i].quantity = q;
        self.books[i].status = if q <= 0 {
            BookStatus::Unavailable
        } else {
            BookStatus::Available
        };
        assert(self@.books =~= old(self)@.books.update(i as int, checked_out(old(self)@.books[i as int])));
    }

    /// Puts one copy of the book at `i` back on the shelf and marks it available.
    fn increment_on_return(&mut self, i: usize)
        requires
            i < old(self)@.books.len(),
            old(self)@.books[i as int].quantity < i32::MAX,
        ensures
            final(self)@.books == old(self)@.books.update(i as int, checked_in(old(self)@.books[i as int])),
            final(self)@.students == old(self)@.students,
            final(self)@.lendings == old(self)@.lendings,
    {
        let q = self.books[i].quantity + 1;
        self.books[i].quantity = q;
        self.books[i].status = BookStatus::Available;
        assert(self@.books =~= old(self)@.books.update(i as int, checked_in(old(self)@.books[i as int])));
    }

    /// Checks out a copy of `book_id` to `student_id` under the record id
    /// `id`, lent at `lent_at` and due at `due_date`.
    pub fn create_lending_with_id(
        &mut self,
        id: String,
        book_id: &str,
        student_id: &str,
        due_date: i64,
        lent_at: i64,
    ) -> (r: Result<(), LibraryError>)
        requires
            old(self).wf(),
        ensures
            final(self).wf(),
            checkout_post(old(self)@, final(self)@, r, id@, book_id@, student_id@, due_date, lent_at),
            r is Err ==> final(self)@ == old(self)@,
            at_most_one_active_loan(old(self)@.lendings) ==> at_most_one_active_loan(
                final(self)@.lendings,
            ),
    {
        if self.has_active_loan(student_id) {
            return Err(LibraryError::ConstraintViolation);
        }
        let bi = match self.find_book(book_id) {
            Some(i) => i,
            None => {
                return Err(LibraryError::NotFound);
            },
        };
        proof {
            lemma_position(book_ids(self@.books), bi as int);
        }
        if self.books[bi].quantity == i32::MIN {
            return Err(LibraryError::InvalidInput);
        }
        match self.find_lending(id.as_str()) {
            Some(li) => {
                proof {
                    lemma_position(lending_ids(self@.lendings), li as int);
                }
                return Err(LibraryError::StorageFailure);
            },
            None => {},
        }
        let ghost pre = self@;
        let lending = Lending {
            id,
            book_id: book_id.to_owned(),
            student_id: student_id.to_owned(),
            lent_at,
            returned_at: None,
            status: LendingStatus::Lent,
            due_date,
        };
        self.lendings.push(lending);
        self.decrement_on_checkout(bi);
        proof {
            assert(self@.lendings.drop_last() =~= pre.lendings);
            assert(book_ids(self@.books) =~= book_ids(pre.books));
            assert(lending_ids(self@.lendings) =~= lending_ids(pre.lendings).push(id@));
            lemma_unique_push(lending_ids(pre.lendings), id@);
            lemma_checkout_one_active_loan(pre, self@, Ok(()), id@, book_id@, student_id@, due_date, lent_at);
        }
        Ok(())
    }

    /// Checks out a copy of `book_id` to `student_id`, due at `due_date`,
    /// under a fresh random id and stamped with the current time.
    pub fn create_lending(&mut self, book_id: &str, student_id: &str, due_date: i64) -> (r: Result<
        (),
        LibraryError,
    >)
        requires
            old(self).wf(),
        ensures
            final(self).wf(),
            r is Err ==> final(self)@ == old(self)@,
            match checkout_checks(old(self)@, book_id@, student_id@) {
                Some(e) => r == Err::<(), LibraryError>(e),
                None => {
                    &&& r == Err::<(), LibraryError>(LibraryError::StorageFailure) ==> exists|i: int|
                        0 <= i < old(self)@.lendings.len()
                            && (#[trigger] old(self)@.lendings[i]).id@.len() == 36
                    &&& r == Err::<(), LibraryError>(LibraryError::StorageFailure) || checkout_post(
                        old(self)@,
                        final(self)@,
                        r,
                        final(self)@.lendings.last().id@,
                        book_id@,
                        student_id@,
                        due_date,
                        final(self)@.lendings.last().lent_at,
                    )
                },
            },
            at_most_one_active_loan(old(self)@.lendings) ==> at_most_one_active_loan(
                final(self)@.lendings,
            ),
    {
        let ghost pre = self@;
        let id = new_id();
        let ghost drawn = id@;
        let lent_at = now_millis();
        let r = self.create_lending_with_id(id, book_id, student_id, due_date, lent_at);
        proof {
            if checkout_checks(pre, book_id@, student_id@) is None && r is Err {
                let k = choose|k: int|
                    0 <= k < lending_ids(pre.lendings).len() && lending_ids(pre.lendings)[k] == drawn;
                assert(pre.lendings[k].id@ == drawn);
            }
        }
        r
    }

    /// Closes the loan `id` at `returned_at` and puts its copy back on the shelf.
    pub fn return_lending_at(&mut self, id: &str, returned_at: i64) -> (r: Result<(), LibraryError>)
        requires
            old(self).wf(),
        ensures
            final(self).wf(),
            return_post(old(self)@, final(self)@, r, id@, returned_at),
            r is Err ==> final(self)@ == old(self)@,
            at_most_one_active_loan(old(self)@.lendings) ==> at_most_one_active_loan(
                final(self)@.lendings,
            ),
    {
        let li = match self.find_lending(id) {
            Some(i) => i,
            None => {
                return Err(LibraryError::NotFound);
            },
        };
        proof {
            lemma_position(lending_ids(self@.lendings), li as int);
        }
        if self.lendings[li].status == LendingStatus::Returned {
            return Err(LibraryError::InvalidState);
        }
        let bi = self.find_book(self.lendings[li].book_id.as_str());
        match bi {
            Some(b) => {
                proof {
                    lemma_position(book_ids(self@.books), b as int);
                }
                if self.books[b].quantity == i32::MAX {
                    return Err(LibraryError::InvalidInput);
                }
            },
            None => {},
        }
        let ghost pre = self@;
        self.lendings[li].returned_at = Some(returned_at);
        self.lendings[li].status = LendingStatus::Returned;
        assert(self@.lendings =~= pre.lendings.update(li as int, returned(pre.lendings[li as int], returned_at)));
        match bi {
            Some(b) => {
                self.increment_on_return(b);
            },
            None => {},
        }
        proof {
            assert(book_ids(self@.books) =~= book_ids(pre.books));
            assert(lending_ids(self@.lendings) =~= lending_ids(pre.lendings));
            let post = self@.lendings;
            if at_most_one_active_loan(pre.lendings) {
                assert forall|i: int, j: int|
                    #![trigger post[i], post[j]]
                    0 <= i < post.len() && 0 <= j < post.len() && post[i].status
                        == LendingStatus::Lent && post[j].status == LendingStatus::Lent
                        && post[i].student_id@ == post[j].student_id@ implies i == j by {
                    assert(pre.lendings[i].status == LendingStatus::Lent);
                    assert(pre.lendings[j].status == LendingStatus::Lent);
                }
            }
        }
        Ok(())
    }

    /// Closes the loan `id` at the current time and puts its copy back on the shelf.
    pub fn return_lending(&mut self, id: &str) -> (r: Result<(), LibraryError>)
        requires
            old(self).wf(),
        ensures
            final(self).wf(),
            r is Err ==> final(self)@ == old(self)@,
            match return_refusal(old(self)@, id@) {
                Some(e) => r == Err::<(), LibraryError>(e),
                None => return_post(
                    old(self)@,
                    final(self)@,
                    r,
                    id@,
                    final(self)@.lendings[old(self)@.lending_pos(id@)].returned_at.unwrap(),
                ),
            },
            at_most_one_active_loan(old(self)@.lendings) ==> at_most_one_active_loan(
                final(self)@.lendings,
            ),
    {
        let now = now_millis();
        self.return_lending_at(id, now)
    }

    fn details_of(&self, l: &Lending) -> (r: LendingWithDetails)
        requires
            self.wf(),
        ensures
            is_lending_details(r, self@, *l),
    {
        let (book_title, book_author) = match self.find_book(l.book_id.as_str()) {
            Some(b) => {
                proof {
                    lemma_position(book_ids(self@.books), b as int);
                }
                (self.books[b].title.clone(), self.books[b].author.clone())
            },
            None => (String::new(), String::new()),
        };
        let (student_name, student_number) = match self.find_student(l.student_id.as_str()) {
            Some(t) => {
                proof {
                    lemma_position(student_ids(self@.students), t as int);
                }
                (self.students[t].name.clone(), self.students[t].student_id.clone())
            },
            None => (String::new(), String::new()),
        };
        LendingWithDetails {
            id: l.id.clone(),
            book_id: l.book_id.clone(),
            student_id: l.student_id.clone(),
            lent_at: l.lent_at,
            returned_at: l.returned_at,
            status: l.status,
            due_date: l.due_date,
            book_title,
            book_author,
            student_name,
            student_number,
        }
    }

    fn keeps(l: &Lending, book: Option<&str>, student: Option<&str>) -> (r: bool)
        ensures
            r == lending_filter(opt_str_view(book), opt_str_view(student))(*l),
    {
        let by_book = match book {
            Some(b) => str_eq(l.book_id.as_str(), b),
            None => true,
        };
        let by_student = match student {
            Some(t) => str_eq(l.student_id.as_str(), t),
            None => true,
        };
        by_book && by_student
    }

    fn lendings_where(&self, book: Option<&str>, student: Option<&str>) -> (r: Vec<LendingWithDetails>)
        requires
            self.wf(),
        ensures
            is_lending_listing(r@, self@, opt_str_view(book), opt_str_view(student)),
    {
        let ghost s = self@;
        let ghost bk = opt_str_view(book);
        let ghost st = opt_str_view(student);
        let n_lendings = self.lendings.len();
        let mut pos: Vec<usize> = Vec::new();
        let mut i: usize = 0;
        while i < n_lendings
            invariant
                self@ == s,
                n_lendings == s.lendings.len(),
                bk == opt_str_view(book),
                st == opt_str_view(student),
                i <= s.lendings.len(),
                pos@ == select(s.lendings, lending_filter(bk, st), i as nat),
            decreases s.lendings.len() - i,
        {
            if Self::keeps(&self.lendings[i], book, student) {
                pos.push(i);
            }
            i += 1;
        }
        proof {
            lemma_select_bounds(s.lendings, lending_filter(bk, st), s.lendings.len());
        }
        let mut keys: Vec<i128> = Vec::new();
        let mut j: usize = 0;
        while j < pos.len()
            invariant
                self@ == s,
                pos@ == lending_rows(s, bk, st),
                forall|m: int| 0 <= m < pos@.len() ==> (#[trigger] pos@[m] as int) < s.lendings.len(),
                j <= pos@.len(),
                keys@.len() == j,
                forall|m: int| 0 <= m < j ==> #[trigger] keys@[m] == lent_keys(s, pos@)[m],
            decreases pos@.len() - j,
        {
            keys.push(self.lendings[pos[j]].lent_at as i128);
            j += 1;
        }
        assert(keys@ =~= lent_keys(s, pos@));
        let order = stable_order_of(&keys, true);
        let mut out: Vec<LendingWithDetails> = Vec::new();
        let mut k: usize = 0;
        while k < order.len()
            invariant
                self@ == s,
                self.wf(),
                pos@ == lending_rows(s, bk, st),
                forall|m: int| 0 <= m < pos@.len() ==> (#[trigger] pos@[m] as int) < s.lendings.len(),
                order@ == lending_order(s, bk, st),
                order@.len() == pos@.len(),
                forall|m: int| 0 <= m < order@.len() ==> (#[trigger] order@[m] as int) < pos@.len(),
                k <= order@.len(),
                out@.len() == k,
                forall|m: int|
                    0 <= m < k ==> is_lending_details(
                        #[trigger] out@[m],
                        s,
                        s.lendings[pos@[order@[m] as int] as int],
                    ),
            decreases order@.len() - k,
        {
            let d = self.details_of(&self.lendings[pos[order[k]]]);
            out.push(d);
            k += 1;
        }
        out
    }

    /// Every lending record with its details, latest loan first.
    pub fn get_all_lendings(&self) -> (r: Result<Vec<LendingWithDetails>, LibraryError>)
        requires
            self.wf(),
        ensures
            r matches Ok(v) && is_lending_listing(v@, self@, None, None),
    {
        Ok(self.lendings_where(None, None))
    }

    /// The records of the book `id` with their details, latest loan first.
    pub fn get_lending_records_by_book_id(&self, id: &str) -> (r: Result<Vec<LendingWithDetails>, LibraryError>)
        requires
            self.wf(),
        ensures
            r matches Ok(v) && is_lending_listing(v@, self@, Some(id@), None),
    {
        Ok(self.lendings_where(Some(id), None))
    }

    /// The records of the borrower `id` with their details, latest loan first.
    pub fn get_lending_records_by_student_id(&self, id: &str) -> (r: Result<Vec<LendingWithDetails>, LibraryError>)
        requires
            self.wf(),
        ensures
            r matches Ok(v) && is_lending_listing(v@, self@, None, Some(id@)),
    {
        Ok(self.lendings_where(None, Some(id)))
    }

    /// The record `id` with its details, if there is one.
    pub fn get_lending_by_id(&self, id: &str) -> (r: Result<Option<LendingWithDetails>, LibraryError>)
        requires
            self.wf(),
        ensures
            r matches Ok(o) && (o is Some <==> self@.has_lending(id@)) && (o matches Some(d)
                ==> is_lending_details(d, self@, self@.lendings[self@.lending_pos(id@)])),
    {
        match self.find_lending(id) {
            Some(i) => {
                proof {
                    lemma_position(lending_ids(self@.lendings), i as int);
                }
                Ok(Some(self.details_of(&self.lendings[i])))
            },
            None => Ok(None),
        }
    }

    /// Corrects the record `id`: its book, borrower, due date and return
    /// time are overwritten. Status and shelf quantities stay as they are,
    /// and the one-loan rule is not checked again. Nothing changes where no
    /// record has that id.
    pub fn update_lending(
        &mut self,
        id: &str,
        book_id: &str,
        student_id: &str,
        due_date: i64,
        returned_at: i64,
    ) -> (r: Result<(), LibraryError>)
        requires
            old(self).wf(),
        ensures
            r == Ok::<(), LibraryError>(()),
            final(self).wf(),
            final(self)@.books == old(self)@.books,
            final(self)@.students == old(self)@.students,
            if old(self)@.has_lending(id@) {
                let k = old(self)@.lending_pos(id@);
                let l = final(self)@.lendings[k];
                &&& final(self)@.lendings == old(self)@.lendings.update(k, l)
                &&& l.id == old(self)@.lendings[k].id
                &&& l.book_id@ == book_id@
                &&& l.student_id@ == student_id@
                &&& l.lent_at == old(self)@.lendings[k].lent_at
                &&& l.returned_at == Some(returned_at)
                &&& l.status == old(self)@.lendings[k].status
                &&& l.due_date == due_date
            } else {
                final(self)@.lendings == old(self)@.lendings
            },
    {
        match self.find_lending(id) {
            Some(i) => {
                proof {
                    lemma_position(lending_ids(self@.lendings), i as int);
                }
                let ghost pre = self@;
                self.lendings[i].book_id = book_id.to_owned();
                self.lendings[i].student_id = student_id.to_owned();
                self.lendings[i].due_date = due_date;
                self.lendings[i].returned_at = Some(returned_at);
                assert(self@.lendings =~= pre.lendings.update(i as int, self@.lendings[i as int]));
                assert(lending_ids(self@.lendings) =~= lending_ids(pre.lendings));
            },
            None => {},
        }
        Ok(())
    }

    /// Removes the record `id`. The shelf is not touched: a copy that was
    /// out stays counted as out. Nothing changes where no record has that id.
    pub fn delete_lending(&mut self, id: &str) -> (r: Result<(), LibraryError>)
        requires
            old(self).wf(),
        ensures
            r == Ok::<(), LibraryError>(()),
            final(self).wf(),
            final(self)@.books == old(self)@.books,
            final(self)@.students == old(self)@.students,
            final(self)@.lendings == if old(self)@.has_lending(id@) {
                old(self)@.lendings.remove(old(self)@.lending_pos(id@))
            } else {
                old(self)@.lendings
            },
            at_most_one_active_loan(old(self)@.lendings) ==> at_most_one_active_loan(
                final(self)@.lendings,
            ),
    {
        match self.find_lending(id) {
            Some(i) => {
                proof {
                    lemma_position(lending_ids(self@.lendings), i as int);
                    lemma_unique_remove(lending_ids(self@.lendings), i as int);
                }
                let ghost pre = self@;
                self.lendings.remove(i);
                proof {
                    assert(lending_ids(self@.lendings) =~= lending_ids(pre.lendings).remove(i as int));
                    let post = self@.lendings;
                    if at_most_one_active_loan(pre.lendings) {
                        assert forall|a: int, b: int|
                            #![trigger post[a], post[b]]
                            0 <= a < post.len() && 0 <= b < post.len() && post[a].status
                                == LendingStatus::Lent && post[b].status == LendingStatus::Lent
                                && post[a].student_id@ == post[b].student_id@ implies a == b by {
                            let oa = if a < i { a } else { a + 1 };
                            let ob = if b < i { b } else { b + 1 };
                            assert(post[a] == pre.lendings[oa]);
                            assert(post[b] == pre.lendings[ob]);
                        }
                    }
                }
            },
            None => {},
        }
        Ok(())
    }

}

} // verus!
