use vstd::prelude::*;

use crate::ext::{new_id, now_millis};
use crate::model::{str_eq, Book, BookStatus, Lending, LibraryError, Student, StudentStatus};
use crate::order::{stable_order, stable_order_of};

verus! {

/// No identifier occurs twice.
pub open spec fn ids_unique(ids: Seq<Seq<char>>) -> bool {
    forall|i: int, j: int|
        0 <= i < ids.len() && 0 <= j < ids.len() && #[trigger] ids[i] == #[trigger] ids[j] ==> i == j
}

/// The position of `id` in `ids`; meaningful where `ids` contains it.
pub open spec fn position(ids: Seq<Seq<char>>, id: Seq<char>) -> int {
    choose|i: int| 0 <= i < ids.len() && ids[i] == id
}

pub open spec fn book_ids(books: Seq<Book>) -> Seq<Seq<char>> {
    books.map_values(|b: Book| b.id@)
}

pub open spec fn student_ids(students: Seq<Student>) -> Seq<Seq<char>> {
    students.map_values(|s: Student| s.id@)
}

pub open spec fn lending_ids(lendings: Seq<Lending>) -> Seq<Seq<char>> {
    lendings.map_values(|l: Lending| l.id@)
}

/// The contents of a store: its three tables, each in insertion order.
pub struct LibraryState {
    pub books: Seq<Book>,
    pub students: Seq<Student>,
    pub lendings: Seq<Lending>,
}

impl LibraryState {
    /// Every table is keyed by its identifier.
    pub open spec fn wf(self) -> bool {
        &&& ids_unique(book_ids(self.books))
        &&& ids_unique(student_ids(self.students))
        &&& ids_unique(lending_ids(self.lendings))
    }

    pub open spec fn has_book(self, id: Seq<char>) -> bool {
        book_ids(self.books).contains(id)
    }

    pub open spec fn has_student(self, id: Seq<char>) -> bool {
        student_ids(self.students).contains(id)
    }

    pub open spec fn has_lending(self, id: Seq<char>) -> bool {
        lending_ids(self.lendings).contains(id)
    }

    pub open spec fn book_pos(self, id: Seq<char>) -> int {
        position(book_ids(self.books), id)
    }

    pub open spec fn student_pos(self, id: Seq<char>) -> int {
        position(student_ids(self.students), id)
    }

    pub open spec fn lending_pos(self, id: Seq<char>) -> int {
        position(lending_ids(self.lendings), id)
    }
}

/// A book as created: on the shelf with the given fields, marked available.
pub open spec fn is_new_book(
    b: Book,
    id: Seq<char>,
    title: Seq<char>,
    author: Seq<char>,
    quantity: i32,
    isbn: Seq<char>,
    category: Seq<char>,
    created_at: i64,
) -> bool {
    &&& b.id@ == id
    &&& b.title@ == title
    &&& b.author@ == author
    &&& b.quantity == quantity
    &&& b.isbn@ == isbn
    &&& b.category@ == category
    &&& b.status == BookStatus::Available
    &&& b.created_at == created_at
}

/// `new` is `old` with every editable field overwritten; id and creation time stay.
pub open spec fn is_edited_book(
    new: Book,
    old: Book,
    title: Seq<char>,
    author: Seq<char>,
    quantity: i32,
    isbn: Seq<char>,
    category: Seq<char>,
    status: BookStatus,
) -> bool {
    &&& new.id == old.id
    &&& new.title@ == title
    &&& new.author@ == author
    &&& new.quantity == quantity
    &&& new.isbn@ == isbn
    &&& new.category@ == category
    &&& new.status == status
    &&& new.created_at == old.created_at
}

/// A borrower as registered: active, with the given fields.
pub open spec fn is_new_student(
    s: Student,
    id: Seq<char>,
    name: Seq<char>,
    grade: Seq<char>,
    phone_number: Option<Seq<char>>,
    student_id: Seq<char>,
    created_at: i64,
) -> bool {
    &&& s.id@ == id
    &&& s.name@ == name
    &&& s.grade@ == grade
    &&& opt_view(s.phone_number) == phone_number
    &&& s.student_id@ == student_id
    &&& s.status == StudentStatus::Active
    &&& s.created_at == created_at
}

/// `new` is `old` with every editable field overwritten; id and creation time stay.
pub open spec fn is_edited_student(
    new: Student,
    old: Student,
    name: Seq<char>,
    grade: Seq<char>,
    phone_number: Option<Seq<char>>,
    student_id: Seq<char>,
    status: StudentStatus,
) -> bool {
    &&& new.id == old.id
    &&& new.name@ == name
    &&& new.grade@ == grade
    &&& opt_view(new.phone_number) == phone_number
    &&& new.student_id@ == student_id
    &&& new.status == status
    &&& new.created_at == old.created_at
}

pub open spec fn opt_view(s: Option<String>) -> Option<Seq<char>> {
    match s {
        Some(v) => Some(v@),
        None => None,
    }
}

pub open spec fn opt_str_view(s: Option<&str>) -> Option<Seq<char>> {
    match s {
        Some(v) => Some(v@),
        None => None,
    }
}

pub proof fn lemma_position(ids: Seq<Seq<char>>, i: int)
    requires
        ids_unique(ids),
        0 <= i < ids.len(),
    ensures
        ids.contains(ids[i]),
        position(ids, ids[i]) == i,
{
    assert(ids[i] == ids[i]);
    let p = position(ids, ids[i]);
    assert(0 <= p < ids.len() && ids[p] == ids[i]);
}

pub proof fn lemma_unique_push(ids: Seq<Seq<char>>, id: Seq<char>)
    requires
        ids_unique(ids),
        !ids.contains(id),
    ensures
        ids_unique(ids.push(id)),
{
    let n = ids.push(id);
    assert forall|i: int, j: int|
        0 <= i < n.len() && 0 <= j < n.len() && #[trigger] n[i] == #[trigger] n[j] implies i == j by {
        if i < ids.len() && j == ids.len() {
            assert(ids[i] == id);
        } else if j < ids.len() && i == ids.len() {
            assert(ids[j] == id);
        } else if i < ids.len() && j < ids.len() {
            assert(ids[i] == ids[j]);
        }
    }
}

pub proof fn lemma_unique_remove(ids: Seq<Seq<char>>, k: int)
    requires
        ids_unique(ids),
        0 <= k < ids.len(),
    ensures
        ids_unique(ids.remove(k)),
{
    let n = ids.remove(k);
    assert forall|i: int, j: int|
        0 <= i < n.len() && 0 <= j < n.len() && #[trigger] n[i] == #[trigger] n[j] implies i == j by {
        let oi = if i < k { i } else { i + 1 };
        let oj = if j < k { j } else { j + 1 };
        assert(n[i] == ids[oi]);
        assert(n[j] == ids[oj]);
    }
}

/// Books by creation time, newest first, ties in the order they were added.
pub open spec fn book_listing_order(books: Seq<Book>) -> Seq<usize> {
    stable_order(books.map_values(|b: Book| b.created_at as i128), books.len(), true)
}

/// Borrowers by creation time, newest first, ties in the order they were added.
pub open spec fn student_listing_order(students: Seq<Student>) -> Seq<usize> {
    stable_order(students.map_values(|t: Student| t.created_at as i128), students.len(), true)
}

/// The whole store: books, borrowers and lending records.
pub struct Library {
    pub books: Vec<Book>,
    pub students: Vec<Student>,
    pub lendings: Vec<Lending>,
}

impl View for Library {
    type V = LibraryState;

    open spec fn view(&self) -> LibraryState {
        LibraryState { books: self.books@, students: self.students@, lendings: self.lendings@ }
    }
}

impl Library {
    pub open spec fn wf(&self) -> bool {
        self@.wf()
    }

    /// An empty store.
    pub fn new() -> (r: Library)
        ensures
            r.wf(),
            r@.books.len() == 0,
            r@.students.len() == 0,
            r@.lendings.len() == 0,
    {
        Library { books: Vec::new(), students: Vec::new(), lendings: Vec::new() }
    }

    /// Every book, newest first.
    pub fn get_all_books(&self) -> (r: Result<Vec<Book>, LibraryError>)
        ensures
            r matches Ok(v) && v@ == book_listing_order(self@.books).map_values(
                |p: usize| self@.books[p as int],
            ),
    {
        let mut keys: Vec<i128> = Vec::new();
        let mut i: usize = 0;
        while i < self.books.len()
            invariant
                i <= self@.books.len(),
                keys@.len() == i,
                forall|m: int| 0 <= m < i ==> #[trigger] keys@[m] == self@.books[m].created_at as i128,
            decreases self@.books.len() - i,
        {
            keys.push(self.books[i].created_at as i128);
            i += 1;
        }
        assert(keys@ =~= self@.books.map_values(|b: Book| b.created_at as i128));
        let order = stable_order_of(&keys, true);
        let mut out: Vec<Book> = Vec::new();
        let mut k: usize = 0;
        while k < order.len()
            invariant
                order@ == book_listing_order(self@.books),
                order@.len() == self@.books.len(),
                forall|m: int| 0 <= m < order@.len() ==> (#[trigger] order@[m] as int) < self@.books.len(),
                k <= order@.len(),
                out@.len() == k,
                forall|m: int| 0 <= m < k ==> #[trigger] out@[m] == self@.books[order@[m] as int],
            decreases order@.len() - k,
        {
            out.push(self.books[order[k]].duplicate());
            k += 1;
        }
        assert(out@ =~= order@.map_values(|p: usize| self@.books[p as int]));
        Ok(out)
    }

    /// The book `id`, if there is one.
    pub fn get_book_by_id(&self, id: &str) -> (r: Result<Option<Book>, LibraryError>)
        requires
            self.wf(),
        ensures
            r == Ok::<Option<Book>, LibraryError>(
                if self@.has_book(id@) {
                    Some(self@.books[self@.book_pos(id@)])
                } else {
                    None
                },
            ),
    {
        match self.find_book(id) {
            Some(i) => {
                proof {
                    lemma_position(book_ids(self@.books), i as int);
                }
                Ok(Some(self.books[i].duplicate()))
            },
            None => Ok(None),
        }
    }

    /// Adds a book under `id`, created at `created_at` and marked available
    /// whatever its quantity; refused with `StorageFailure` where the id is taken.
    pub fn create_book_with_id(
        &mut self,
        id: String,
        title: &str,
        author: &str,
        quantity: i32,
        isbn: &str,
        category: &str,
        created_at: i64,
    ) -> (r: Result<(), LibraryError>)
        requires
            old(self).wf(),
        ensures
            final(self).wf(),
            final(self)@.students == old(self)@.students,
            final(self)@.lendings == old(self)@.lendings,
            if old(self)@.has_book(id@) {
                r == Err::<(), LibraryError>(LibraryError::StorageFailure) && final(self)@ == old(self)@
            } else {
                &&& r == Ok::<(), LibraryError>(())
                &&& final(self)@.books.len() == old(self)@.books.len() + 1
                &&& final(self)@.books.drop_last() == old(self)@.books
                &&& is_new_book(final(self)@.books.last(), id@, title@, author@, quantity, isbn@, category@, created_at)
            },
    {
        match self.find_book(id.as_str()) {
            Some(_) => {
                return Err(LibraryError::StorageFailure);
            },
            None => {},
        }
        let ghost pre = self@;
        self.books.push(
            Book {
                id,
                title: title.to_owned(),
                author: author.to_owned(),
                quantity,
                isbn: isbn.to_owned(),
                category: category.to_owned(),
                status: BookStatus::Available,
                created_at,
            },
        );
        proof {
            assert(self@.books.drop_last() =~= pre.books);
            assert(book_ids(self@.books) =~= book_ids(pre.books).push(self@.books.last().id@));
            lemma_unique_push(book_ids(pre.books), self@.books.last().id@);
        }
        Ok(())
    }

    /// Adds a book under a fresh random id, stamped with the current time.
    pub fn create_book(
        &mut self,
        title: &str,
        author: &str,
        quantity: i32,
        isbn: &str,
        category: &str,
    ) -> (r: Result<(), LibraryError>)
        requires
            old(self).wf(),
        ensures
            final(self).wf(),
            final(self)@.students == old(self)@.students,
            final(self)@.lendings == old(self)@.lendings,
            r is Err ==> r == Err::<(), LibraryError>(LibraryError::StorageFailure) && final(self)@
                == old(self)@,
            r is Err ==> exists|i: int|
                0 <= i < old(self)@.books.len() && (#[trigger] old(self)@.books[i]).id@.len() == 36,
            r is Ok ==> {
                &&& final(self)@.books.len() == old(self)@.books.len() + 1
                &&& final(self)@.books.drop_last() == old(self)@.books
                &&& is_new_book(
                    final(self)@.books.last(),
                    final(self)@.books.last().id@,
                    title@,
                    author@,
                    quantity,
                    isbn@,
                    category@,
                    final(self)@.books.last().created_at,
                )
            },
    {
        let ghost pre = self@;
        let id = new_id();
        let ghost drawn = id@;
        let created_at = now_millis();
        let r = self.create_book_with_id(id, title, author, quantity, isbn, category, created_at);
        proof {
            if r is Err {
                let k = choose|k: int| 0 <= k < book_ids(pre.books).len() && book_ids(pre.books)[k] == drawn;
                assert(pre.books[k].id@ == drawn);
            }
        }
        r
    }

    /// Overwrites every editable field of the book `id`, status included;
    /// the status is not recomputed from the quantity. Nothing changes where
    /// no book has that id.
    pub fn update_book(
        &mut self,
        id: &str,
        title: &str,
        author: &str,
        quantity: i32,
        isbn: &str,
        category: &str,
        status: BookStatus,
    ) -> (r: Result<(), LibraryError>)
        requires
            old(self).wf(),
        ensures
            r == Ok::<(), LibraryError>(()),
            final(self).wf(),
            final(self)@.students == old(self)@.students,
            final(self)@.lendings == old(self)@.lendings,
            if old(self)@.has_book(id@) {
                let k = old(self)@.book_pos(id@);
                &&& final(self)@.books == old(self)@.books.update(k, final(self)@.books[k])
                &&& is_edited_book(final(self)@.books[k], old(self)@.books[k], title@, author@, quantity, isbn@, category@, status)
            } else {
                final(self)@.books == old(self)@.books
            },
    {
        match self.find_book(id) {
            Some(i) => {
                proof {
                    lemma_position(book_ids(self@.books), i as int);
                }
                let ghost pre = self@;
                self.books[i].title = title.to_owned();
                self.books[i].author = author.to_owned();
                self.books[i].quantity = quantity;
                self.books[i].isbn = isbn.to_owned();
                self.books[i].category = category.to_owned();
                self.books[i].status = status;
                assert(self@.books =~= pre.books.update(i as int, self@.books[i as int]));
                assert(book_ids(self@.books) =~= book_ids(pre.books));
            },
            None => {},
        }
        Ok(())
    }

    /// Removes the book `id`; records that refer to it stay. Nothing changes
    /// where no book has that id.
    pub fn delete_book(&mut self, id: &str) -> (r: Result<(), LibraryError>)
        requires
            old(self).wf(),
        ensures
            r == Ok::<(), LibraryError>(()),
            final(self).wf(),
            final(self)@.students == old(self)@.students,
            final(self)@.lendings == old(self)@.lendings,
            final(self)@.books == if old(self)@.has_book(id@) {
                old(self)@.books.remove(old(self)@.book_pos(id@))
            } else {
                old(self)@.books
            },
    {
        match self.find_book(id) {
            Some(i) => {
                proof {
                    lemma_position(book_ids(self@.books), i as int);
                    lemma_unique_remove(book_ids(self@.books), i as int);
                }
                let ghost pre = self@;
                self.books.remove(i);
                assert(book_ids(self@.books) =~= book_ids(pre.books).remove(i as int));
            },
            None => {},
        }
        Ok(())
    }

    /// Every borrower, newest first.
    pub fn get_all_students(&self) -> (r: Result<Vec<Student>, LibraryError>)
        ensures
            r matches Ok(v) && v@ == student_listing_order(self@.students).map_values(
                |p: usize| self@.students[p as int],
            ),
    {
        let mut keys: Vec<i128> = Vec::new();
        let mut i: usize = 0;
        while i < self.students.len()
            invariant
                i <= self@.students.len(),
                keys@.len() == i,
                forall|m: int| 0 <= m < i ==> #[trigger] keys@[m] == self@.students[m].created_at as i128,
            decreases self@.students.len() - i,
        {
            keys.push(self.students[i].created_at as i128);
            i += 1;
        }
        assert(keys@ =~= self@.students.map_values(|t: Student| t.created_at as i128));
        let order = stable_order_of(&keys, true);
        let mut out: Vec<Student> = Vec::new();
        let mut k: usize = 0;
        while k < order.len()
            invariant
                order@ == student_listing_order(self@.students),
                order@.len() == self@.students.len(),
                forall|m: int| 0 <= m < order@.len() ==> (#[trigger] order@[m] as int) < self@.students.len(),
                k <= order@.len(),
                out@.len() == k,
                forall|m: int| 0 <= m < k ==> #[trigger] out@[m] == self@.students[order@[m] as int],
            decreases order@.len() - k,
        {
            out.push(self.students[order[k]].duplicate());
            k += 1;
        }
        assert(out@ =~= order@.map_values(|p: usize| self@.students[p as int]));
        Ok(out)
    }

    /// The borrower `id`, if there is one.
    pub fn get_student_by_id(&self, id: &str) -> (r: Result<Option<Student>, LibraryError>)
        requires
            self.wf(),
        ensures
            r == Ok::<Option<Student>, LibraryError>(
                if self@.has_student(id@) {
                    Some(self@.students[self@.student_pos(id@)])
                } else {
                    None
                },
            ),
    {
        match self.find_student(id) {
            Some(i) => {
                proof {
                    lemma_position(student_ids(self@.students), i as int);
                }
                Ok(Some(self.students[i].duplicate()))
            },
            None => Ok(None),
        }
    }

    /// Registers a borrower under `id`, created at `created_at` and active;
    /// refused with `StorageFailure` where the id is taken.
    pub fn create_student_with_id(
        &mut self,
        id: String,
        name: &str,
        grade: &str,
        phone_number: Option<&str>,
        student_id: &str,
        created_at: i64,
    ) -> (r: Result<(), LibraryError>)
        requires
            old(self).wf(),
        ensures
            final(self).wf(),
            final(self)@.books == old(self)@.books,
            final(self)@.lendings == old(self)@.lendings,
            if old(self)@.has_student(id@) {
                r == Err::<(), LibraryError>(LibraryError::StorageFailure) && final(self)@ == old(self)@
            } else {
                &&& r == Ok::<(), LibraryError>(())
                &&& final(self)@.students.len() == old(self)@.students.len() + 1
                &&& final(self)@.students.drop_last() == old(self)@.students
                &&& is_new_student(final(self)@.students.last(), id@, name@, grade@, opt_str_view(phone_number), student_id@, created_at)
            },
    {
        match self.find_student(id.as_str()) {
            Some(_) => {
                return Err(LibraryError::StorageFailure);
            },
            None => {},
        }
        let ghost pre = self@;
        let phone = match phone_number {
            Some(p) => Some(p.to_owned()),
            None => None,
        };
        self.students.push(
            Student {
                id,
                name: name.to_owned(),
                grade: grade.to_owned(),
                phone_number: phone,
                student_id: student_id.to_owned(),
                status: StudentStatus::Active,
                created_at,
            },
        );
        proof {
            assert(self@.students.drop_last() =~= pre.students);
            assert(student_ids(self@.students) =~= student_ids(pre.students).push(self@.students.last().id@));
            lemma_unique_push(student_ids(pre.students), self@.students.last().id@);
        }
        Ok(())
    }

    /// Registers a borrower under a fresh random id, stamped with the current time.
    pub fn create_student(
        &mut self,
        name: &str,
        grade: &str,
        phone_number: Option<&str>,
        student_id: &str,
    ) -> (r: Result<(), LibraryError>)
        requires
            old(self).wf(),
        ensures
            final(self).wf(),
            final(self)@.books == old(self)@.books,
            final(self)@.lendings == old(self)@.lendings,
            r is Err ==> r == Err::<(), LibraryError>(LibraryError::StorageFailure) && final(self)@
                == old(self)@,
            r is Err ==> exists|i: int|
                0 <= i < old(self)@.students.len() && (#[trigger] old(self)@.students[i]).id@.len() == 36,
            r is Ok ==> {
                &&& final(self)@.students.len() == old(self)@.students.len() + 1
                &&& final(self)@.students.drop_last() == old(self)@.students
                &&& is_new_student(
                    final(self)@.students.last(),
                    final(self)@.students.last().id@,
                    name@,
                    grade@,
                    opt_str_view(phone_number),
                    student_id@,
                    final(self)@.students.last().created_at,
                )
            },
    {
        let ghost pre = self@;
        let id = new_id();
        let ghost drawn = id@;
        let created_at = now_millis();
        let r = self.create_student_with_id(id, name, grade, phone_number, student_id, created_at);
        proof {
            if r is Err {
                let k = choose|k: int| 0 <= k < student_ids(pre.students).len() && student_ids(pre.students)[k] == drawn;
                assert(pre.students[k].id@ == drawn);
            }
        }
        r
    }

    /// Overwrites every editable field of the borrower `id`, status
    /// included. Nothing changes where no borrower has that id.
    pub fn update_student(
        &mut self,
        id: &str,
        name: &str,
        grade: &str,
        phone_number: Option<&str>,
        student_id: &str,
        status: StudentStatus,
    ) -> (r: Result<(), LibraryError>)
        requires
            old(self).wf(),
        ensures
            r == Ok::<(), LibraryError>(()),
            final(self).wf(),
            final(self)@.books == old(self)@.books,
            final(self)@.lendings == old(self)@.lendings,
            if old(self)@.has_student(id@) {
                let k = old(self)@.student_pos(id@);
                &&& final(self)@.students == old(self)@.students.update(k, final(self)@.students[k])
                &&& is_edited_student(final(self)@.students[k], old(self)@.students[k], name@, grade@, opt_str_view(phone_number), student_id@, status)
            } else {
                final(self)@.students == old(self)@.students
            },
    {
        match self.find_student(id) {
            Some(i) => {
                proof {
                    lemma_position(student_ids(self@.students), i as int);
                }
                let ghost pre = self@;
                let phone = match phone_number {
                    Some(p) => Some(p.to_owned()),
                    None => None,
                };
                self.students[i].name = name.to_owned();
                self.students[i].grade = grade.to_owned();
                self.students[i].phone_number = phone;
                self.students[i].student_id = student_id.to_owned();
                self.students[i].status = status;
                assert(self@.students =~= pre.students.update(i as int, self@.students[i as int]));
                assert(student_ids(self@.students) =~= student_ids(pre.students));
            },
            None => {},
        }
        Ok(())
    }

    /// Removes the borrower `id`; records that refer to them stay. Nothing
    /// changes where no borrower has that id.
    pub fn delete_student(&mut self, id: &str) -> (r: Result<(), LibraryError>)
        requires
            old(self).wf(),
        ensures
            r == Ok::<(), LibraryError>(()),
            final(self).wf(),
            final(self)@.books == old(self)@.books,
            final(self)@.lendings == old(self)@.lendings,
            final(self)@.students == if old(self)@.has_student(id@) {
                old(self)@.students.remove(old(self)@.student_pos(id@))
            } else {
                old(self)@.students
            },
    {
        match self.find_student(id) {
            Some(i) => {
                proof {
                    lemma_position(student_ids(self@.students), i as int);
                    lemma_unique_remove(student_ids(self@.students), i as int);
                }
                let ghost pre = self@;
                self.students.remove(i);
                assert(student_ids(self@.students) =~= student_ids(pre.students).remove(i as int));
            },
            None => {},
        }
        Ok(())
    }

    pub(crate) fn find_book(&self, id: &str) -> (r: Option<usize>)
        ensures
            match r {
                Some(i) => i < self@.books.len() && self@.books[i as int].id@ == id@ && self@.has_book(id@),
                None => !self@.has_book(id@),
            },
    {
        let mut i: usize = 0;
        while i < self.books.len()
            invariant
                i <= self@.books.len(),
                forall|k: int| 0 <= k < i ==> self@.books[k].id@ != id@,
            decreases self@.books.len() - i,
        {
            if str_eq(self.books[i].id.as_str(), id) {
                assert(book_ids(self@.books)[i as int] == id@);
                return Some(i);
            }
            i += 1;
        }
        assert forall|k: int| 0 <= k < book_ids(self@.books).len() implies book_ids(self@.books)[k] != id@ by {
            assert(book_ids(self@.books)[k] == self@.books[k].id@);
        }
        None
    }

    pub(crate) fn find_student(&self, id: &str) -> (r: Option<usize>)
        ensures
            match r {
                Some(i) => i < self@.students.len() && self@.students[i as int].id@ == id@ && self@.has_student(id@),
                None => !self@.has_student(id@),
            },
    {
        let mut i: usize = 0;
        while i < self.students.len()
            invariant
                i <= self@.students.len(),
                forall|k: int| 0 <= k < i ==> self@.students[k].id@ != id@,
            decreases self@.students.len() - i,
        {
            if str_eq(self.students[i].id.as_str(), id) {
                assert(student_ids(self@.students)[i as int] == id@);
                return Some(i);
            }
            i += 1;
        }
        assert forall|k: int| 0 <= k < student_ids(self@.students).len() implies student_ids(self@.students)[k] != id@ by {
            assert(student_ids(self@.students)[k] == self@.students[k].id@);
        }
        None
    }

    pub(crate) fn find_lending(&self, id: &str) -> (r: Option<usize>)
        ensures
            match r {
                Some(i) => i < self@.lendings.len() && self@.lendings[i as int].id@ == id@ && self@.has_lending(id@),
                None => !self@.has_lending(id@),
            },
    {
        let mut i: usize = 0;
        while i < self.lendings.len()
            invariant
                i <= self@.lendings.len(),
                forall|k: int| 0 <= k < i ==> self@.lendings[k].id@ != id@,
            decreases self@.lendings.len() - i,
        {
            if str_eq(self.lendings[i].id.as_str(), id) {
                assert(lending_ids(self@.lendings)[i as int] == id@);
                return Some(i);
            }
            i += 1;
        }
        assert forall|k: int| 0 <= k < lending_ids(self@.lendings).len() implies lending_ids(self@.lendings)[k] != id@ by {
            assert(lending_ids(self@.lendings)[k] == self@.lendings[k].id@);
        }
        None
    }
}

} // verus!
