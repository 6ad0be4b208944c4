use vstd::prelude::*;

verus! {

/// Shelf availability of a book.
#[derive(Clone, Copy, Debug, PartialEq, Eq, Structural)]
pub enum BookStatus {
    Available,
    Unavailable,
}

/// Whether a borrower is currently enrolled.
#[derive(Clone, Copy, Debug, PartialEq, Eq, Structural)]
pub enum StudentStatus {
    Active,
    Inactive,
}

/// Lifecycle state of a lending record.
#[derive(Clone, Copy, Debug, PartialEq, Eq, Structural)]
pub enum LendingStatus {
    Lent,
    Returned,
}

/// Character-wise equality of two string slices.
pub fn str_eq(a: &str, b: &str) -> (r: bool)
    ensures
        r == (a@ == b@),
{
    let n = a.unicode_len();
    if n != b.unicode_len() {
        return false;
    }
    let mut i: usize = 0;
    while i < n
        invariant
            n == a@.len(),
            n == b@.len(),
            i <= n,
            forall|k: int| 0 <= k < i ==> a@[k] == b@[k],
        decreases n - i,
    {
        if a.get_char(i) != b.get_char(i) {
            return false;
        }
        i += 1;
    }
    assert(a@ =~= b@);
    true
}

impl BookStatus {
    /// The lowercase name under which the status is stored.
    pub open spec fn text(self) -> Seq<char> {
        match self {
            BookStatus::Available => "available"@,
            BookStatus::Unavailable => "unavailable"@,
        }
    }

    pub fn as_str(&self) -> (r: &'static str)
        ensures
            r@ == self.text(),
    {
        match self {
            BookStatus::Available => "available",
            BookStatus::Unavailable => "unavailable",
        }
    }

    /// Reads a stored status name; any other text is rejected with a message.
    pub fn parse(s: &str) -> (r: Result<BookStatus, String>)
        ensures
            r is Ok <==> (s@ == BookStatus::Available.text() || s@ == BookStatus::Unavailable.text()),
            r matches Ok(v) ==> v.text() == s@,
            r matches Err(m) ==> m@ == "Invalid book status: "@ + s@,
    {
        if str_eq(s, "available") {
            Ok(BookStatus::Available)
        } else if str_eq(s, "unavailable") {
            Ok(BookStatus::Unavailable)
        } else {
            Err("Invalid book status: ".to_owned().concat(s))
        }
    }
}

impl std::str::FromStr for BookStatus {
    type Err = String;

    fn from_str(s: &str) -> Result<BookStatus, String> {
        BookStatus::parse(s)
    }
}

impl StudentStatus {
    /// The lowercase name under which the status is stored.
    pub open spec fn text(self) -> Seq<char> {
        match self {
            StudentStatus::Active => "active"@,
            StudentStatus::Inactive => "inactive"@,
        }
    }

    pub fn as_str(&self) -> (r: &'static str)
        ensures
            r@ == self.text(),
    {
        match self {
            StudentStatus::Active => "active",
            StudentStatus::Inactive => "inactive",
        }
    }

    /// Reads a stored status name; any other text is rejected with a message.
    pub fn parse(s: &str) -> (r: Result<StudentStatus, String>)
        ensures
            r is Ok <==> (s@ == StudentStatus::Active.text() || s@ == StudentStatus::Inactive.text()),
            r matches Ok(v) ==> v.text() == s@,
            r matches Err(m) ==> m@ == "Invalid student status: "@ + s@,
    {
        if str_eq(s, "active") {
            Ok(StudentStatus::Active)
        } else if str_eq(s, "inactive") {
            Ok(StudentStatus::Inactive)
        } else {
            Err("Invalid student status: ".to_owned().concat(s))
        }
    }
}

impl std::str::FromStr for StudentStatus {
    type Err = String;

    fn from_str(s: &str) -> Result<StudentStatus, String> {
        StudentStatus::parse(s)
    }
}

impl LendingStatus {
    /// The lowercase name under which the status is stored.
    pub open spec fn text(self) -> Seq<char> {
        match self {
            LendingStatus::Lent => "lent"@,
            LendingStatus::Returned => "returned"@,
        }
    }

    pub fn as_str(&self) -> (r: &'static str)
        ensures
            r@ == self.text(),
    {
        match self {
            LendingStatus::Lent => "lent",
            LendingStatus::Returned => "returned",
        }
    }

    /// Reads a stored status name; any other text is rejected with a message.
    pub fn parse(s: &str) -> (r: Result<LendingStatus, String>)
        ensures
            r is Ok <==> (s@ == LendingStatus::Lent.text() || s@ == LendingStatus::Returned.text()),
            r matches Ok(v) ==> v.text() == s@,
            r matches Err(m) ==> m@ == "Invalid lending status: "@ + s@,
    {
        if str_eq(s, "lent") {
            Ok(LendingStatus::Lent)
        } else if str_eq(s, "returned") {
            Ok(LendingStatus::Returned)
        } else {
            Err("Invalid lending status: ".to_owned().concat(s))
        }
    }
}

impl std::str::FromStr for LendingStatus {
    type Err = String;

    fn from_str(s: &str) -> Result<LendingStatus, String> {
        LendingStatus::parse(s)
    }
}

/// Why an operation on the store did not apply.
#[derive(Clone, Copy, Debug, PartialEq, Eq, Structural)]
pub enum LibraryError {
    /// A referenced record does not exist.
    NotFound,
    /// The borrower already holds an active loan.
    ConstraintViolation,
    /// A malformed timestamp or a value out of range.
    InvalidInput,
    /// The record is not in a state that allows the transition.
    InvalidState,
    /// The store itself refused the change (a duplicate key, a total too large).
    StorageFailure,
}

/// A title held by the library, with the number of copies on the shelf.
#[derive(Debug)]
pub struct Book {
    pub id: String,
    pub title: String,
    pub author: String,
    pub quantity: i32,
    pub isbn: String,
    pub category: String,
    pub status: BookStatus,
    pub created_at: i64,
}

/// A borrower. `student_id` is the external borrower number, distinct from `id`.
#[derive(Debug)]
pub struct Student {
    pub id: String,
    pub name: String,
    pub grade: String,
    pub phone_number: Option<String>,
    pub student_id: String,
    pub status: StudentStatus,
    pub created_at: i64,
}

/// One copy of a book checked out by one borrower.
#[derive(Debug)]
pub struct Lending {
    pub id: String,
    pub book_id: String,
    pub student_id: String,
    pub lent_at: i64,
    pub returned_at: Option<i64>,
    pub status: LendingStatus,
    pub due_date: i64,
}

/// A lending record joined with its book's title and author and its
/// borrower's name and number; blank where the book or borrower is gone.
#[derive(Debug)]
pub struct LendingWithDetails {
    pub id: String,
    pub book_id: String,
    pub student_id: String,
    pub lent_at: i64,
    pub returned_at: Option<i64>,
    pub status: LendingStatus,
    pub due_date: i64,
    pub book_title: String,
    pub book_author: String,
    pub student_name: String,
    pub student_number: String,
}

pub fn copy_opt_string(s: &Option<String>) -> (r: Option<String>)
    ensures
        r == *s,
{
    match s {
        Some(v) => Some(v.clone()),
        None => None,
    }
}

impl Book {
    pub fn duplicate(&self) -> (r: Book)
        ensures
            r == *self,
    {
        Book {
            id: self.id.clone(),
            title: self.title.clone(),
            author: self.author.clone(),
            quantity: self.quantity,
            isbn: self.isbn.clone(),
            category: self.category.clone(),
            status: self.status,
            created_at: self.created_at,
        }
    }
}

impl Student {
    pub fn duplicate(&self) -> (r: Student)
        ensures
            r == *self,
    {
        Student {
            id: self.id.clone(),
            name: self.name.clone(),
            grade: self.grade.clone(),
            phone_number: copy_opt_string(&self.phone_number),
            student_id: self.student_id.clone(),
            status: self.status,
            created_at: self.created_at,
        }
    }
}

impl Lending {
    pub fn duplicate(&self) -> (r: Lending)
        ensures
            r == *self,
    {
        Lending {
            id: self.id.clone(),
            book_id: self.book_id.clone(),
            student_id: self.student_id.clone(),
            lent_at: self.lent_at,
            returned_at: self.returned_at,
            status: self.status,
            due_date: self.due_date,
        }
    }
}

} // verus!
