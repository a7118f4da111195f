//! The error vocabulary shared by every fallible operation.

use vstd::prelude::*;
use vstd::std_specs::convert::FromSpecImpl;
use vstd::string::StringExecFns;

verus! {

/// Why a collection operation could not be carried out.
#[derive(Debug, PartialEq)]
pub enum CollectionError {
    /// A select or lookup named a key that the container does not hold.
    KeyNotFound,
    /// An index lies outside the valid positions of an indexed container.
    OutOfBounds { index: usize, len: usize },
    /// The operation needs at least one element.
    EmptyCollection,
    /// An access broke a documented precondition.
    InvalidAccess { reason: String },
    /// A shared lease was refused because an exclusive one is outstanding.
    BorrowError,
    /// An exclusive lease was refused because another lease is outstanding.
    BorrowMutError,
}

/// What a collection operation hands back: its result, or why there is none.
pub type CollectionResult<T> = Result<T, CollectionError>;

/// The character that stands for a digit.
pub open spec fn digit(d: nat) -> char
    recommends
        d < 10,
{
    if d == 0 {
        '0'
    } else if d == 1 {
        '1'
    } else if d == 2 {
        '2'
    } else if d == 3 {
        '3'
    } else if d == 4 {
        '4'
    } else if d == 5 {
        '5'
    } else if d == 6 {
        '6'
    } else if d == 7 {
        '7'
    } else if d == 8 {
        '8'
    } else {
        '9'
    }
}

/// A number written in decimal, without leading zeros.
pub open spec fn decimal(n: nat) -> Seq<char>
    decreases n,
{
    if n < 10 {
        seq![digit(n)]
    } else {
        decimal(n / 10).push(digit(n % 10))
    }
}

/// The text of a digit.
fn digit_text(d: usize) -> (text: &'static str)
    requires
        d < 10,
    ensures
        text@ == seq![digit(d as nat)],
{
    proof {
        reveal_strlit("0");
        reveal_strlit("1");
        reveal_strlit("2");
        reveal_strlit("3");
        reveal_strlit("4");
        reveal_strlit("5");
        reveal_strlit("6");
        reveal_strlit("7");
        reveal_strlit("8");
        reveal_strlit("9");
    }
    let text = if d == 0 {
        "0"
    } else if d == 1 {
        "1"
    } else if d == 2 {
        "2"
    } else if d == 3 {
        "3"
    } else if d == 4 {
        "4"
    } else if d == 5 {
        "5"
    } else if d == 6 {
        "6"
    } else if d == 7 {
        "7"
    } else if d == 8 {
        "8"
    } else {
        "9"
    };
    assert(text@ =~= seq![digit(d as nat)]);
    text
}

/// Writes a number in decimal.
pub fn decimal_text(n: usize) -> (text: String)
    ensures
        text@ == decimal(n as nat),
    decreases n,
{
    if n < 10 {
        String::from_str(digit_text(n))
    } else {
        let mut text = decimal_text(n / 10);
        text.append(digit_text(n % 10));
        assert(text@ =~= decimal((n / 10) as nat).push(digit((n % 10) as nat)));
        text
    }
}

impl CollectionError {
    /// What `message` says of this error.
    pub open spec fn message_text(self) -> Seq<char> {
        match self {
            CollectionError::KeyNotFound => "Key not found in collection"@,
            CollectionError::OutOfBounds { index, len } => "Index "@ + decimal(index as nat)
                + " out of bounds for collection of length "@ + decimal(len as nat),
            CollectionError::EmptyCollection => "Collection is empty"@,
            CollectionError::InvalidAccess { reason } => "Invalid access: "@ + reason@,
            CollectionError::BorrowError =>
                "Failed to borrow collection (already borrowed mutably)"@,
            CollectionError::BorrowMutError =>
                "Failed to borrow collection mutably (already borrowed)"@,
        }
    }

    /// The error in words.
    pub fn message(&self) -> (text: String)
        ensures
            text@ == self.message_text(),
    {
        match self {
            CollectionError::KeyNotFound => String::from_str("Key not found in collection"),
            CollectionError::OutOfBounds { index, len } => {
                let mut text = String::from_str("Index ");
                text.append(decimal_text(*index).as_str());
                text.append(" out of bounds for collection of length ");
                text.append(decimal_text(*len).as_str());
                text
            },
            CollectionError::EmptyCollection => String::from_str("Collection is empty"),
            CollectionError::InvalidAccess { reason } => {
                let mut text = String::from_str("Invalid access: ");
                text.append(reason.as_str());
                text
            },
            CollectionError::BorrowError => String::from_str(
                "Failed to borrow collection (already borrowed mutably)",
            ),
            CollectionError::BorrowMutError => String::from_str(
                "Failed to borrow collection mutably (already borrowed)",
            ),
        }
    }
}

impl Clone for CollectionError {
    fn clone(&self) -> (copy: Self)
        ensures
            copy == *self,
    {
        match self {
            CollectionError::KeyNotFound => CollectionError::KeyNotFound,
            CollectionError::OutOfBounds { index, len } => CollectionError::OutOfBounds {
                index: *index,
                len: *len,
            },
            CollectionError::EmptyCollection => CollectionError::EmptyCollection,
            CollectionError::InvalidAccess { reason } => CollectionError::InvalidAccess {
                reason: reason.clone(),
            },
            CollectionError::BorrowError => CollectionError::BorrowError,
            CollectionError::BorrowMutError => CollectionError::BorrowMutError,
        }
    }
}

impl From<String> for CollectionError {
    /// A bare reason is an invalid access.
    fn from(s: String) -> (error: Self) {
        CollectionError::InvalidAccess { reason: s }
    }
}

impl FromSpecImpl<String> for CollectionError {
    open spec fn obeys_from_spec() -> bool {
        true
    }

    open spec fn from_spec(s: String) -> Self {
        CollectionError::InvalidAccess { reason: s }
    }
}

impl<'a> From<&'a str> for CollectionError {
    /// A bare reason is an invalid access.
    fn from(s: &'a str) -> (error: Self)
        ensures
            error matches CollectionError::InvalidAccess { reason } && reason@ == s@,
    {
        CollectionError::InvalidAccess { reason: String::from_str(s) }
    }
}

impl<'a> FromSpecImpl<&'a str> for CollectionError {
    /// The reason is a fresh string, of which only the text is known.
    open spec fn obeys_from_spec() -> bool {
        false
    }

    open spec fn from_spec(s: &'a str) -> Self {
        CollectionError::InvalidAccess { reason: arbitrary() }
    }
}

} // verus!
