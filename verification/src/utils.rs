//! A string wrapper that guarantees its payload is ASCII-lowercase.
//!
//! Tag names are normalized once, at the boundary, by constructing a
//! [`LowercaseString`]; the map operations on a tag never re-normalize.

use vstd::prelude::*;

use crate::strutil::{is_lower, lemma_lower_identity, lemma_lower_is_lower, lower, str_to_lowercase};

verus! {

/// A `String` that holds no ASCII capital letter.
#[derive(Debug)]
pub struct LowercaseString(pub(crate) String);

impl View for LowercaseString {
    type V = Seq<char>;

    closed spec fn view(&self) -> Seq<char> {
        self.0@
    }
}

impl LowercaseString {
    /// Every value of the type holds no ASCII capital letter.
    #[verifier::type_invariant]
    pub closed spec fn inv(self) -> bool {
        is_lower(self.0@)
    }

    /// What the type invariant guarantees: the wrapped string is
    /// lowercase.
    pub proof fn lemma_inv_lower(&self)
        requires
            self.inv(),
        ensures
            is_lower(self@),
    {
    }

    /// Creates a `LowercaseString`, lowering ASCII capital letters.
    pub fn from_str(str: &str) -> (r: Self)
        ensures
            r@ == lower(str@),
            is_lower(r@),
    {
        proof {
            lemma_lower_is_lower(str@);
        }
        LowercaseString(str_to_lowercase(str))
    }

    /// Creates a `LowercaseString` from an owned string, lowering ASCII
    /// capital letters.
    pub fn from_string(str: String) -> (r: Self)
        ensures
            r@ == lower(str@),
            is_lower(r@),
    {
        Self::from_str(str.as_str())
    }

    /// Wraps the string if it is already lowercase, and returns `None`
    /// otherwise.
    pub fn try_from_str(str: &str) -> (r: Option<Self>)
        ensures
            match r {
                Some(l) => is_lower(str@) && l@ == str@,
                None => !is_lower(str@),
            },
    {
        let n = str.unicode_len();
        let mut i: usize = 0;
        while i < n
            invariant
                n == str@.len(),
                0 <= i <= n,
                forall|j: int| 0 <= j < i ==> !crate::strutil::is_upper_char(#[trigger] str@[j]),
            decreases n - i,
        {
            let c = str.get_char(i);
            let u = c as u32;
            if 65 <= u && u <= 90 {
                return None;
            }
            i += 1;
        }
        Some(LowercaseString(str.to_owned()))
    }

    /// The wrapped string.
    pub fn as_str(&self) -> (r: &str)
        ensures
            r@ == self@,
    {
        self.0.as_str()
    }

    /// Gives up the wrapped string.
    pub fn into_string(self) -> (r: String)
        ensures
            r@ == self@,
    {
        self.0
    }
}

} // verus!
