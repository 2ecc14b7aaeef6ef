//! ASCII case handling and UTF-8 conversions shared by the codec layers.
//!
//! Comment tag names are stored ASCII-lowercased; this module defines what
//! lowercasing means at the specification level and provides the verified
//! executable lowering, together with the trusted bridge from raw bytes to
//! `String` used when decoding payload fields.

use vstd::prelude::*;
use vstd::utf8::{decode_utf8, valid_utf8};

verus! {

/// True for the ASCII capital letters `A` through `Z`.
pub open spec fn is_upper_char(c: char) -> bool {
    65 <= c as u32 <= 90
}

/// `c` with an ASCII capital letter replaced by its small form; any other
/// character is unchanged.
pub open spec fn lower_char(c: char) -> char {
    if is_upper_char(c) {
        ((((c as u32) + 32) as u8)) as char
    } else {
        c
    }
}

/// `s` with every ASCII capital letter replaced by its small form.
pub open spec fn lower(s: Seq<char>) -> Seq<char> {
    s.map_values(|c: char| lower_char(c))
}

/// True when `s` holds no ASCII capital letter.
pub open spec fn is_lower(s: Seq<char>) -> bool {
    forall|i: int| 0 <= i < s.len() ==> !is_upper_char(#[trigger] s[i])
}

/// Lowering a capital letter lands in `a` through `z`.
pub proof fn lemma_lower_char(c: char)
    ensures
        !is_upper_char(lower_char(c)),
        is_upper_char(c) ==> lower_char(c) as u32 == c as u32 + 32,
{
    if is_upper_char(c) {
        let v: u32 = ((c as u32) + 32) as u32;
        assert(97 <= v <= 122 ==> (v as u8) as u32 == v) by (bit_vector);
        assert((v as u8) as char as u32 == (v as u8) as u32);
    }
}

/// A lowered sequence holds no capital letter.
pub proof fn lemma_lower_is_lower(s: Seq<char>)
    ensures
        is_lower(lower(s)),
        lower(s).len() == s.len(),
{
    assert forall|i: int| 0 <= i < lower(s).len() implies !is_upper_char(#[trigger] lower(s)[i]) by {
        lemma_lower_char(s[i]);
    }
}

/// Lowering leaves a sequence without capital letters unchanged.
pub proof fn lemma_lower_identity(s: Seq<char>)
    requires
        is_lower(s),
    ensures
        lower(s) == s,
{
    assert(lower(s) =~= s);
}

/// `s` with every ASCII capital letter replaced by its small form.
pub fn str_to_lowercase(s: &str) -> (r: String)
    ensures
        r@ == lower(s@),
{
    let n = s.unicode_len();
    let mut r = String::new();
    let mut i: usize = 0;
    while i < n
        invariant
            n == s@.len(),
            0 <= i <= n,
            r@ == lower(s@.subrange(0, i as int)),
        decreases n - i,
    {
        let c = s.get_char(i);
        let u = c as u32;
        let lc: char = if 65 <= u && u <= 90 {
            ((u + 32) as u8) as char
        } else {
            c
        };
        push_char(&mut r, lc);
        proof {
            assert(s@.subrange(0, i + 1).drop_last() =~= s@.subrange(0, i as int));
            assert(lower(s@.subrange(0, i + 1)) =~= lower(s@.subrange(0, i as int)).push(
                lower_char(s@[i as int]),
            ));
        }
        i += 1;
    }
    proof {
        assert(s@.subrange(0, n as int) =~= s@);
    }
    r
}

/// Compares two strings character by character.
pub fn str_eq(a: &str, b: &str) -> (r: bool)
    ensures
        r == (a@ == b@),
{
    let na = a.unicode_len();
    let nb = b.unicode_len();
    if na != nb {
        return false;
    }
    let mut i: usize = 0;
    while i < na
        invariant
            na == a@.len(),
            na == b@.len(),
            0 <= i <= na,
            forall|k: int| 0 <= k < i ==> a@[k] == b@[k],
        decreases na - i,
    {
        if a.get_char(i) != b.get_char(i) {
            return false;
        }
        i += 1;
    }
    proof {
        assert(a@ =~= b@);
    }
    true
}

/// Appends one character to a string.
///
/// Relies on `String::push`: it appends exactly the given character.
#[verifier::external_body]
pub fn push_char(s: &mut String, c: char)
    ensures
        final(s)@ == old(s)@.push(c),
{
    s.push(c);
}

/// Decodes a byte vector as UTF-8.
///
/// Relies on `String::from_utf8`: it returns `Ok` exactly when the bytes are
/// valid UTF-8, and then returns the string those bytes encode.
#[verifier::external_body]
pub fn utf8_to_string(bytes: &Vec<u8>) -> (r: Option<String>)
    ensures
        match r {
            Some(s) => valid_utf8(bytes@) && s@ == decode_utf8(bytes@),
            None => !valid_utf8(bytes@),
        },
{
    match String::from_utf8(bytes.clone()) {
        Ok(s) => Some(s),
        Err(_) => None,
    }
}

} // verus!
