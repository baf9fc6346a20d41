//! Package names and their normalization.
//!
//! A raw package name may mix upper and lower case and use `-`, `_` or `.`
//! interchangeably as separators. The normalized form lowercases the name and
//! collapses every run of separators into a single `-`, so that two spellings
//! of the same name compare equal.

use crate::strutil::string_from_ascii;
use crate::strutil::to_lower;
use vstd::prelude::*;

verus! {

/// ASCII letters and digits, the only characters a name may start or end with.
pub open spec fn is_ascii_alnum(c: char) -> bool {
    ('a' <= c && c <= 'z') || ('A' <= c && c <= 'Z') || ('0' <= c && c <= '9')
}

/// The separators that normalization collapses.
pub open spec fn is_separator(c: char) -> bool {
    c == '-' || c == '_' || c == '.'
}

/// Characters allowed anywhere in a raw package name.
pub open spec fn is_name_char(c: char) -> bool {
    is_ascii_alnum(c) || is_separator(c)
}

/// A raw package name is valid when it is nonempty, made of letters, digits
/// and separators only, and starts and ends with a letter or digit.
pub open spec fn valid_package_name(s: Seq<char>) -> bool {
    &&& s.len() > 0
    &&& is_ascii_alnum(s[0])
    &&& is_ascii_alnum(s[s.len() - 1])
    &&& forall|i: int| 0 <= i < s.len() ==> is_name_char(#[trigger] s[i])
}

/// The normalization of the suffix of `s` that starts at `i`: characters are
/// lowercased and each run of separators becomes a single `-` (emitted at the
/// run's last separator).
pub open spec fn normalize_from(s: Seq<char>, i: int) -> Seq<char>
    recommends
        0 <= i,
    decreases s.len() - i,
{
    if i < 0 || i >= s.len() {
        Seq::empty()
    } else if is_separator(s[i]) {
        if i + 1 < s.len() && is_separator(s[i + 1]) {
            normalize_from(s, i + 1)
        } else {
            seq!['-'] + normalize_from(s, i + 1)
        }
    } else {
        seq![to_lower(s[i])] + normalize_from(s, i + 1)
    }
}

/// The normalized form of a whole raw name.
pub open spec fn normalized_name(s: Seq<char>) -> Seq<char> {
    normalize_from(s, 0)
}

/// The error returned when a raw package name fails validation.
#[derive(Debug, Clone, Copy, PartialEq, Eq, Structural)]
pub enum ParsePackageNameError {
    /// The name is empty, holds a character outside letters, digits, `-`, `_`
    /// and `.`, or starts or ends with a separator.
    InvalidPackageName,
}

/// A package name in normalized form.
#[derive(Debug, Clone)]
pub struct NormalizedPackageName {
    name: String,
}

impl View for NormalizedPackageName {
    type V = Seq<char>;

    closed spec fn view(&self) -> Seq<char> {
        self.name@
    }
}

/// Whether one character is a letter, digit or separator, decided executably.
fn name_char(c: char) -> (r: bool)
    ensures
        r == is_name_char(c),
{
    (c >= 'a' && c <= 'z') || (c >= 'A' && c <= 'Z') || (c >= '0' && c <= '9') || c == '-'
        || c == '_' || c == '.'
}

/// Whether one character is a separator, decided executably.
fn separator_char(c: char) -> (r: bool)
    ensures
        r == is_separator(c),
{
    c == '-' || c == '_' || c == '.'
}

impl NormalizedPackageName {
    /// Validates a raw package name and normalizes it.
    pub fn from_str(s: &str) -> (r: Result<NormalizedPackageName, ParsePackageNameError>)
        ensures
            match r {
                Ok(n) => valid_package_name(s@) && n@ == normalized_name(s@),
                Err(_) => !valid_package_name(s@),
            },
    {
        let n = s.unicode_len();
        if n == 0 {
            return Err(ParsePackageNameError::InvalidPackageName);
        }

        let mut i: usize = 0;
        while i < n
            invariant
                0 <= i <= n,
                n == s@.len(),
                forall|j: int| 0 <= j < i ==> is_name_char(#[trigger] s@[j]),
            decreases n - i,
        {
            let c = s.get_char(i);
            if !name_char(c) {
                return Err(ParsePackageNameError::InvalidPackageName);
            }
            i = i + 1;
        }
        let first = s.get_char(0);
        let last = s.get_char(n - 1);
        if separator_char(first) || separator_char(last) {
            return Err(ParsePackageNameError::InvalidPackageName);
        }
        assert(valid_package_name(s@));

        // Normalize: lowercase and collapse separator runs.
        let mut out: Vec<u8> = Vec::new();
        let mut i: usize = 0;
        while i < n
            invariant
                0 <= i <= n,
                n == s@.len(),
                forall|j: int| 0 <= j < n ==> is_name_char(#[trigger] s@[j]),
                forall|j: int| 0 <= j < out@.len() ==> out@[j] < 128,
                out@.map_values(|b: u8| b as char) + normalize_from(s@, i as int)
                    =~= normalized_name(s@),
            decreases n - i,
        {
            let c = s.get_char(i);
            if separator_char(c) {
                let next_sep = if i + 1 < n {
                    separator_char(s.get_char(i + 1))
                } else {
                    false
                };
                if !next_sep {
                    out.push(45);
                    proof {
                        assert(45u8 as char == '-');
                        assert(out@.map_values(|b: u8| b as char)
                            =~= out@.drop_last().map_values(|b: u8| b as char) + seq!['-']);
                    }
                }
            } else {
                assert(is_ascii_alnum(c));
                let lower: u8 = if c >= 'A' && c <= 'Z' {
                    (c as u8) + 32
                } else {
                    c as u8
                };
                out.push(lower);
                proof {
                    assert(lower as char == to_lower(s@[i as int]));
                    assert(out@.map_values(|b: u8| b as char)
                        =~= out@.drop_last().map_values(|b: u8| b as char)
                            + seq![to_lower(s@[i as int])]);
                }
            }
            i = i + 1;
        }
        proof {
            assert(out@.map_values(|b: u8| b as char) =~= normalized_name(s@));
        }
        let name = string_from_ascii(out);
        proof {
            assert(name@ =~= normalized_name(s@));
        }
        Ok(NormalizedPackageName { name })
    }

    /// The normalized name as a string slice.
    pub fn as_str(&self) -> (r: &str)
        ensures
            r@ == self@,
    {
        self.name.as_str()
    }
}

} // verus!
