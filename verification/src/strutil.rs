//! Character-level string utilities: substring search, prefix and suffix
//! tests, digit handling. All engines work on device paths and player
//! names as character sequences, so these are shared across the crate.

use vstd::prelude::*;

verus! {

/// The needle occurs in the haystack starting exactly at position `i`.
pub open spec fn is_match_at(hay: Seq<char>, needle: Seq<char>, i: int) -> bool {
    &&& 0 <= i
    &&& i + needle.len() <= hay.len()
    &&& hay.subrange(i, i + needle.len() as int) == needle
}

/// The needle occurs somewhere in the haystack.
pub open spec fn contains_seq(hay: Seq<char>, needle: Seq<char>) -> bool {
    exists|i: int| is_match_at(hay, needle, i)
}

/// The sequence starts with the given prefix.
pub open spec fn has_prefix(s: Seq<char>, p: Seq<char>) -> bool {
    is_match_at(s, p, 0)
}

/// The sequence ends with the given suffix.
pub open spec fn has_suffix(s: Seq<char>, p: Seq<char>) -> bool {
    is_match_at(s, p, s.len() - p.len())
}

/// Decimal digit test on a character.
pub open spec fn spec_is_digit(c: char) -> bool {
    48 <= c as u32 <= 57
}

/// Numeric value of a decimal digit character.
pub open spec fn spec_digit_val(c: char) -> int {
    c as u32 - 48
}

/// Equality of two string slices, decided character by character.
pub fn str_eq(a: &str, b: &str) -> (r: bool)
    ensures
        r == (a@ == b@),
{
    let n: usize = a.unicode_len();
    let m: usize = b.unicode_len();
    if n != m {
        return false;
    }
    let mut i: usize = 0;
    while i < n
        invariant
            n == a@.len(),
            n == b@.len(),
            0 <= i <= n,
            forall|k: int| 0 <= k < i ==> a@[k] == b@[k],
        decreases n - i,
    {
        if a.get_char(i) != b.get_char(i) {
            return false;
        }
        i = i + 1;
    }
    proof {
        assert(a@ =~= b@);
    }
    true
}

/// Whether the needle matches the haystack at position `i`.
pub fn check_match_at(hay: &str, needle: &str, i: usize) -> (r: bool)
    requires
        i + needle@.len() <= hay@.len(),
    ensures
        r == is_match_at(hay@, needle@, i as int),
{
    let n: usize = hay.unicode_len();
    let m: usize = needle.unicode_len();
    let mut j: usize = 0;
    while j < m
        invariant
            n == hay@.len(),
            m == needle@.len(),
            i + m <= n,
            0 <= j <= m,
            forall|k: int| 0 <= k < j ==> hay@[i + k] == needle@[k],
        decreases m - j,
    {
        if hay.get_char(i + j) != needle.get_char(j) {
            proof {
                let sub = hay@.subrange(i as int, i + needle@.len() as int);
                assert(sub[j as int] == hay@[i + j]);
                assert(sub != needle@);
            }
            return false;
        }
        j = j + 1;
    }
    proof {
        assert(hay@.subrange(i as int, i + needle@.len() as int) =~= needle@);
    }
    true
}

/// Position of the first occurrence of the needle in the haystack, if any.
pub fn find_first(hay: &str, needle: &str) -> (r: Option<usize>)
    ensures
        match r {
            Option::Some(i) => is_match_at(hay@, needle@, i as int) && forall|j: int|
                0 <= j < i ==> !is_match_at(hay@, needle@, j),
            Option::None => !contains_seq(hay@, needle@),
        },
{
    let n: usize = hay.unicode_len();
    let m: usize = needle.unicode_len();
    if m > n {
        return None;
    }
    if m == 0 {
        proof {
            assert(hay@.subrange(0, 0) =~= needle@);
        }
        return Some(0);
    }
    let mut i: usize = 0;
    while i <= n - m
        invariant
            n == hay@.len(),
            m == needle@.len(),
            1 <= m <= n,
            0 <= i <= n - m + 1,
            forall|j: int| 0 <= j < i ==> !is_match_at(hay@, needle@, j),
        decreases n - i,
    {
        if check_match_at(hay, needle, i) {
            return Some(i);
        }
        i = i + 1;
    }
    None
}

/// Whether the needle occurs anywhere in the haystack.
pub fn contains_str(hay: &str, needle: &str) -> (r: bool)
    ensures
        r == contains_seq(hay@, needle@),
{
    match find_first(hay, needle) {
        Option::Some(_) => true,
        Option::None => false,
    }
}

/// Whether the string starts with the given prefix.
pub fn starts_with_str(s: &str, p: &str) -> (r: bool)
    ensures
        r == has_prefix(s@, p@),
{
    let n: usize = s.unicode_len();
    let m: usize = p.unicode_len();
    if m > n {
        return false;
    }
    check_match_at(s, p, 0)
}

/// Whether the string ends with the given suffix.
pub fn ends_with_str(s: &str, p: &str) -> (r: bool)
    ensures
        r == has_suffix(s@, p@),
{
    let n: usize = s.unicode_len();
    let m: usize = p.unicode_len();
    if m > n {
        return false;
    }
    check_match_at(s, p, n - m)
}

/// Position of the first occurrence of the character, if any.
pub fn find_char(s: &str, c: char) -> (r: Option<usize>)
    ensures
        match r {
            Option::Some(i) => i < s@.len() && s@[i as int] == c && forall|k: int|
                0 <= k < i ==> s@[k] != c,
            Option::None => forall|k: int| 0 <= k < s@.len() ==> s@[k] != c,
        },
{
    let n: usize = s.unicode_len();
    let mut i: usize = 0;
    while i < n
        invariant
            n == s@.len(),
            0 <= i <= n,
            forall|k: int| 0 <= k < i ==> s@[k] != c,
        decreases n - i,
    {
        if s.get_char(i) == c {
            return Some(i);
        }
        i = i + 1;
    }
    None
}

/// Position of the last occurrence of `c` strictly before `below`, if any.
pub fn rfind_char_below(s: &str, c: char, below: usize) -> (r: Option<usize>)
    requires
        below <= s@.len(),
    ensures
        match r {
            Option::Some(j) => j < below && s@[j as int] == c && forall|k: int|
                j < k < below ==> s@[k] != c,
            Option::None => forall|k: int| 0 <= k < below ==> s@[k] != c,
        },
{
    let mut i: usize = below;
    while i > 0
        invariant
            below <= s@.len(),
            0 <= i <= below,
            forall|k: int| i <= k < below ==> s@[k] != c,
        decreases i,
    {
        i = i - 1;
        if s.get_char(i) == c {
            return Some(i);
        }
    }
    None
}

/// Decimal digit test on a character.
pub fn is_digit(c: char) -> (r: bool)
    ensures
        r == spec_is_digit(c),
{
    let u = c as u32;
    48 <= u && u <= 57
}

/// Numeric value of a decimal digit character.
pub fn digit_val(c: char) -> (r: u32)
    requires
        spec_is_digit(c),
    ensures
        r as int == spec_digit_val(c),
        r <= 9,
{
    c as u32 - 48
}

/// Lowercase hexadecimal digit test on a character.
pub open spec fn spec_is_hex(c: char) -> bool {
    spec_is_digit(c) || 97 <= c as u32 <= 102
}

/// Numeric value of a lowercase hexadecimal digit character.
pub open spec fn spec_hex_val(c: char) -> int {
    if spec_is_digit(c) {
        c as u32 - 48
    } else {
        c as u32 - 87
    }
}

/// Lowercase hexadecimal digit test on a character.
pub fn is_hex(c: char) -> (r: bool)
    ensures
        r == spec_is_hex(c),
{
    let u = c as u32;
    (48 <= u && u <= 57) || (97 <= u && u <= 102)
}

/// Numeric value of a lowercase hexadecimal digit character.
pub fn hex_val(c: char) -> (r: u32)
    requires
        spec_is_hex(c),
    ensures
        r as int == spec_hex_val(c),
        r <= 15,
{
    let u = c as u32;
    if u <= 57 {
        u - 48
    } else {
        u - 87
    }
}

} // verus!
