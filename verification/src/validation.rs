//! Validation predicates for the syntactic components of a purl.

use vstd::prelude::*;
use vstd::string::*;

verus! {

/// An ASCII decimal digit.
pub open spec fn spec_ascii_digit(c: char) -> bool {
    ('0' as u32) <= (c as u32) && (c as u32) <= ('9' as u32)
}

/// An ASCII letter, upper or lower case.
pub open spec fn spec_ascii_letter(c: char) -> bool {
    ||| ('a' as u32) <= (c as u32) && (c as u32) <= ('z' as u32)
    ||| ('A' as u32) <= (c as u32) && (c as u32) <= ('Z' as u32)
}

/// A character allowed in a purl type: ASCII letters, digits, `.`, `-` and `+`.
pub open spec fn spec_type_char(c: char) -> bool {
    ||| c == '.'
    ||| c == '-'
    ||| c == '+'
    ||| spec_ascii_letter(c)
    ||| spec_ascii_digit(c)
}

/// A character allowed in a qualifier key: ASCII letters, digits, `.`, `-` and `_`.
pub open spec fn spec_key_char(c: char) -> bool {
    ||| c == '.'
    ||| c == '-'
    ||| c == '_'
    ||| spec_ascii_letter(c)
    ||| spec_ascii_digit(c)
}

/// The type grammar: non-empty, no leading digit, only type characters.
pub open spec fn spec_valid_type(s: Seq<char>) -> bool {
    &&& s.len() > 0
    &&& !spec_ascii_digit(s[0])
    &&& forall|i: int| 0 <= i < s.len() ==> spec_type_char(#[trigger] s[i])
}

/// The qualifier key grammar: non-empty, no leading digit, only key characters.
pub open spec fn spec_valid_key(s: Seq<char>) -> bool {
    &&& s.len() > 0
    &&& !spec_ascii_digit(s[0])
    &&& forall|i: int| 0 <= i < s.len() ==> spec_key_char(#[trigger] s[i])
}

/// The single character `.`.
pub open spec fn spec_is_dot(s: Seq<char>) -> bool {
    s.len() == 1 && s[0] == '.'
}

/// The two characters `..`.
pub open spec fn spec_is_dotdot(s: Seq<char>) -> bool {
    s.len() == 2 && s[0] == '.' && s[1] == '.'
}

/// A valid namespace component: non-empty and free of `/`.
pub open spec fn spec_valid_namespace_component(s: Seq<char>) -> bool {
    &&& s.len() > 0
    &&& forall|i: int| 0 <= i < s.len() ==> s[i] != '/'
}

/// A valid subpath segment: non-empty, neither `.` nor `..`, and free of `/`.
pub open spec fn spec_valid_subpath_segment(s: Seq<char>) -> bool {
    &&& s.len() > 0
    &&& !spec_is_dot(s)
    &&& !spec_is_dotdot(s)
    &&& forall|i: int| 0 <= i < s.len() ==> s[i] != '/'
}

fn is_digit_char(c: char) -> (r: bool)
    ensures
        r == spec_ascii_digit(c),
{
    let u = c as u32;
    48 <= u && u <= 57
}

fn is_type_char(c: char) -> (r: bool)
    ensures
        r == spec_type_char(c),
{
    let u = c as u32;
    c == '.' || c == '-' || c == '+' || (97 <= u && u <= 122) || (65 <= u && u <= 90) || (48 <= u
        && u <= 57)
}

fn is_key_char(c: char) -> (r: bool)
    ensures
        r == spec_key_char(c),
{
    let u = c as u32;
    c == '.' || c == '-' || c == '_' || (97 <= u && u <= 122) || (65 <= u && u <= 90) || (48 <= u
        && u <= 57)
}

/// Check whether a type is valid regarding the purl type grammar.
pub fn is_type_valid(ty: &str) -> (r: bool)
    ensures
        r == spec_valid_type(ty@),
{
    let n = ty.unicode_len();
    if n == 0 {
        return false;
    }
    if is_digit_char(ty.get_char(0)) {
        return false;
    }
    let mut i: usize = 0;
    while i < n
        invariant
            n == ty@.len(),
            0 <= i <= n,
            forall|j: int| 0 <= j < i ==> spec_type_char(#[trigger] ty@[j]),
        decreases n - i,
    {
        if !is_type_char(ty.get_char(i)) {
            return false;
        }
        i += 1;
    }
    true
}

/// Check whether a qualifier key is valid regarding the key grammar.
pub fn is_qualifier_key_valid(key: &str) -> (r: bool)
    ensures
        r == spec_valid_key(key@),
{
    let n = key.unicode_len();
    if n == 0 {
        return false;
    }
    if is_digit_char(key.get_char(0)) {
        return false;
    }
    let mut i: usize = 0;
    while i < n
        invariant
            n == key@.len(),
            0 <= i <= n,
            forall|j: int| 0 <= j < i ==> spec_key_char(#[trigger] key@[j]),
        decreases n - i,
    {
        if !is_key_char(key.get_char(i)) {
            return false;
        }
        i += 1;
    }
    true
}

/// Check whether a namespace component is valid: non-empty and without `/`.
pub fn is_namespace_component_valid(component: &str) -> (r: bool)
    ensures
        r == spec_valid_namespace_component(component@),
{
    let n = component.unicode_len();
    if n == 0 {
        return false;
    }
    let mut i: usize = 0;
    while i < n
        invariant
            n == component@.len(),
            0 <= i <= n,
            forall|j: int| 0 <= j < i ==> component@[j] != '/',
        decreases n - i,
    {
        if component.get_char(i) == '/' {
            return false;
        }
        i += 1;
    }
    true
}

/// Check whether a subpath segment is valid: non-empty, not `.` or `..`, without `/`.
pub fn is_subpath_segment_valid(segment: &str) -> (r: bool)
    ensures
        r == spec_valid_subpath_segment(segment@),
{
    let n = segment.unicode_len();
    if n == 0 {
        return false;
    }
    if n == 1 && segment.get_char(0) == '.' {
        return false;
    }
    if n == 2 && segment.get_char(0) == '.' && segment.get_char(1) == '.' {
        return false;
    }
    let mut i: usize = 0;
    while i < n
        invariant
            n == segment@.len(),
            0 <= i <= n,
            forall|j: int| 0 <= j < i ==> segment@[j] != '/',
        decreases n - i,
    {
        if segment.get_char(i) == '/' {
            return false;
        }
        i += 1;
    }
    true
}

} // verus!
