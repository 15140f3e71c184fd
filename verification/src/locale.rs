//! Language-tag syntax.
//!
//! A locale is an opaque language tag such as `en`, `es` or `fr-FR`: a
//! primary language subtag optionally followed by script, region or variant
//! subtags, separated by `-`.  Tags are compared in two ways: by the exact
//! character sequence, and by the derived *language subtag* (the portion
//! before any further subtags).

use crate::text::split_on;
use crate::text::split_str;
use vstd::prelude::*;

verus! {

/// An ASCII letter.
pub open spec fn is_alpha(c: char) -> bool {
    (97 <= c as u32 && c as u32 <= 122) || (65 <= c as u32 && c as u32 <= 90)
}

/// An ASCII digit.
pub open spec fn is_digit(c: char) -> bool {
    48 <= c as u32 && c as u32 <= 57
}

/// An ASCII letter or digit.
pub open spec fn is_alnum(c: char) -> bool {
    is_alpha(c) || is_digit(c)
}

pub open spec fn all_alpha(s: Seq<char>) -> bool {
    forall|i: int| 0 <= i < s.len() ==> is_alpha(s[i])
}

pub open spec fn all_digit(s: Seq<char>) -> bool {
    forall|i: int| 0 <= i < s.len() ==> is_digit(s[i])
}

pub open spec fn all_alnum(s: Seq<char>) -> bool {
    forall|i: int| 0 <= i < s.len() ==> is_alnum(s[i])
}

/// The primary language subtag: two to eight letters.
pub open spec fn is_language_subtag(s: Seq<char>) -> bool {
    2 <= s.len() <= 8 && all_alpha(s)
}

/// A script subtag: exactly four letters.
pub open spec fn is_script_subtag(s: Seq<char>) -> bool {
    s.len() == 4 && all_alpha(s)
}

/// A region subtag: two letters or three digits.
pub open spec fn is_region_subtag(s: Seq<char>) -> bool {
    (s.len() == 2 && all_alpha(s)) || (s.len() == 3 && all_digit(s))
}

/// A variant subtag: five to eight alphanumerics, or four beginning with a
/// digit.
pub open spec fn is_variant_subtag(s: Seq<char>) -> bool {
    (5 <= s.len() <= 8 && all_alnum(s)) || (s.len() == 4 && is_digit(s[0]) && all_alnum(s))
}

/// Any subtag allowed after the primary language subtag.
pub open spec fn is_extra_subtag(s: Seq<char>) -> bool {
    is_script_subtag(s) || is_region_subtag(s) || is_variant_subtag(s)
}

/// Valid language-tag syntax: a language subtag, then any number of script,
/// region or variant subtags.
pub open spec fn is_valid_tag(s: Seq<char>) -> bool {
    let parts = split_on(s, '-');
    is_language_subtag(parts[0]) && forall|i: int|
        1 <= i < parts.len() ==> is_extra_subtag(#[trigger] parts[i])
}

/// The language subtag of a tag: everything before the first `-`.
pub open spec fn lang_of(s: Seq<char>) -> Seq<char> {
    split_on(s, '-')[0]
}

/// A tag that carries subtags beyond the bare language.
pub open spec fn has_extra_subtags(s: Seq<char>) -> bool {
    lang_of(s) != s
}

fn all_alpha_str(s: &str) -> (r: bool)
    ensures
        r == all_alpha(s@),
{
    let n = s.unicode_len();
    let mut i: usize = 0;
    while i < n
        invariant
            i <= n,
            n == s@.len(),
            forall|j: int| 0 <= j < i ==> is_alpha(s@[j]),
        decreases n - i,
    {
        let u = s.get_char(i) as u32;
        if !((97 <= u && u <= 122) || (65 <= u && u <= 90)) {
            return false;
        }
        i = i + 1;
    }
    true
}

fn all_digit_str(s: &str) -> (r: bool)
    ensures
        r == all_digit(s@),
{
    let n = s.unicode_len();
    let mut i: usize = 0;
    while i < n
        invariant
            i <= n,
            n == s@.len(),
            forall|j: int| 0 <= j < i ==> is_digit(s@[j]),
        decreases n - i,
    {
        let u = s.get_char(i) as u32;
        if !(48 <= u && u <= 57) {
            return false;
        }
        i = i + 1;
    }
    true
}

fn all_alnum_str(s: &str) -> (r: bool)
    ensures
        r == all_alnum(s@),
{
    let n = s.unicode_len();
    let mut i: usize = 0;
    while i < n
        invariant
            i <= n,
            n == s@.len(),
            forall|j: int| 0 <= j < i ==> is_alnum(s@[j]),
        decreases n - i,
    {
        let u = s.get_char(i) as u32;
        if !((97 <= u && u <= 122) || (65 <= u && u <= 90) || (48 <= u && u <= 57)) {
            return false;
        }
        i = i + 1;
    }
    true
}

fn is_extra_subtag_str(s: &str) -> (r: bool)
    ensures
        r == is_extra_subtag(s@),
{
    let n = s.unicode_len();
    if n == 4 && all_alpha_str(s) {
        return true;
    }
    if n == 2 && all_alpha_str(s) {
        return true;
    }
    if n == 3 && all_digit_str(s) {
        return true;
    }
    if 5 <= n && n <= 8 && all_alnum_str(s) {
        return true;
    }
    if n == 4 && all_alnum_str(s) {
        let u = s.get_char(0) as u32;
        if 48 <= u && u <= 57 {
            return true;
        }
    }
    false
}

/// The executable counterpart of [`is_valid_tag`].
pub fn is_valid_tag_str(s: &str) -> (r: bool)
    ensures
        r == is_valid_tag(s@),
{
    let parts = split_str(s, '-');
    let first = &parts[0];
    let head = first.as_str();
    let flen = head.unicode_len();
    if !(2 <= flen && flen <= 8 && all_alpha_str(head)) {
        return false;
    }
    let mut i: usize = 1;
    while i < parts.len()
        invariant
            1 <= i <= parts@.len(),
            parts@.map_values(|p: String| p@) == split_on(s@, '-'),
            forall|j: int| 1 <= j < i ==> is_extra_subtag(#[trigger] split_on(s@, '-')[j]),
        decreases parts@.len() - i,
    {
        proof {
            assert(split_on(s@, '-')[i as int] == parts@.map_values(|p: String| p@)[i as int]);
        }
        if !is_extra_subtag_str(parts[i].as_str()) {
            return false;
        }
        i = i + 1;
    }
    true
}

/// The executable counterpart of [`lang_of`].
pub fn lang_prefix(s: &str) -> (r: String)
    ensures
        r@ == lang_of(s@),
{
    let n = s.unicode_len();
    let mut i: usize = 0;
    while i < n && s.get_char(i) != '-'
        invariant
            i <= n,
            n == s@.len(),
            forall|j: int| 0 <= j < i ==> s@[j] != '-',
        decreases n - i,
    {
        i = i + 1;
    }
    proof {
        if i < n {
            crate::text::lemma_split_on_first_sep(s@, '-', i as int);
        } else {
            crate::text::lemma_split_on_no_sep(s@, '-');
        }
        assert(s@.take(i as int) =~= s@.subrange(0, i as int));
        assert(s@.subrange(0, n as int) =~= s@);
    }
    s.substring_char(0, i).to_owned()
}

} // verus!
