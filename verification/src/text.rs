//! Character-sequence utilities shared by the catalog, the negotiator and the
//! substitutor: splitting on a separator, trimming surrounding whitespace,
//! and substring search and replacement.

use vstd::prelude::*;
use vstd::string::StrSliceExecFns;

verus! {

/// Splits `s` at every occurrence of `sep`.  The separators themselves are
/// dropped; `n` separators always yield `n + 1` (possibly empty) pieces.
pub open spec fn split_on(s: Seq<char>, sep: char) -> Seq<Seq<char>>
    decreases s.len(),
        via split_on_decreases
{
    match s.index_of_first(sep) {
        Option::Some(i) => seq![s.take(i)] + split_on(s.skip(i + 1), sep),
        Option::None => seq![s],
    }
}

#[via_fn]
proof fn split_on_decreases(s: Seq<char>, sep: char) {
    s.index_of_first_ensures(sep);
}

/// A sequence free of the separator splits into itself alone.
pub proof fn lemma_split_on_no_sep(s: Seq<char>, sep: char)
    requires
        forall|j: int| 0 <= j < s.len() ==> s[j] != sep,
    ensures
        split_on(s, sep) == seq![s],
{
    s.index_of_first_ensures(sep);
    if let Option::Some(idx) = s.index_of_first(sep) {
        assert(s[idx] != sep);
        assert(false);
    }
}

/// When the first separator stands at `i`, the split is the prefix before it
/// followed by the split of the suffix after it.
pub proof fn lemma_split_on_first_sep(s: Seq<char>, sep: char, i: int)
    requires
        0 <= i < s.len(),
        s[i] == sep,
        forall|j: int| 0 <= j < i ==> s[j] != sep,
    ensures
        split_on(s, sep) == seq![s.take(i)] + split_on(s.skip(i + 1), sep),
{
    s.index_of_first_ensures(sep);
    assert(s.contains(sep));
    let idx = s.index_of_first(sep).unwrap();
    if idx < i {
        assert(s[idx] != sep);
        assert(false);
    }
    if idx > i {
        assert(s[i] != sep);
        assert(false);
    }
}

/// The executable counterpart of [`split_on`].
pub fn split_str(s: &str, sep: char) -> (parts: Vec<String>)
    ensures
        parts@.map_values(|p: String| p@) == split_on(s@, sep),
        parts@.len() >= 1,
{
    let n = s.unicode_len();
    let mut parts: Vec<String> = Vec::new();
    let mut start: usize = 0;
    let mut i: usize = 0;
    proof {
        assert(s@.skip(0) == s@) by {
            assert(s@.skip(0) =~= s@);
        }
        assert(parts@.map_values(|p: String| p@) + split_on(s@, sep) =~= split_on(s@, sep));
    }
    while i < n
        invariant
            start <= i <= n,
            n == s@.len(),
            forall|j: int| start <= j < i ==> s@[j] != sep,
            parts@.map_values(|p: String| p@) + split_on(s@.skip(start as int), sep) == split_on(
                s@,
                sep,
            ),
        decreases n - i,
    {
        if s.get_char(i) == sep {
            let piece = s.substring_char(start, i).to_owned();
            proof {
                let f = |p: String| p@;
                let tail = s@.skip(start as int);
                let p = i - start;
                assert(tail[p] == sep);
                assert(forall|j: int| 0 <= j < p ==> tail[j] != sep) by {
                    assert(forall|j: int| 0 <= j < p ==> tail[j] == s@[start + j]);
                }
                lemma_split_on_first_sep(tail, sep, p);
                assert(tail.take(p) =~= piece@);
                assert(tail.skip(p + 1) =~= s@.skip(i + 1));
                assert(parts@.push(piece).map_values(f) =~= parts@.map_values(f).push(piece@));
                assert(parts@.map_values(f).push(piece@) + split_on(s@.skip(i + 1), sep)
                    =~= parts@.map_values(f) + (seq![piece@] + split_on(s@.skip(i + 1), sep)));
                assert(seq![piece@] + split_on(s@.skip(i + 1), sep) == split_on(tail, sep));
                assert(parts@.push(piece).map_values(f) + split_on(s@.skip(i + 1), sep)
                    == split_on(s@, sep));
            }
            parts.push(piece);
            start = i + 1;
        }
        i = i + 1;
    }
    let piece = s.substring_char(start, n).to_owned();
    proof {
        let f = |p: String| p@;
        let tail = s@.skip(start as int);
        assert(forall|j: int| 0 <= j < tail.len() ==> tail[j] != sep) by {
            assert(forall|j: int| 0 <= j < tail.len() ==> tail[j] == s@[start + j]);
        }
        lemma_split_on_no_sep(tail, sep);
        assert(tail =~= piece@);
        assert(parts@.push(piece).map_values(f) =~= parts@.map_values(f).push(piece@));
        assert(parts@.map_values(f).push(piece@) =~= parts@.map_values(f) + seq![piece@]);
        assert(parts@.push(piece).map_values(f) == split_on(s@, sep));
    }
    parts.push(piece);
    parts
}

/// ASCII whitespace, the only kind tolerated around header entries and
/// resource lines.
pub open spec fn is_space(c: char) -> bool {
    c == ' ' || c == '\t' || c == '\r' || c == '\n'
}

/// `s` without its leading whitespace.
pub open spec fn trim_left(s: Seq<char>) -> Seq<char>
    decreases s.len(),
{
    if s.len() > 0 && is_space(s[0]) {
        trim_left(s.drop_first())
    } else {
        s
    }
}

/// `s` without its trailing whitespace.
pub open spec fn trim_right(s: Seq<char>) -> Seq<char>
    decreases s.len(),
{
    if s.len() > 0 && is_space(s.last()) {
        trim_right(s.drop_last())
    } else {
        s
    }
}

/// `s` without leading and trailing whitespace.
pub open spec fn trim_spec(s: Seq<char>) -> Seq<char> {
    trim_right(trim_left(s))
}

/// The executable counterpart of [`trim_spec`].
pub fn trim_str(s: &str) -> (r: String)
    ensures
        r@ == trim_spec(s@),
{
    let n = s.unicode_len();
    let mut lo: usize = 0;
    proof {
        assert(s@.skip(0) =~= s@);
    }
    while lo < n && is_space_char(s.get_char(lo))
        invariant
            lo <= n,
            n == s@.len(),
            trim_left(s@) == trim_left(s@.skip(lo as int)),
        decreases n - lo,
    {
        proof {
            let t = s@.skip(lo as int);
            assert(t[0] == s@[lo as int]);
            assert(t.drop_first() =~= s@.skip(lo + 1));
        }
        lo = lo + 1;
    }
    proof {
        let t = s@.skip(lo as int);
        if lo < n {
            assert(t[0] == s@[lo as int]);
        }
        assert(trim_left(s@) == t);
    }
    let mut hi: usize = n;
    proof {
        assert(s@.skip(lo as int).take(n - lo) =~= s@.skip(lo as int));
    }
    while hi > lo && is_space_char(s.get_char(hi - 1))
        invariant
            lo <= hi <= n,
            n == s@.len(),
            trim_left(s@) == s@.skip(lo as int),
            trim_right(s@.skip(lo as int)) == trim_right(s@.skip(lo as int).take(hi - lo)),
        decreases hi,
    {
        proof {
            let t = s@.skip(lo as int);
            let k = hi - lo;
            assert(t.take(k).last() == s@[hi - 1]);
            assert(t.take(k).drop_last() =~= t.take(k - 1));
        }
        hi = hi - 1;
    }
    proof {
        let t = s@.skip(lo as int);
        let k = hi - lo;
        if hi > lo {
            assert(t.take(k).last() == s@[hi - 1]);
        }
        assert(trim_spec(s@) == t.take(k));
        assert(t.take(k) =~= s@.subrange(lo as int, hi as int));
    }
    s.substring_char(lo, hi).to_owned()
}

/// The executable counterpart of [`is_space`].
pub fn is_space_char(c: char) -> (r: bool)
    ensures
        r == is_space(c),
{
    c == ' ' || c == '\t' || c == '\r' || c == '\n'
}

/// `pat` occurs in `s` starting at position `i`.
pub open spec fn occurs_at(s: Seq<char>, pat: Seq<char>, i: int) -> bool {
    0 <= i && i + pat.len() <= s.len() && s.subrange(i, i + pat.len()) == pat
}

/// The position of the first occurrence of `pat` in `s`, if any.
pub open spec fn find_sub(s: Seq<char>, pat: Seq<char>) -> Option<int>
    decreases s.len(),
        via find_sub_decreases
{
    if pat.len() > s.len() {
        Option::None
    } else if s.take(pat.len() as int) == pat {
        Option::Some(0)
    } else {
        match find_sub(s.drop_first(), pat) {
            Option::Some(i) => Option::Some(i + 1),
            Option::None => Option::None,
        }
    }
}

#[via_fn]
proof fn find_sub_decreases(s: Seq<char>, pat: Seq<char>) {
    if pat.len() <= s.len() && s.len() == 0 {
        assert(s.take(pat.len() as int) =~= pat);
    }
}

/// Shifting a search window: an occurrence in `s.skip(off)` is an occurrence
/// in `s`, `off` positions later.
pub proof fn lemma_occurs_skip(s: Seq<char>, pat: Seq<char>, off: int, j: int)
    requires
        0 <= off <= s.len(),
        0 <= j,
    ensures
        occurs_at(s.skip(off), pat, j) == occurs_at(s, pat, off + j),
{
    if j + pat.len() <= s.len() - off {
        assert(s.skip(off).subrange(j, j + pat.len()) =~= s.subrange(
            off + j,
            off + j + pat.len(),
        ));
    }
}

/// [`find_sub`] finds exactly the first occurrence.
pub proof fn lemma_find_sub_props(s: Seq<char>, pat: Seq<char>)
    ensures
        match find_sub(s, pat) {
            Option::Some(i) => occurs_at(s, pat, i) && forall|j: int|
                0 <= j < i ==> !occurs_at(s, pat, j),
            Option::None => forall|j: int| !occurs_at(s, pat, j),
        },
    decreases s.len(),
{
    if pat.len() > s.len() {
    } else if s.take(pat.len() as int) == pat {
        assert(s.subrange(0, pat.len() as int) =~= s.take(pat.len() as int));
    } else {
        assert(s.len() > 0) by {
            if s.len() == 0 {
                assert(s.take(pat.len() as int) =~= pat);
            }
        }
        lemma_find_sub_props(s.drop_first(), pat);
        assert(!occurs_at(s, pat, 0)) by {
            if occurs_at(s, pat, 0) {
                assert(s.take(pat.len() as int) =~= s.subrange(0, pat.len() as int));
            }
        }
        match find_sub(s.drop_first(), pat) {
            Option::Some(i) => {
                lemma_occurs_skip(s, pat, 1, i);
                assert(s.drop_first() =~= s.skip(1));
                assert(forall|j: int| 0 <= j < i + 1 ==> !occurs_at(s, pat, j)) by {
                    assert forall|j: int| 0 <= j < i + 1 implies !occurs_at(s, pat, j) by {
                        if j > 0 && occurs_at(s, pat, j) {
                            lemma_occurs_skip(s, pat, 1, j - 1);
                        }
                    }
                }
            },
            Option::None => {
                assert(forall|j: int| !occurs_at(s, pat, j)) by {
                    assert forall|j: int| !occurs_at(s, pat, j) by {
                        if j > 0 && occurs_at(s, pat, j) {
                            lemma_occurs_skip(s, pat, 1, j - 1);
                            assert(s.drop_first() =~= s.skip(1));
                        }
                    }
                }
            },
        }
    }
}

/// Conversely, the first occurrence determines [`find_sub`].
pub proof fn lemma_find_sub_at(s: Seq<char>, pat: Seq<char>, i: int)
    requires
        occurs_at(s, pat, i),
        forall|j: int| 0 <= j < i ==> !occurs_at(s, pat, j),
    ensures
        find_sub(s, pat) == Option::Some(i),
{
    lemma_find_sub_props(s, pat);
    match find_sub(s, pat) {
        Option::Some(k) => {
            if k < i {
                assert(!occurs_at(s, pat, k));
            }
            if k > i {
                assert(!occurs_at(s, pat, i));
            }
        },
        Option::None => {
            assert(!occurs_at(s, pat, i));
        },
    }
}

/// `s` with every occurrence of `pat` replaced by `val`, scanning left to
/// right; occurrences introduced by `val` itself are not replaced again.
/// An empty pattern replaces nothing.
pub open spec fn replace_all_spec(s: Seq<char>, pat: Seq<char>, val: Seq<char>) -> Seq<char>
    decreases s.len(),
        via replace_all_spec_decreases
{
    if pat.len() == 0 {
        s
    } else {
        match find_sub(s, pat) {
            Option::Some(i) => s.take(i) + val + replace_all_spec(
                s.skip(i + pat.len()),
                pat,
                val,
            ),
            Option::None => s,
        }
    }
}

#[via_fn]
proof fn replace_all_spec_decreases(s: Seq<char>, pat: Seq<char>, val: Seq<char>) {
    if pat.len() != 0 {
        lemma_find_sub_props(s, pat);
    }
}

/// Whether `pat` occurs at position `i` of `s`, by character comparison.
fn match_at(s: &str, pat: &str, i: usize, n: usize, m: usize) -> (r: bool)
    requires
        n == s@.len(),
        m == pat@.len(),
        i + m <= n,
    ensures
        r == occurs_at(s@, pat@, i as int),
{
    let mut k: usize = 0;
    while k < m
        invariant
            i + m <= n,
            n == s@.len(),
            m == pat@.len(),
            k <= m,
            forall|t: int| 0 <= t < k ==> s@[i + t] == pat@[t],
        decreases m - k,
    {
        if s.get_char(i + k) != pat.get_char(k) {
            proof {
                if occurs_at(s@, pat@, i as int) {
                    assert(s@.subrange(i as int, i + m)[k as int] == s@[i + k]);
                }
            }
            return false;
        }
        k = k + 1;
    }
    proof {
        assert(s@.subrange(i as int, i + m) =~= pat@);
    }
    true
}

/// The first occurrence of `pat` in `s` at or after position `from`.
pub fn find_in(s: &str, pat: &str, from: usize) -> (r: Option<usize>)
    requires
        from <= s@.len(),
    ensures
        match r {
            Option::Some(j) => from <= j && occurs_at(s@, pat@, j as int) && forall|t: int|
                from <= t < j ==> !occurs_at(s@, pat@, t),
            Option::None => forall|t: int| from <= t ==> !occurs_at(s@, pat@, t),
        },
{
    let n = s.unicode_len();
    let m = pat.unicode_len();
    if m > n {
        return None;
    }
    if m == 0 {
        proof {
            assert(s@.subrange(from as int, from as int) =~= pat@);
        }
        return Some(from);
    }
    let mut i: usize = from;
    while i <= n - m
        invariant
            from <= i,
            1 <= m <= n,
            i <= n,
            n == s@.len(),
            m == pat@.len(),
            forall|t: int| from <= t < i ==> !occurs_at(s@, pat@, t),
        decreases n - i,
    {
        if match_at(s, pat, i, n, m) {
            return Some(i);
        }
        i = i + 1;
    }
    proof {
        assert forall|t: int| from <= t implies !occurs_at(s@, pat@, t) by {
            if occurs_at(s@, pat@, t) {
                assert(t + m <= n);
            }
        }
    }
    None
}

/// The executable counterpart of [`replace_all_spec`].
pub fn replace_all(s: &str, pat: &str, val: &str) -> (r: String)
    requires
        pat@.len() > 0,
    ensures
        r@ == replace_all_spec(s@, pat@, val@),
{
    let n = s.unicode_len();
    let m = pat.unicode_len();
    let mut out = String::new();
    let mut pos: usize = 0;
    proof {
        assert(s@.skip(0) =~= s@);
        assert(out@ + replace_all_spec(s@, pat@, val@) =~= replace_all_spec(s@, pat@, val@));
    }
    loop
        invariant
            pos <= n,
            n == s@.len(),
            m == pat@.len(),
            m > 0,
            out@ + replace_all_spec(s@.skip(pos as int), pat@, val@) == replace_all_spec(
                s@,
                pat@,
                val@,
            ),
        decreases n - pos,
    {
        let found = find_in(s, pat, pos);
        match found {
            Some(j) => {
                proof {
                    let tail = s@.skip(pos as int);
                    let p = j - pos;
                    lemma_occurs_skip(s@, pat@, pos as int, p);
                    assert forall|t: int| 0 <= t < p implies !occurs_at(tail, pat@, t) by {
                        lemma_occurs_skip(s@, pat@, pos as int, t);
                    }
                    lemma_find_sub_at(tail, pat@, p);
                    assert(tail.take(p) =~= s@.subrange(pos as int, j as int));
                    assert(tail.skip(p + m) =~= s@.skip(j + m));
                    assert(replace_all_spec(tail, pat@, val@) == s@.subrange(pos as int, j as int)
                        + val@ + replace_all_spec(s@.skip(j + m), pat@, val@));
                    assert((out@ + s@.subrange(pos as int, j as int) + val@) + replace_all_spec(
                        s@.skip(j + m),
                        pat@,
                        val@,
                    ) =~= out@ + replace_all_spec(tail, pat@, val@));
                }
                out.append(s.substring_char(pos, j));
                out.append(val);
                pos = j + m;
            },
            None => {
                proof {
                    let tail = s@.skip(pos as int);
                    lemma_find_sub_props(tail, pat@);
                    if let Option::Some(i) = find_sub(tail, pat@) {
                        lemma_occurs_skip(s@, pat@, pos as int, i);
                    }
                    assert(replace_all_spec(tail, pat@, val@) == tail);
                    assert(tail =~= s@.subrange(pos as int, n as int));
                }
                out.append(s.substring_char(pos, n));
                return out;
            },
        }
    }
}

/// The position of the first occurrence of `sep` in `s`, if any.
pub fn find_char(s: &str, sep: char) -> (r: Option<usize>)
    ensures
        match r {
            Option::Some(i) => s@.index_of_first(sep) == Option::Some(i as int),
            Option::None => s@.index_of_first(sep) is None,
        },
{
    let n = s.unicode_len();
    let mut i: usize = 0;
    while i < n
        invariant
            i <= n,
            n == s@.len(),
            forall|j: int| 0 <= j < i ==> s@[j] != sep,
        decreases n - i,
    {
        if s.get_char(i) == sep {
            proof {
                s@.index_of_first_ensures(sep);
                assert(s@.contains(sep));
                let idx = s@.index_of_first(sep).unwrap();
                if idx < i {
                    assert(s@[idx] != sep);
                }
                if idx > i {
                    assert(s@[i as int] != sep);
                }
            }
            return Some(i);
        }
        i = i + 1;
    }
    proof {
        s@.index_of_first_ensures(sep);
        if let Option::Some(idx) = s@.index_of_first(sep) {
            assert(s@[idx] != sep);
        }
    }
    None
}

/// String-slice equality, stated over the character views.
pub fn str_eq(a: &str, b: &str) -> (r: bool)
    ensures
        r == (a@ == b@),
{
    let sa = a.to_owned();
    let sb = b.to_owned();
    sa.eq(&sb)
}

} // verus!
