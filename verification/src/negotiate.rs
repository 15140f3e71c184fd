//! Language negotiation.
//!
//! A preference header is a comma-separated list of entries; each entry is a
//! candidate language tag, optionally followed by `;`-separated parameters,
//! among them a quality `q=<value>`.  Negotiation ranks the syntactically
//! valid candidates by quality (header order breaking ties), matches each
//! against the available-locale set — exactly first, then by language
//! subtag — and selects the locale of the best-ranked matching candidate.
//! A header with no usable or no matching candidate selects nothing, and
//! the previously active locale is retained; this is deliberate graceful
//! degradation, never an error.

use crate::catalog::Localizations;
use crate::locale::all_digit;
use crate::locale::is_valid_tag;
use crate::locale::is_valid_tag_str;
use crate::locale::lang_of;
use crate::locale::lang_prefix;
use crate::text::split_on;
use crate::text::split_str;
use crate::text::str_eq;
use crate::text::trim_spec;
use crate::text::trim_str;
use vstd::prelude::*;
use vstd::string::StrSliceExecFns;

verus! {

/// The numeric value of a digit character.
pub open spec fn digit_val(c: char) -> int {
    c as u32 - 48
}

/// The thousandths written by up to three fractional digits.
pub open spec fn frac_value(d: Seq<char>) -> int {
    100 * (if d.len() >= 1 {
        digit_val(d[0])
    } else {
        0
    }) + 10 * (if d.len() >= 2 {
        digit_val(d[1])
    } else {
        0
    }) + (if d.len() >= 3 {
        digit_val(d[2])
    } else {
        0
    })
}

/// A quality value, in thousandths: `0` or `1`, optionally followed by a
/// point and at most three digits, never exceeding one.  Anything else does
/// not parse.
pub open spec fn q_value(s: Seq<char>) -> Option<int> {
    if s.len() == 0 || s.len() > 5 {
        Option::None
    } else if s[0] == '0' {
        if s.len() == 1 {
            Option::Some(0)
        } else if s[1] != '.' {
            Option::None
        } else if !all_digit(s.skip(2)) {
            Option::None
        } else {
            Option::Some(frac_value(s.skip(2)))
        }
    } else if s[0] == '1' {
        if s.len() == 1 {
            Option::Some(1000)
        } else if s[1] != '.' {
            Option::None
        } else if exists|i: int| 2 <= i < s.len() && s[i] != '0' {
            Option::None
        } else {
            Option::Some(1000)
        }
    } else {
        Option::None
    }
}

/// The candidate tag of one header entry: the trimmed text before the
/// first `;`.
pub open spec fn entry_tag(e: Seq<char>) -> Seq<char> {
    trim_spec(split_on(e, ';')[0])
}

/// An entry parameter that carries a quality: `q=` after trimming.
pub open spec fn is_q_param(p: Seq<char>) -> bool {
    trim_spec(p).len() >= 2 && trim_spec(p)[0] == 'q' && trim_spec(p)[1] == '='
}

/// The text after `q=` in the first quality parameter, if any.
pub open spec fn first_q(parts: Seq<Seq<char>>) -> Option<Seq<char>>
    decreases parts.len(),
{
    if parts.len() == 0 {
        Option::None
    } else if is_q_param(parts[0]) {
        Option::Some(trim_spec(parts[0]).skip(2))
    } else {
        first_q(parts.drop_first())
    }
}

pub open spec fn entry_q_text(e: Seq<char>) -> Option<Seq<char>> {
    first_q(split_on(e, ';').drop_first())
}

/// The quality of one entry: its `q` parameter where present (`None` when
/// that does not parse), the default `1000` otherwise.
pub open spec fn entry_quality(e: Seq<char>) -> Option<int> {
    match entry_q_text(e) {
        Option::Some(qs) => q_value(qs),
        Option::None => Option::Some(1000),
    }
}

/// The ranked candidate one entry contributes: its tag with its quality.
/// An entry whose tag is not valid language-tag syntax, or whose quality
/// does not parse, is discarded.
pub open spec fn entry_candidate(e: Seq<char>) -> Option<(Seq<char>, int)> {
    if !is_valid_tag(entry_tag(e)) {
        Option::None
    } else {
        match entry_quality(e) {
            Option::Some(q) => Option::Some((entry_tag(e), q)),
            Option::None => Option::None,
        }
    }
}

/// The candidates the entries contribute, in header order.
pub open spec fn candidates_of(entries: Seq<Seq<char>>) -> Seq<(Seq<char>, int)>
    decreases entries.len(),
{
    if entries.len() == 0 {
        Seq::empty()
    } else {
        let prev = candidates_of(entries.drop_last());
        match entry_candidate(entries.last()) {
            Option::Some(c) => prev.push(c),
            Option::None => prev,
        }
    }
}

pub open spec fn header_candidates(header: Seq<char>) -> Seq<(Seq<char>, int)> {
    candidates_of(split_on(header, ','))
}

/// The locale a candidate tag selects from the available set: the tag
/// itself on an exact match; otherwise the first available locale sharing
/// its language subtag; otherwise nothing.  The exact pass is tried first.
pub open spec fn match_for(avail: Seq<Seq<char>>, tag: Seq<char>) -> Option<Seq<char>> {
    if avail.contains(tag) {
        Option::Some(tag)
    } else {
        match avail.map_values(|a: Seq<char>| lang_of(a)).index_of_first(lang_of(tag)) {
            Option::Some(i) => Option::Some(avail[i]),
            Option::None => Option::None,
        }
    }
}

/// The winning candidate: the highest quality among those that match the
/// available set at all; ties go to the earliest in header order.
pub open spec fn selection(avail: Seq<Seq<char>>, cands: Seq<(Seq<char>, int)>) -> Option<
    (Seq<char>, int),
>
    decreases cands.len(),
{
    if cands.len() == 0 {
        Option::None
    } else {
        let prev = selection(avail, cands.drop_last());
        let last = cands.last();
        if match_for(avail, last.0) is Some {
            match prev {
                Option::Some(p) => if p.1 >= last.1 {
                    Option::Some(p)
                } else {
                    Option::Some(last)
                },
                Option::None => Option::Some(last),
            }
        } else {
            prev
        }
    }
}

/// What negotiating a header against an available-locale set yields.
pub open spec fn negotiate_spec(avail: Seq<Seq<char>>, header: Seq<char>) -> Option<Seq<char>> {
    match selection(avail, header_candidates(header)) {
        Option::Some(c) => match_for(avail, c.0),
        Option::None => Option::None,
    }
}

/// The winner is exactly what walking the candidates sorted by quality
/// descending — a stable sort, ties keeping header order — and taking the
/// first match would find: a matching candidate of maximal quality, and
/// the earliest such in header order.  When no candidate matches, nothing
/// is selected.
pub proof fn lemma_selection_is_best(avail: Seq<Seq<char>>, cands: Seq<(Seq<char>, int)>)
    ensures
        match selection(avail, cands) {
            Option::Some(c) => {
                &&& match_for(avail, c.0) is Some
                &&& exists|i: int|
                    {
                        &&& 0 <= i < cands.len()
                        &&& #[trigger] cands[i] == c
                        &&& forall|j: int|
                            0 <= j < cands.len() && match_for(
                                avail,
                                (#[trigger] cands[j]).0,
                            ) is Some ==> cands[j].1 <= c.1
                        &&& forall|j: int|
                            0 <= j < i && match_for(avail, (#[trigger] cands[j]).0) is Some
                                ==> cands[j].1 < c.1
                    }
            },
            Option::None => forall|j: int|
                0 <= j < cands.len() ==> match_for(avail, (#[trigger] cands[j]).0) is None,
        },
    decreases cands.len(),
{
    if cands.len() > 0 {
        let head = cands.drop_last();
        let last = cands.last();
        let n = cands.len() - 1;
        lemma_selection_is_best(avail, head);
        assert(forall|j: int| 0 <= j < n ==> #[trigger] cands[j] == head[j]);
        match selection(avail, head) {
            Option::Some(p) => {
                let ip = choose|i: int|
                    {
                        &&& 0 <= i < head.len()
                        &&& #[trigger] head[i] == p
                        &&& forall|j: int|
                            0 <= j < head.len() && match_for(
                                avail,
                                (#[trigger] head[j]).0,
                            ) is Some ==> head[j].1 <= p.1
                        &&& forall|j: int|
                            0 <= j < i && match_for(avail, (#[trigger] head[j]).0) is Some
                                ==> head[j].1 < p.1
                    };
                if match_for(avail, last.0) is Some {
                    if p.1 >= last.1 {
                        assert(selection(avail, cands) == Option::Some(p));
                        assert(cands[ip] == p);
                        assert(forall|j: int|
                            0 <= j < cands.len() && match_for(
                                avail,
                                (#[trigger] cands[j]).0,
                            ) is Some ==> cands[j].1 <= p.1);
                        assert(forall|j: int|
                            0 <= j < ip && match_for(avail, (#[trigger] cands[j]).0) is Some
                                ==> cands[j].1 < p.1);
                    } else {
                        assert(selection(avail, cands) == Option::Some(last));
                        assert(cands[n] == last);
                        assert(forall|j: int|
                            0 <= j < cands.len() && match_for(
                                avail,
                                (#[trigger] cands[j]).0,
                            ) is Some ==> cands[j].1 <= last.1);
                        assert(forall|j: int|
                            0 <= j < n && match_for(avail, (#[trigger] cands[j]).0) is Some
                                ==> cands[j].1 < last.1);
                    }
                } else {
                    assert(selection(avail, cands) == Option::Some(p));
                    assert(cands[ip] == p);
                    assert(forall|j: int|
                        0 <= j < cands.len() && match_for(
                            avail,
                            (#[trigger] cands[j]).0,
                        ) is Some ==> cands[j].1 <= p.1);
                    assert(forall|j: int|
                        0 <= j < ip && match_for(avail, (#[trigger] cands[j]).0) is Some
                            ==> cands[j].1 < p.1);
                }
            },
            Option::None => {
                if match_for(avail, last.0) is Some {
                    assert(selection(avail, cands) == Option::Some(last));
                    assert(cands[n] == last);
                    assert(forall|j: int|
                        0 <= j < cands.len() && match_for(
                            avail,
                            (#[trigger] cands[j]).0,
                        ) is Some ==> cands[j].1 <= last.1);
                    assert(forall|j: int|
                        0 <= j < n && match_for(avail, (#[trigger] cands[j]).0) is Some
                            ==> cands[j].1 < last.1);
                }
            },
        }
    }
}

/// When no candidate matches, nothing is selected.
pub proof fn lemma_no_match_no_selection(avail: Seq<Seq<char>>, cands: Seq<(Seq<char>, int)>)
    requires
        forall|i: int|
            0 <= i < cands.len() ==> match_for(avail, (#[trigger] cands[i]).0) is None,
    ensures
        selection(avail, cands) is None,
    decreases cands.len(),
{
    if cands.len() > 0 {
        assert(forall|i: int|
            0 <= i < cands.drop_last().len() ==> (#[trigger] cands.drop_last()[i])
                == cands[i]);
        lemma_no_match_no_selection(avail, cands.drop_last());
        assert(match_for(avail, cands.last().0) is None);
    }
}

/// A header none of whose candidates matches the available set selects
/// nothing: negotiation then retains the previously active locale.  A
/// header with no usable candidates at all — for instance one whose every
/// tag is syntactically invalid — satisfies the premise vacuously.
pub proof fn lemma_no_overlap_no_selection(avail: Seq<Seq<char>>, header: Seq<char>)
    requires
        forall|i: int|
            0 <= i < header_candidates(header).len() ==> match_for(
                avail,
                (#[trigger] header_candidates(header)[i]).0,
            ) is None,
    ensures
        negotiate_spec(avail, header) is None,
{
    lemma_no_match_no_selection(avail, header_candidates(header));
}

/// Skipping entry parameters that carry no quality leaves the first
/// quality parameter unchanged.
pub proof fn lemma_first_q_skip(parts: Seq<Seq<char>>, k: int)
    requires
        0 <= k <= parts.len(),
        forall|j: int| 0 <= j < k ==> !is_q_param(#[trigger] parts[j]),
    ensures
        first_q(parts) == first_q(parts.skip(k)),
    decreases k,
{
    if k > 0 {
        assert(!is_q_param(parts[0]));
        assert(parts.drop_first() =~= parts.skip(1));
        assert(forall|j: int|
            0 <= j < k - 1 ==> !is_q_param(#[trigger] parts.skip(1)[j]));
        lemma_first_q_skip(parts.skip(1), k - 1);
        assert(parts.skip(1).skip(k - 1) =~= parts.skip(k));
    }
    if k == 0 {
        assert(parts.skip(0) =~= parts);
    }
}

/// The executable counterpart of [`q_value`].
fn parse_q(s: &str) -> (r: Option<u16>)
    ensures
        match r {
            Option::Some(v) => q_value(s@) == Option::Some(v as int) && v <= 1000,
            Option::None => q_value(s@) is None,
        },
{
    let n = s.unicode_len();
    if n == 0 || n > 5 {
        return Option::None;
    }
    let c0 = s.get_char(0);
    if c0 == '0' {
        if n == 1 {
            return Option::Some(0);
        }
        if s.get_char(1) != '.' {
            return Option::None;
        }
        let mut i: usize = 2;
        while i < n
            invariant
                2 <= i <= n <= 5,
                n == s@.len(),
                s@[0] == '0',
                s@[1] == '.',
                forall|j: int| 2 <= j < i ==> crate::locale::is_digit(s@[j]),
            decreases n - i,
        {
            let u = s.get_char(i) as u32;
            if !(48 <= u && u <= 57) {
                proof {
                    assert(s@.skip(2)[i - 2] == s@[i as int]);
                    assert(!all_digit(s@.skip(2)));
                }
                return Option::None;
            }
            i = i + 1;
        }
        let ghost d = s@.skip(2);
        proof {
            assert(all_digit(d)) by {
                assert(forall|j: int| 0 <= j < d.len() ==> d[j] == s@[j + 2]);
            }
        }
        let mut v: u32 = 0;
        if n >= 3 {
            v = v + 100 * (s.get_char(2) as u32 - 48);
        }
        if n >= 4 {
            v = v + 10 * (s.get_char(3) as u32 - 48);
        }
        if n >= 5 {
            v = v + (s.get_char(4) as u32 - 48);
        }
        proof {
            assert(d.len() >= 1 ==> d[0] == s@[2]);
            assert(d.len() >= 2 ==> d[1] == s@[3]);
            assert(d.len() >= 3 ==> d[2] == s@[4]);
            assert(q_value(s@) == Option::Some(frac_value(d)));
        }
        return Option::Some(v as u16);
    }
    if c0 == '1' {
        if n == 1 {
            return Option::Some(1000);
        }
        if s.get_char(1) != '.' {
            return Option::None;
        }
        let mut i: usize = 2;
        while i < n
            invariant
                2 <= i <= n <= 5,
                n == s@.len(),
                s@[0] == '1',
                s@[1] == '.',
                forall|j: int| 2 <= j < i ==> s@[j] == '0',
            decreases n - i,
        {
            if s.get_char(i) != '0' {
                proof {
                    assert(2 <= i < s@.len() && s@[i as int] != '0');
                }
                return Option::None;
            }
            i = i + 1;
        }
        return Option::Some(1000);
    }
    Option::None
}

/// The executable counterpart of [`match_for`], against a catalog's
/// available locales.
fn match_locale(catalog: &Localizations, tag: &str) -> (r: Option<String>)
    ensures
        match r {
            Option::Some(l) => match_for(catalog.locales_view(), tag@) == Option::Some(l@),
            Option::None => match_for(catalog.locales_view(), tag@) is None,
        },
{
    let n = catalog.bundles.len();
    let mut i: usize = 0;
    while i < n
        invariant
            i <= n,
            n == catalog.bundles@.len(),
            forall|j: int| 0 <= j < i ==> catalog.locales_view()[j] != tag@,
        decreases n - i,
    {
        if str_eq(catalog.bundles[i].locale.as_str(), tag) {
            proof {
                assert(catalog.locales_view()[i as int] == tag@);
                assert(catalog.locales_view().contains(tag@));
            }
            return Option::Some(catalog.bundles[i].locale.clone());
        }
        i = i + 1;
    }
    proof {
        let lv = catalog.locales_view();
        if lv.contains(tag@) {
            let k = choose|k: int| 0 <= k < lv.len() && lv[k] == tag@;
            assert(lv[k] != tag@);
        }
    }
    let tl = lang_prefix(tag);
    let ghost langs = catalog.locales_view().map_values(|a: Seq<char>| lang_of(a));
    let mut i: usize = 0;
    while i < n
        invariant
            i <= n,
            n == catalog.bundles@.len(),
            tl@ == lang_of(tag@),
            langs == catalog.locales_view().map_values(|a: Seq<char>| lang_of(a)),
            !catalog.locales_view().contains(tag@),
            forall|j: int| 0 <= j < i ==> langs[j] != lang_of(tag@),
        decreases n - i,
    {
        let bl = lang_prefix(catalog.bundles[i].locale.as_str());
        proof {
            assert(langs[i as int] == lang_of(catalog.locales_view()[i as int]));
            assert(catalog.locales_view()[i as int] == catalog.bundles@[i as int].locale@);
        }
        if str_eq(bl.as_str(), tl.as_str()) {
            proof {
                langs.index_of_first_ensures(lang_of(tag@));
                assert(langs[i as int] == lang_of(tag@));
                assert(langs.contains(lang_of(tag@)));
                let idx = langs.index_of_first(lang_of(tag@)).unwrap();
                if idx < i {
                    assert(langs[idx] != lang_of(tag@));
                }
                if idx > i {
                    assert(langs[i as int] != lang_of(tag@));
                }
            }
            return Option::Some(catalog.bundles[i].locale.clone());
        }
        i = i + 1;
    }
    proof {
        langs.index_of_first_ensures(lang_of(tag@));
        if langs.contains(lang_of(tag@)) {
            let k = choose|k: int| 0 <= k < langs.len() && langs[k] == lang_of(tag@);
            assert(langs[k] != lang_of(tag@));
        }
    }
    Option::None
}

/// The text after `q=` in the entry's first quality parameter, if any;
/// `parts` are the `;`-separated pieces of one entry, tag first.
fn entry_q_param(parts: &Vec<String>) -> (r: Option<String>)
    requires
        parts@.len() >= 1,
    ensures
        match r {
            Option::Some(t) => first_q(parts@.map_values(|p: String| p@).drop_first())
                == Option::Some(t@),
            Option::None => first_q(parts@.map_values(|p: String| p@).drop_first()) is None,
        },
{
    let ghost pv = parts@.map_values(|p: String| p@).drop_first();
    let mut j: usize = 1;
    while j < parts.len()
        invariant
            1 <= j <= parts@.len(),
            pv == parts@.map_values(|p: String| p@).drop_first(),
            forall|k: int| 0 <= k < j - 1 ==> !is_q_param(#[trigger] pv[k]),
        decreases parts@.len() - j,
    {
        let pt = trim_str(parts[j].as_str());
        let ptn = pt.as_str().unicode_len();
        proof {
            assert(pv[j - 1] == parts@.map_values(|p: String| p@)[j as int]);
            assert(pt@ == trim_spec(pv[j - 1]));
        }
        if ptn >= 2 && pt.as_str().get_char(0) == 'q' && pt.as_str().get_char(1) == '=' {
            proof {
                assert(is_q_param(pv[j - 1]));
                lemma_first_q_skip(pv, j - 1);
                assert(pv.skip(j - 1)[0] == pv[j - 1]);
            }
            let qt = pt.as_str().substring_char(2, ptn).to_owned();
            proof {
                assert(qt@ =~= trim_spec(pv[j - 1]).skip(2));
            }
            return Option::Some(qt);
        }
        proof {
            assert(!is_q_param(pv[j - 1]));
        }
        j = j + 1;
    }
    proof {
        lemma_first_q_skip(pv, pv.len() as int);
        assert(pv.skip(pv.len() as int) =~= Seq::<Seq<char>>::empty());
    }
    Option::None
}

/// Negotiates a header against the catalog's available locales: the locale
/// selected by the best-ranked matching candidate, if any.  Yields nothing
/// — and the caller's active locale stays as it was — when no entry parses
/// or none matches.
pub fn negotiate_locale(catalog: &Localizations, header: &str) -> (r: Option<String>)
    ensures
        match r {
            Option::Some(l) => negotiate_spec(catalog.locales_view(), header@)
                == Option::Some(l@),
            Option::None => negotiate_spec(catalog.locales_view(), header@) is None,
        },
{
    let ghost avail = catalog.locales_view();
    let entries = split_str(header, ',');
    let ghost ev = split_on(header@, ',');
    let mut best_loc: Option<String> = Option::None;
    let mut best_q: u16 = 0;
    let ghost mut gtag: Seq<char> = Seq::empty();
    let ghost mut gq: int = 0;
    let mut i: usize = 0;
    proof {
        assert(ev.take(0) =~= Seq::<Seq<char>>::empty());
    }
    while i < entries.len()
        invariant
            i <= entries@.len(),
            entries@.map_values(|p: String| p@) == ev,
            ev == split_on(header@, ','),
            avail == catalog.locales_view(),
            match best_loc {
                Option::Some(l) => {
                    &&& selection(avail, candidates_of(ev.take(i as int))) == Option::Some(
                        (gtag, gq),
                    )
                    &&& match_for(avail, gtag) == Option::Some(l@)
                    &&& best_q as int == gq
                },
                Option::None => selection(avail, candidates_of(ev.take(i as int))) is None,
            },
        decreases entries@.len() - i,
    {
        proof {
            assert(ev[i as int] == entries@.map_values(|p: String| p@)[i as int]);
            assert(ev.take(i + 1).drop_last() =~= ev.take(i as int));
            assert(ev.take(i + 1).last() == ev[i as int]);
        }
        let e = entries[i].as_str();
        let parts = split_str(e, ';');
        let tag_s = trim_str(parts[0].as_str());
        proof {
            assert(parts@.map_values(|p: String| p@)[0] == split_on(ev[i as int], ';')[0]);
            assert(tag_s@ == entry_tag(ev[i as int]));
        }
        let mut discarded: bool = true;
        let mut q: u16 = 1000;
        if is_valid_tag_str(tag_s.as_str()) {
            let qtext = entry_q_param(&parts);
            proof {
                assert(parts@.map_values(|p: String| p@).drop_first() =~= split_on(
                    ev[i as int],
                    ';',
                ).drop_first());
            }
            match qtext {
                Option::None => {
                    discarded = false;
                    proof {
                        assert(entry_quality(ev[i as int]) == Option::Some(1000int));
                    }
                },
                Option::Some(qt) => {
                    let parsed = parse_q(qt.as_str());
                    match parsed {
                        Option::None => {
                            proof {
                                assert(entry_quality(ev[i as int]) is None);
                            }
                        },
                        Option::Some(v) => {
                            q = v;
                            discarded = false;
                            proof {
                                assert(entry_quality(ev[i as int]) == Option::Some(v as int));
                            }
                        },
                    }
                },
            }
        }
        if discarded {
            proof {
                assert(entry_candidate(ev[i as int]) is None);
                assert(candidates_of(ev.take(i + 1)) == candidates_of(ev.take(i as int)));
            }
        } else {
            let ghost c = (tag_s@, q as int);
            proof {
                assert(entry_candidate(ev[i as int]) == Option::Some(c));
                assert(candidates_of(ev.take(i + 1)) == candidates_of(ev.take(i as int)).push(
                    c,
                ));
                assert(candidates_of(ev.take(i as int)).push(c).drop_last() =~= candidates_of(
                    ev.take(i as int),
                ));
                assert(candidates_of(ev.take(i as int)).push(c).last() == c);
            }
            let matched = match_locale(catalog, tag_s.as_str());
            match matched {
                Option::None => {
                    proof {
                        assert(selection(avail, candidates_of(ev.take(i + 1))) == selection(
                            avail,
                            candidates_of(ev.take(i as int)),
                        ));
                    }
                },
                Option::Some(loc) => {
                    let take_it = best_loc.is_none() || q > best_q;
                    if take_it {
                        proof {
                            gtag = c.0;
                            gq = c.1;
                        }
                        best_loc = Option::Some(loc);
                        best_q = q;
                    }
                },
            }
        }
        i = i + 1;
    }
    proof {
        assert(ev.take(entries@.len() as int) =~= ev);
    }
    best_loc
}

} // verus!
