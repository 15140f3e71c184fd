//! The resource catalog.
//!
//! A resource file is a text of `message_id = template` lines; blank lines
//! and lines whose first non-blank character is `#` carry no entry.  Each
//! file yields one [`Bundle`]: an immutable mapping from message id to
//! template text for exactly one locale.  The [`Localizations`] catalog is
//! the set of all loaded bundles plus a designated fallback locale, whose
//! bundle must always be present.

use crate::locale::is_alnum;
use crate::locale::is_alpha;
use crate::locale::is_valid_tag;
use crate::locale::is_valid_tag_str;
use crate::text::find_char;
use crate::text::split_on;
use crate::text::split_str;
use crate::text::str_eq;
use crate::text::trim_spec;
use crate::text::trim_str;
use vstd::prelude::*;
use vstd::string::StrSliceExecFns;

verus! {

/// A message identifier: a letter followed by letters, digits, `-` or `_`.
pub open spec fn is_ident(s: Seq<char>) -> bool {
    s.len() >= 1 && is_alpha(s[0]) && forall|i: int|
        0 <= i < s.len() ==> is_alnum(#[trigger] s[i]) || s[i] == '-' || s[i] == '_'
}

/// A line that carries no entry: blank, or a comment.
pub open spec fn line_blank(l: Seq<char>) -> bool {
    trim_spec(l).len() == 0 || trim_spec(l)[0] == '#'
}

/// The entry a line defines: the trimmed identifier before the first `=`
/// and the trimmed template after it.
pub open spec fn line_entry(l: Seq<char>) -> Option<(Seq<char>, Seq<char>)> {
    match l.index_of_first('=') {
        Option::Some(k) => {
            let id = trim_spec(l.take(k));
            let template = trim_spec(l.skip(k + 1));
            if is_ident(id) {
                Option::Some((id, template))
            } else {
                Option::None
            }
        },
        Option::None => Option::None,
    }
}

pub open spec fn line_ok(l: Seq<char>) -> bool {
    line_blank(l) || line_entry(l) is Some
}

/// A resource text parses when every one of its lines does.
pub open spec fn resource_ok(text: Seq<char>) -> bool {
    forall|i: int|
        0 <= i < split_on(text, '\n').len() ==> line_ok(#[trigger] split_on(text, '\n')[i])
}

/// The entries of the non-blank lines, in order of appearance.
pub open spec fn entries_of_lines(lines: Seq<Seq<char>>) -> Seq<(Seq<char>, Seq<char>)>
    decreases lines.len(),
{
    if lines.len() == 0 {
        Seq::empty()
    } else {
        let prev = entries_of_lines(lines.drop_last());
        if line_blank(lines.last()) {
            prev
        } else {
            match line_entry(lines.last()) {
                Option::Some(e) => prev.push(e),
                Option::None => prev,
            }
        }
    }
}

pub open spec fn resource_entries(text: Seq<char>) -> Seq<(Seq<char>, Seq<char>)> {
    entries_of_lines(split_on(text, '\n'))
}

/// The executable counterpart of [`is_ident`].
fn is_ident_str(s: &str) -> (r: bool)
    ensures
        r == is_ident(s@),
{
    let n = s.unicode_len();
    if n == 0 {
        return false;
    }
    let u0 = s.get_char(0) as u32;
    if !((97 <= u0 && u0 <= 122) || (65 <= u0 && u0 <= 90)) {
        return false;
    }
    let mut i: usize = 0;
    while i < n
        invariant
            i <= n,
            n == s@.len(),
            forall|j: int|
                0 <= j < i ==> is_alnum(#[trigger] s@[j]) || s@[j] == '-' || s@[j] == '_',
        decreases n - i,
    {
        let c = s.get_char(i);
        let u = c as u32;
        if !((97 <= u && u <= 122) || (65 <= u && u <= 90) || (48 <= u && u <= 57) || c == '-'
            || c == '_') {
            return false;
        }
        i = i + 1;
    }
    true
}

/// Parses a resource text into parallel id and template vectors, in order of
/// appearance; yields nothing when some line neither carries an entry nor is
/// blank.
pub fn parse_resource(text: &str) -> (r: Option<(Vec<String>, Vec<String>)>)
    ensures
        match r {
            Option::Some(parsed) => resource_ok(text@) && parsed.0@.map_values(|s: String| s@)
                == resource_entries(text@).map_values(|e: (Seq<char>, Seq<char>)| e.0)
                && parsed.1@.map_values(|s: String| s@) == resource_entries(text@).map_values(
                |e: (Seq<char>, Seq<char>)| e.1,
            ),
            Option::None => !resource_ok(text@),
        },
{
    let lines = split_str(text, '\n');
    let ghost lv = split_on(text@, '\n');
    let mut ids: Vec<String> = Vec::new();
    let mut templates: Vec<String> = Vec::new();
    let mut i: usize = 0;
    proof {
        assert(lv.take(0) =~= Seq::<Seq<char>>::empty());
        assert(ids@.map_values(|s: String| s@) =~= entries_of_lines(lv.take(0)).map_values(
            |e: (Seq<char>, Seq<char>)| e.0,
        ));
        assert(templates@.map_values(|s: String| s@) =~= entries_of_lines(lv.take(0)).map_values(
            |e: (Seq<char>, Seq<char>)| e.1,
        ));
    }
    while i < lines.len()
        invariant
            i <= lines@.len(),
            lines@.map_values(|p: String| p@) == lv,
            lv == split_on(text@, '\n'),
            forall|j: int| 0 <= j < i ==> line_ok(#[trigger] lv[j]),
            ids@.map_values(|s: String| s@) == entries_of_lines(lv.take(i as int)).map_values(
                |e: (Seq<char>, Seq<char>)| e.0,
            ),
            templates@.map_values(|s: String| s@) == entries_of_lines(
                lv.take(i as int),
            ).map_values(|e: (Seq<char>, Seq<char>)| e.1),
        decreases lines@.len() - i,
    {
        proof {
            assert(lv[i as int] == lines@.map_values(|p: String| p@)[i as int]);
            assert(lv.take(i + 1).drop_last() =~= lv.take(i as int));
            assert(lv.take(i + 1).last() == lv[i as int]);
        }
        let line = lines[i].as_str();
        let t = trim_str(line);
        let tn = t.as_str().unicode_len();
        let blank: bool = tn == 0 || t.as_str().get_char(0) == '#';
        proof {
            assert(blank == line_blank(lv[i as int]));
        }
        if blank {
            proof {
                assert(entries_of_lines(lv.take(i + 1)) == entries_of_lines(lv.take(i as int)));
            }
        } else {
            let found = find_char(line, '=');
            match found {
                Option::None => {
                    proof {
                        assert(!line_ok(lv[i as int]));
                    }
                    return Option::None;
                },
                Option::Some(k) => {
                    proof {
                        line@.index_of_first_ensures('=');
                    }
                    let nn = line.unicode_len();
                    let id_s = trim_str(line.substring_char(0, k));
                    let tm_s = trim_str(line.substring_char(k + 1, nn));
                    proof {
                        assert(line@.subrange(0, k as int) =~= line@.take(k as int));
                        assert(line@.subrange(k + 1, nn as int) =~= line@.skip(k + 1));
                    }
                    if !is_ident_str(id_s.as_str()) {
                        proof {
                            assert(!line_ok(lv[i as int]));
                        }
                        return Option::None;
                    }
                    proof {
                        let e = (id_s@, tm_s@);
                        assert(line_entry(lv[i as int]) == Option::Some(e));
                        assert(entries_of_lines(lv.take(i + 1)) == entries_of_lines(
                            lv.take(i as int),
                        ).push(e));
                        assert(ids@.push(id_s).map_values(|s: String| s@) =~= ids@.map_values(
                            |s: String| s@,
                        ).push(id_s@));
                        assert(entries_of_lines(lv.take(i as int)).push(e).map_values(
                            |q: (Seq<char>, Seq<char>)| q.0,
                        ) =~= entries_of_lines(lv.take(i as int)).map_values(
                            |q: (Seq<char>, Seq<char>)| q.0,
                        ).push(e.0));
                        assert(templates@.push(tm_s).map_values(|s: String| s@)
                            =~= templates@.map_values(|s: String| s@).push(tm_s@));
                        assert(entries_of_lines(lv.take(i as int)).push(e).map_values(
                            |q: (Seq<char>, Seq<char>)| q.1,
                        ) =~= entries_of_lines(lv.take(i as int)).map_values(
                            |q: (Seq<char>, Seq<char>)| q.1,
                        ).push(e.1));
                    }
                    ids.push(id_s);
                    templates.push(tm_s);
                },
            }
        }
        i = i + 1;
    }
    proof {
        assert(lv.take(lines@.len() as int) =~= lv);
    }
    Option::Some((ids, templates))
}

/// No string appears twice in `v`.
fn all_distinct(v: &Vec<String>) -> (r: bool)
    ensures
        r == (forall|p: int, q: int| 0 <= p < q < v@.len() ==> v@[p]@ != v@[q]@),
{
    let mut i: usize = 0;
    while i < v.len()
        invariant
            i <= v@.len(),
            forall|p: int, q: int| 0 <= p < i && p < q < v@.len() ==> v@[p]@ != v@[q]@,
        decreases v@.len() - i,
    {
        let mut j: usize = i + 1;
        while j < v.len()
            invariant
                i < j <= v@.len() || (i + 1 == j && j > v@.len()),
                i < v@.len(),
                forall|p: int, q: int| 0 <= p < i && p < q < v@.len() ==> v@[p]@ != v@[q]@,
                forall|q: int| i < q < j ==> v@[i as int]@ != v@[q]@,
            decreases v@.len() - j,
        {
            if str_eq(v[i].as_str(), v[j].as_str()) {
                return false;
            }
            j = j + 1;
        }
        i = i + 1;
    }
    true
}

/// One locale's immutable message bundle: parallel id and template vectors.
pub struct Bundle {
    pub locale: String,
    pub ids: Vec<String>,
    pub templates: Vec<String>,
}

impl Bundle {
    pub open spec fn ids_view(self) -> Seq<Seq<char>> {
        self.ids@.map_values(|s: String| s@)
    }

    pub open spec fn templates_view(self) -> Seq<Seq<char>> {
        self.templates@.map_values(|s: String| s@)
    }

    /// Well-formed: one template per id, and no id twice.
    pub open spec fn wf(self) -> bool {
        self.ids@.len() == self.templates@.len() && forall|p: int, q: int|
            0 <= p < q < self.ids@.len() ==> self.ids@[p]@ != self.ids@[q]@
    }

    /// The template this bundle holds for `id`, if any.
    pub open spec fn lookup_spec(self, id: Seq<char>) -> Option<Seq<char>> {
        match self.ids_view().index_of_first(id) {
            Option::Some(i) => Option::Some(self.templates_view()[i]),
            Option::None => Option::None,
        }
    }

    /// Pure, read-only lookup of one message id.
    pub fn lookup(&self, id: &str) -> (r: Option<&String>)
        requires
            self.wf(),
        ensures
            match r {
                Option::Some(t) => self.lookup_spec(id@) == Option::Some(t@),
                Option::None => self.lookup_spec(id@) is None,
            },
    {
        let mut i: usize = 0;
        while i < self.ids.len()
            invariant
                i <= self.ids@.len(),
                self.wf(),
                forall|j: int| 0 <= j < i ==> self.ids_view()[j] != id@,
            decreases self.ids@.len() - i,
        {
            if str_eq(self.ids[i].as_str(), id) {
                proof {
                    let iv = self.ids_view();
                    iv.index_of_first_ensures(id@);
                    assert(iv[i as int] == id@);
                    assert(iv.contains(id@));
                    let idx = iv.index_of_first(id@).unwrap();
                    if idx < i {
                        assert(iv[idx] != id@);
                    }
                    if idx > i {
                        assert(iv[i as int] != id@);
                    }
                }
                return Option::Some(&self.templates[i]);
            }
            i = i + 1;
        }
        proof {
            let iv = self.ids_view();
            iv.index_of_first_ensures(id@);
            if iv.contains(id@) {
                let k = choose|k: int| 0 <= k < iv.len() && iv[k] == id@;
                assert(iv[k] != id@);
            }
        }
        Option::None
    }
}

/// The catalog: every loaded bundle, plus the designated fallback locale,
/// whose bundle is always present.  Built once, read-only afterwards, and
/// therefore safe for unlimited concurrent readers.
pub struct Localizations {
    pub fallback: String,
    pub bundles: Vec<Bundle>,
}

impl Localizations {
    /// The available-locale set, in load order.
    pub open spec fn locales_view(self) -> Seq<Seq<char>> {
        self.bundles@.map_values(|b: Bundle| b.locale@)
    }

    /// Well-formed: every bundle well-formed, one bundle per locale, and the
    /// fallback locale's bundle present.
    pub open spec fn wf(self) -> bool {
        &&& forall|i: int| 0 <= i < self.bundles@.len() ==> (#[trigger] self.bundles@[i]).wf()
        &&& forall|i: int, j: int|
            0 <= i < j < self.bundles@.len() ==> self.bundles@[i].locale@
                != self.bundles@[j].locale@
        &&& self.locales_view().contains(self.fallback@)
    }

    /// The index of the bundle for `loc`, if one is loaded.
    pub open spec fn bundle_index(self, loc: Seq<char>) -> Option<int> {
        self.locales_view().index_of_first(loc)
    }

    /// The template the catalog holds for `(loc, id)`, if any.
    pub open spec fn template_for(self, loc: Seq<char>, id: Seq<char>) -> Option<Seq<char>> {
        match self.bundle_index(loc) {
            Option::Some(i) => self.bundles@[i].lookup_spec(id),
            Option::None => Option::None,
        }
    }

    /// Pure, read-only lookup; safe for unlimited concurrent callers.
    pub fn lookup(&self, locale: &str, message_id: &str) -> (r: Option<String>)
        requires
            self.wf(),
        ensures
            match r {
                Option::Some(t) => self.template_for(locale@, message_id@) == Option::Some(t@),
                Option::None => self.template_for(locale@, message_id@) is None,
            },
    {
        let mut i: usize = 0;
        while i < self.bundles.len()
            invariant
                i <= self.bundles@.len(),
                self.wf(),
                forall|j: int| 0 <= j < i ==> self.locales_view()[j] != locale@,
            decreases self.bundles@.len() - i,
        {
            if str_eq(self.bundles[i].locale.as_str(), locale) {
                proof {
                    let lv = self.locales_view();
                    lv.index_of_first_ensures(locale@);
                    assert(lv[i as int] == locale@);
                    assert(lv.contains(locale@));
                    let idx = lv.index_of_first(locale@).unwrap();
                    if idx < i {
                        assert(lv[idx] != locale@);
                    }
                    if idx > i {
                        assert(lv[i as int] != locale@);
                    }
                }
                let found = self.bundles[i].lookup(message_id);
                return match found {
                    Option::Some(t) => Option::Some(t.clone()),
                    Option::None => Option::None,
                };
            }
            i = i + 1;
        }
        proof {
            let lv = self.locales_view();
            lv.index_of_first_ensures(locale@);
            if lv.contains(locale@) {
                let k = choose|k: int| 0 <= k < lv.len() && lv[k] == locale@;
                assert(lv[k] != locale@);
            }
        }
        Option::None
    }
}

/// Why catalog construction was refused.  Construction is all-or-nothing:
/// a single bad source aborts the load, since a partial catalog would
/// silently degrade lookups later.
#[derive(Clone, Copy, Debug, PartialEq, Eq, Structural)]
pub enum LoadError {
    /// The source at this position names a syntactically invalid locale.
    InvalidLocale(usize),
    /// The source at this position repeats an earlier source's locale.
    DuplicateLocale(usize),
    /// The source at this position has a line that neither carries an entry
    /// nor is blank.
    BadResource(usize),
    /// The source at this position defines some message id twice.
    DuplicateMessageId(usize),
    /// No source carries the designated fallback locale.
    MissingFallback,
}

/// The locales the sources claim, in order.
pub open spec fn source_locales(sources: Seq<(String, String)>) -> Seq<Seq<char>> {
    sources.map_values(|s: (String, String)| s.0@)
}

pub open spec fn locale_ok(sources: Seq<(String, String)>, i: int) -> bool {
    is_valid_tag(sources[i].0@)
}

pub open spec fn locale_fresh(sources: Seq<(String, String)>, i: int) -> bool {
    forall|j: int| 0 <= j < i ==> sources[j].0@ != sources[i].0@
}

pub open spec fn text_ok(sources: Seq<(String, String)>, i: int) -> bool {
    resource_ok(sources[i].1@)
}

pub open spec fn ids_distinct(sources: Seq<(String, String)>, i: int) -> bool {
    forall|p: int, q: int|
        0 <= p < q < resource_entries(sources[i].1@).len() ==> resource_entries(
            sources[i].1@,
        )[p].0 != resource_entries(sources[i].1@)[q].0
}

/// Everything `load` checks of one source.
pub open spec fn source_ok(sources: Seq<(String, String)>, i: int) -> bool {
    locale_ok(sources, i) && locale_fresh(sources, i) && text_ok(sources, i) && ids_distinct(
        sources,
        i,
    )
}

/// Builds the catalog from `(locale, resource text)` sources.  Succeeds if
/// and only if every source checks out and the fallback locale is among
/// them; the error pins down the first source that does not, and the first
/// check it fails.
pub fn load(fallback: &str, sources: Vec<(String, String)>) -> (r: Result<
    Localizations,
    LoadError,
>)
    ensures
        match r {
            Result::Ok(cat) => {
                &&& forall|i: int| 0 <= i < sources@.len() ==> source_ok(sources@, i)
                &&& source_locales(sources@).contains(fallback@)
                &&& cat.wf()
                &&& cat.fallback@ == fallback@
                &&& cat.locales_view() == source_locales(sources@)
                &&& cat.bundles@.len() == sources@.len()
                &&& forall|i: int|
                    0 <= i < sources@.len() ==> {
                        &&& (#[trigger] cat.bundles@[i]).ids_view() == resource_entries(
                            sources@[i].1@,
                        ).map_values(|e: (Seq<char>, Seq<char>)| e.0)
                        &&& cat.bundles@[i].templates_view() == resource_entries(
                            sources@[i].1@,
                        ).map_values(|e: (Seq<char>, Seq<char>)| e.1)
                    }
            },
            Result::Err(e) => match e {
                LoadError::InvalidLocale(i) => {
                    &&& (i as int) < sources@.len()
                    &&& forall|j: int| 0 <= j < i as int ==> source_ok(sources@, j)
                    &&& !locale_ok(sources@, i as int)
                },
                LoadError::DuplicateLocale(i) => {
                    &&& (i as int) < sources@.len()
                    &&& forall|j: int| 0 <= j < i as int ==> source_ok(sources@, j)
                    &&& locale_ok(sources@, i as int)
                    &&& !locale_fresh(sources@, i as int)
                },
                LoadError::BadResource(i) => {
                    &&& (i as int) < sources@.len()
                    &&& forall|j: int| 0 <= j < i as int ==> source_ok(sources@, j)
                    &&& locale_ok(sources@, i as int)
                    &&& locale_fresh(sources@, i as int)
                    &&& !text_ok(sources@, i as int)
                },
                LoadError::DuplicateMessageId(i) => {
                    &&& (i as int) < sources@.len()
                    &&& forall|j: int| 0 <= j < i as int ==> source_ok(sources@, j)
                    &&& locale_ok(sources@, i as int)
                    &&& locale_fresh(sources@, i as int)
                    &&& text_ok(sources@, i as int)
                    &&& !ids_distinct(sources@, i as int)
                },
                LoadError::MissingFallback => {
                    &&& forall|i: int| 0 <= i < sources@.len() ==> source_ok(sources@, i)
                    &&& !source_locales(sources@).contains(fallback@)
                },
            },
        },
{
    let mut bundles: Vec<Bundle> = Vec::new();
    let mut i: usize = 0;
    while i < sources.len()
        invariant
            i <= sources@.len(),
            bundles@.len() == i,
            forall|j: int| 0 <= j < i ==> source_ok(sources@, j),
            forall|j: int|
                0 <= j < i ==> {
                    &&& (#[trigger] bundles@[j]).locale@ == sources@[j].0@
                    &&& bundles@[j].wf()
                    &&& bundles@[j].ids_view() == resource_entries(sources@[j].1@).map_values(
                        |e: (Seq<char>, Seq<char>)| e.0,
                    )
                    &&& bundles@[j].templates_view() == resource_entries(
                        sources@[j].1@,
                    ).map_values(|e: (Seq<char>, Seq<char>)| e.1)
                },
        decreases sources@.len() - i,
    {
        if !is_valid_tag_str(sources[i].0.as_str()) {
            return Result::Err(LoadError::InvalidLocale(i));
        }
        let mut j: usize = 0;
        while j < i
            invariant
                j <= i < sources@.len(),
                forall|k: int| 0 <= k < i ==> source_ok(sources@, k),
                is_valid_tag(sources@[i as int].0@),
                forall|k: int| 0 <= k < j ==> sources@[k].0@ != sources@[i as int].0@,
            decreases i - j,
        {
            if str_eq(sources[j].0.as_str(), sources[i].0.as_str()) {
                return Result::Err(LoadError::DuplicateLocale(i));
            }
            j = j + 1;
        }
        let parsed = parse_resource(sources[i].1.as_str());
        match parsed {
            Option::None => {
                return Result::Err(LoadError::BadResource(i));
            },
            Option::Some(pair) => {
                let (ids, templates) = pair;
                if !all_distinct(&ids) {
                    proof {
                        let es = resource_entries(sources@[i as int].1@);
                        assert(ids@.map_values(|s: String| s@).len() == es.map_values(
                            |e: (Seq<char>, Seq<char>)| e.0,
                        ).len());
                        assert(!ids_distinct(sources@, i as int)) by {
                            if ids_distinct(sources@, i as int) {
                                assert forall|p: int, q: int|
                                    0 <= p < q < ids@.len() implies ids@[p]@ != ids@[q]@ by {
                                    assert(ids@.map_values(|s: String| s@)[p] == es.map_values(
                                        |e: (Seq<char>, Seq<char>)| e.0,
                                    )[p]);
                                    assert(ids@.map_values(|s: String| s@)[q] == es.map_values(
                                        |e: (Seq<char>, Seq<char>)| e.0,
                                    )[q]);
                                    assert(es[p].0 != es[q].0);
                                }
                                assert(false);
                            }
                        }
                    }
                    return Result::Err(LoadError::DuplicateMessageId(i));
                }
                proof {
                    let es = resource_entries(sources@[i as int].1@);
                    assert(ids@.map_values(|s: String| s@).len() == es.map_values(
                        |e: (Seq<char>, Seq<char>)| e.0,
                    ).len());
                    assert(ids_distinct(sources@, i as int)) by {
                        assert forall|p: int, q: int|
                            0 <= p < q < es.len() implies es[p].0 != es[q].0 by {
                            assert(ids@.map_values(|s: String| s@)[p] == es.map_values(
                                |e: (Seq<char>, Seq<char>)| e.0,
                            )[p]);
                            assert(ids@.map_values(|s: String| s@)[q] == es.map_values(
                                |e: (Seq<char>, Seq<char>)| e.0,
                            )[q]);
                            assert(ids@[p]@ != ids@[q]@);
                        }
                    }
                    assert(source_ok(sources@, i as int));
                }
                let b = Bundle { locale: sources[i].0.clone(), ids, templates };
                proof {
                    let es = resource_entries(sources@[i as int].1@);
                    assert(b.ids@.len() == es.map_values(
                        |e: (Seq<char>, Seq<char>)| e.0,
                    ).len());
                    assert(b.templates@.len() == es.map_values(
                        |e: (Seq<char>, Seq<char>)| e.1,
                    ).len());
                    assert(b.wf()) by {
                        assert forall|p: int, q: int|
                            0 <= p < q < b.ids@.len() implies b.ids@[p]@ != b.ids@[q]@ by {}
                    }
                }
                bundles.push(b);
            },
        }
        i = i + 1;
    }
    let mut j: usize = 0;
    while j < bundles.len()
        invariant
            j <= bundles@.len(),
            bundles@.len() == sources@.len(),
            forall|k: int| 0 <= k < sources@.len() ==> source_ok(sources@, k),
            forall|k: int|
                0 <= k < sources@.len() ==> {
                    &&& (#[trigger] bundles@[k]).locale@ == sources@[k].0@
                    &&& bundles@[k].wf()
                    &&& bundles@[k].ids_view() == resource_entries(sources@[k].1@).map_values(
                        |e: (Seq<char>, Seq<char>)| e.0,
                    )
                    &&& bundles@[k].templates_view() == resource_entries(
                        sources@[k].1@,
                    ).map_values(|e: (Seq<char>, Seq<char>)| e.1)
                },
            forall|k: int| 0 <= k < j ==> bundles@[k].locale@ != fallback@,
        decreases bundles@.len() - j,
    {
        if str_eq(bundles[j].locale.as_str(), fallback) {
            let cat = Localizations { fallback: fallback.to_owned(), bundles };
            proof {
                let lv = cat.locales_view();
                assert(lv =~= source_locales(sources@));
                assert(lv[j as int] == fallback@);
                assert(lv.contains(fallback@));
                assert(cat.wf()) by {
                    assert forall|p: int, q: int|
                        0 <= p < q < cat.bundles@.len() implies cat.bundles@[p].locale@
                        != cat.bundles@[q].locale@ by {
                        assert(source_ok(sources@, q));
                        assert(sources@[p].0@ != sources@[q].0@);
                    }
                }
            }
            return Result::Ok(cat);
        }
        j = j + 1;
    }
    proof {
        let sl = source_locales(sources@);
        assert(!sl.contains(fallback@)) by {
            if sl.contains(fallback@) {
                let k = choose|k: int| 0 <= k < sl.len() && sl[k] == fallback@;
                assert(bundles@[k].locale@ == sources@[k].0@);
                assert(sl[k] == sources@[k].0@);
                assert(bundles@[k].locale@ != fallback@);
            }
        }
    }
    Result::Err(LoadError::MissingFallback)
}

/// The fixed set of locales a catalog was loaded with, in load order.
pub fn available_languages(catalog: &Localizations) -> (r: Vec<String>)
    ensures
        r@.map_values(|s: String| s@) == catalog.locales_view(),
{
    let mut r: Vec<String> = Vec::new();
    let mut i: usize = 0;
    while i < catalog.bundles.len()
        invariant
            i <= catalog.bundles@.len(),
            r@.map_values(|s: String| s@) == catalog.locales_view().take(i as int),
        decreases catalog.bundles@.len() - i,
    {
        let loc = catalog.bundles[i].locale.clone();
        proof {
            let f = |s: String| s@;
            let lv = catalog.locales_view();
            let pushed = r@.push(loc);
            assert(r@.map_values(f).len() == r@.len());
            assert(r@.len() == i);
            assert forall|k: int| 0 <= k < i + 1 implies pushed.map_values(f)[k] == lv.take(
                i + 1,
            )[k] by {
                if k < i {
                    assert(pushed.map_values(f)[k] == f(r@[k]));
                    assert(r@.map_values(f)[k] == f(r@[k]));
                    assert(lv.take(i as int)[k] == lv[k]);
                } else {
                    assert(pushed.map_values(f)[k] == loc@);
                    assert(lv[i as int] == catalog.bundles@[i as int].locale@);
                }
            }
            assert(pushed.map_values(f) =~= lv.take(i + 1));
        }
        r.push(loc);
        i = i + 1;
    }
    proof {
        assert(catalog.locales_view().take(catalog.bundles@.len() as int)
            =~= catalog.locales_view());
    }
    r
}

} // verus!
