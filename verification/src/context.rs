//! The locale context: the locale chosen for one unit of work.
//!
//! A context is created `Unset`, may pass through `Negotiating` while a
//! preference string is being examined, and is `Selected` once negotiation
//! settles on a locale.  One context belongs to exactly one unit of work:
//! it is a plain owned value, never shared, so the locale one request
//! negotiates can neither be observed nor overwritten by another request
//! handled concurrently.  A context is discarded with its unit of work.

use crate::catalog::Localizations;
use crate::negotiate::negotiate_locale;
use crate::negotiate::negotiate_spec;
use vstd::prelude::*;

verus! {

/// The per-request locale state machine: `Unset`, `Negotiating`,
/// `Selected(locale)`.
pub enum LocaleContext {
    /// No preference string has been seen yet.
    Unset,
    /// A preference string is being examined.
    Negotiating,
    /// The locale negotiation settled on; the terminal state.
    Selected(String),
}

impl LocaleContext {
    /// The locale this context has settled on, if any.
    pub open spec fn locale_view(self) -> Option<Seq<char>> {
        match self {
            LocaleContext::Selected(l) => Option::Some(l@),
            _ => Option::None,
        }
    }

    /// The locale lookups under this context use: the one it settled on,
    /// else the catalog's fallback.
    pub open spec fn effective_locale(self, catalog: Localizations) -> Seq<char> {
        match self.locale_view() {
            Option::Some(l) => l,
            Option::None => catalog.fallback@,
        }
    }

    /// A fresh context for one unit of work.
    pub fn new() -> (r: Self)
        ensures
            r is Unset,
    {
        LocaleContext::Unset
    }

    /// Marks that a preference string has arrived.  `Selected` is terminal: a
    /// settled context stays as it is.
    pub fn begin_negotiation(&mut self)
        ensures
            (*old(self)) is Selected ==> *final(self) == *old(self),
            !((*old(self)) is Selected) ==> *final(self) is Negotiating,
    {
        if !(matches!(*self, LocaleContext::Selected(_))) {
            *self = LocaleContext::Negotiating;
        }
    }

    /// Negotiates `header` against the catalog.  When some candidate
    /// matches, the context settles on the selected locale and `true`
    /// comes back.  Otherwise the context — and with it the previously
    /// active locale — stays exactly as it was; the `false` is
    /// informational, never an error.
    pub fn negotiate(&mut self, catalog: &Localizations, header: &str) -> (changed: bool)
        ensures
            match negotiate_spec(catalog.locales_view(), header@) {
                Option::Some(l) => changed && *final(self) is Selected && final(self).locale_view()
                    == Option::Some(l),
                Option::None => !changed && *final(self) == *old(self),
            },
    {
        let selected = negotiate_locale(catalog, header);
        match selected {
            Option::Some(l) => {
                *self = LocaleContext::Selected(l);
                true
            },
            Option::None => false,
        }
    }
}

/// Negotiates an `Accept-Language` header for one unit of work: the
/// free-function form of [`LocaleContext::negotiate`].
pub fn set_language_from_accept_language(
    ctx: &mut LocaleContext,
    catalog: &Localizations,
    accept_language: &str,
) -> (changed: bool)
    ensures
        match negotiate_spec(catalog.locales_view(), accept_language@) {
            Option::Some(l) => changed && *final(ctx) is Selected && final(ctx).locale_view()
                == Option::Some(l),
            Option::None => !changed && *final(ctx) == *old(ctx),
        },
{
    ctx.negotiate(catalog, accept_language)
}

} // verus!
