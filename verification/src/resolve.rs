//! Message resolution and argument substitution.
//!
//! Resolution walks a fallback chain — exact locale, bare language,
//! fallback locale — and, when the whole chain misses, returns the message
//! id verbatim.  That sentinel is a deliberate contract: callers can
//! always display the result, and no substitution is ever attempted on a
//! sentinel, even one that happens to contain placeholder-shaped text.

use crate::catalog::Localizations;
use crate::context::LocaleContext;
use crate::locale::has_extra_subtags;
use crate::locale::lang_of;
use crate::locale::lang_prefix;
use crate::text::replace_all;
use crate::text::replace_all_spec;
use crate::text::str_eq;
use vstd::prelude::*;

verus! {

/// The template the resolution chain settles on for `(loc, id)`: the exact
/// locale's bundle first; then, when the locale carries subtags beyond the
/// bare language, that language's bundle; then the fallback locale's.
pub open spec fn chain_template(
    catalog: Localizations,
    loc: Seq<char>,
    id: Seq<char>,
) -> Option<Seq<char>> {
    if catalog.template_for(loc, id) is Some {
        catalog.template_for(loc, id)
    } else if has_extra_subtags(loc) && catalog.template_for(lang_of(loc), id) is Some {
        catalog.template_for(lang_of(loc), id)
    } else {
        catalog.template_for(catalog.fallback@, id)
    }
}

/// The chain found nothing, and the id itself is returned.
pub open spec fn is_sentinel(catalog: Localizations, loc: Seq<char>, id: Seq<char>) -> bool {
    chain_template(catalog, loc, id) is None
}

/// What resolution yields: the template the chain settles on, or the id
/// verbatim.
pub open spec fn resolve_spec(catalog: Localizations, loc: Seq<char>, id: Seq<char>) -> Seq<
    char,
> {
    match chain_template(catalog, loc, id) {
        Option::Some(t) => t,
        Option::None => id,
    }
}

/// A template with every `{$name}` replaced by `name`, then every
/// `{$count}` replaced by `count`.
pub open spec fn substituted(t: Seq<char>, name: Seq<char>, count: Seq<char>) -> Seq<char> {
    replace_all_spec(replace_all_spec(t, "{$name}"@, name), "{$count}"@, count)
}

/// What resolution with arguments yields: the resolved template with both
/// placeholders filled — except that a sentinel is the id verbatim, with
/// no substitution attempted on it.
pub open spec fn resolve_with_args_spec(
    catalog: Localizations,
    loc: Seq<char>,
    id: Seq<char>,
    name: Seq<char>,
    count: Seq<char>,
) -> Seq<char> {
    match chain_template(catalog, loc, id) {
        Option::Some(t) => substituted(t, name, count),
        Option::None => id,
    }
}

/// Walks the resolution chain.
fn resolve_template(catalog: &Localizations, locale: &str, id: &str) -> (r: Option<String>)
    requires
        catalog.wf(),
    ensures
        match r {
            Option::Some(t) => chain_template(*catalog, locale@, id@) == Option::Some(t@),
            Option::None => chain_template(*catalog, locale@, id@) is None,
        },
{
    let direct = catalog.lookup(locale, id);
    match direct {
        Option::Some(t) => Option::Some(t),
        Option::None => {
            let lp = lang_prefix(locale);
            let bare = !str_eq(lp.as_str(), locale);
            if bare {
                let sub = catalog.lookup(lp.as_str(), id);
                match sub {
                    Option::Some(t) => {
                        return Option::Some(t);
                    },
                    Option::None => {},
                }
            }
            catalog.lookup(catalog.fallback.as_str(), id)
        },
    }
}

/// Resolves `message_id` under the context's locale.  An unknown id comes
/// back verbatim — never an error.
pub fn get_message(catalog: &Localizations, ctx: &LocaleContext, message_id: &str) -> (r:
    String)
    requires
        catalog.wf(),
    ensures
        r@ == resolve_spec(*catalog, ctx.effective_locale(*catalog), message_id@),
{
    let loc: String = match ctx {
        LocaleContext::Selected(l) => l.clone(),
        _ => catalog.fallback.clone(),
    };
    let found = resolve_template(catalog, loc.as_str(), message_id);
    match found {
        Option::Some(t) => t,
        Option::None => message_id.to_owned(),
    }
}

/// Resolves `message_id` and fills the `{$name}` and `{$count}`
/// placeholders.  A sentinel result is the id verbatim, untouched.
pub fn get_message_with_args(
    catalog: &Localizations,
    ctx: &LocaleContext,
    message_id: &str,
    name: &str,
    count: &str,
) -> (r: String)
    requires
        catalog.wf(),
    ensures
        r@ == resolve_with_args_spec(
            *catalog,
            ctx.effective_locale(*catalog),
            message_id@,
            name@,
            count@,
        ),
{
    let loc: String = match ctx {
        LocaleContext::Selected(l) => l.clone(),
        _ => catalog.fallback.clone(),
    };
    let found = resolve_template(catalog, loc.as_str(), message_id);
    match found {
        Option::None => message_id.to_owned(),
        Option::Some(t) => {
            proof {
                reveal_strlit("{$name}");
                reveal_strlit("{$count}");
            }
            let with_name = replace_all(t.as_str(), "{$name}", name);
            replace_all(with_name.as_str(), "{$count}", count)
        },
    }
}

/// Translates one message id for templates: [`get_message`] under another
/// name.
pub fn translate(catalog: &Localizations, ctx: &LocaleContext, message_id: &str) -> (r: String)
    requires
        catalog.wf(),
    ensures
        r@ == resolve_spec(*catalog, ctx.effective_locale(*catalog), message_id@),
{
    get_message(catalog, ctx, message_id)
}

/// Translates one message id with arguments for templates:
/// [`get_message_with_args`] under another name.
pub fn translate_with_args(
    catalog: &Localizations,
    ctx: &LocaleContext,
    message_id: &str,
    name: &str,
    count: &str,
) -> (r: String)
    requires
        catalog.wf(),
    ensures
        r@ == resolve_with_args_spec(
            *catalog,
            ctx.effective_locale(*catalog),
            message_id@,
            name@,
            count@,
        ),
{
    get_message_with_args(catalog, ctx, message_id, name, count)
}

/// No bundle of the catalog holds `loc, id` anywhere: `template_for`
/// cannot answer.
proof fn lemma_template_for_none(catalog: Localizations, loc: Seq<char>, id: Seq<char>)
    requires
        forall|i: int|
            0 <= i < catalog.bundles@.len() ==> !(#[trigger] catalog.bundles@[i]).ids_view()
                .contains(id),
    ensures
        catalog.template_for(loc, id) is None,
{
    catalog.locales_view().index_of_first_ensures(loc);
    match catalog.bundle_index(loc) {
        Option::Some(i) => {
            let b = catalog.bundles@[i];
            b.ids_view().index_of_first_ensures(id);
            if let Option::Some(k) = b.ids_view().index_of_first(id) {
                assert(b.ids_view().contains(id));
            }
        },
        Option::None => {},
    }
}

/// For every locale and every id the catalog does not know, resolution
/// returns the id itself, verbatim.
pub proof fn lemma_unknown_id_resolves_to_itself(
    catalog: Localizations,
    loc: Seq<char>,
    id: Seq<char>,
)
    requires
        forall|i: int|
            0 <= i < catalog.bundles@.len() ==> !(#[trigger] catalog.bundles@[i]).ids_view()
                .contains(id),
    ensures
        is_sentinel(catalog, loc, id),
        resolve_spec(catalog, loc, id) == id,
{
    lemma_template_for_none(catalog, loc, id);
    lemma_template_for_none(catalog, lang_of(loc), id);
    lemma_template_for_none(catalog, catalog.fallback@, id);
}

} // verus!

