//! A localization resolution engine.
//!
//! The library loads per-locale message catalogs, negotiates a request's
//! preferred locale from an `Accept-Language`-style header, resolves message
//! identifiers through a fallback chain, and substitutes named parameters
//! into resolved templates.
//!
//! The catalog ([`Localizations`]) is built once, before any requests are
//! served, and is read-only afterwards.  The locale chosen for one unit of
//! work lives in a [`LocaleContext`] value owned by that unit of work alone,
//! so concurrently handled requests can never observe or overwrite each
//! other's negotiated locale.

pub mod catalog;
pub mod context;
pub mod locale;
pub mod negotiate;
pub mod resolve;
pub mod text;

pub use catalog::available_languages;
pub use catalog::load;
pub use catalog::Bundle;
pub use catalog::LoadError;
pub use catalog::Localizations;
pub use context::set_language_from_accept_language;
pub use context::LocaleContext;
pub use negotiate::negotiate_locale;
pub use resolve::get_message;
pub use resolve::get_message_with_args;
pub use resolve::translate;
pub use resolve::translate_with_args;
