//! Message keys resolved into localized strings.
//!
//! Translation files are JSON objects that give, for each key, a template in
//! each locale. They are read into a `TranslationTable`, one merged over the
//! other. A lookup then finds the template of a key in a locale, either in
//! the table itself or through a `Dispatch` generated from it, and
//! interpolation puts named values in the place of its `$name` placeholders.

pub mod assoc;
pub mod dispatch;
pub mod interpolate;
pub mod loader;
pub mod order;
pub mod parameters;
pub mod resolver;
pub mod strmap;
pub mod table;
pub mod text;

pub use crate::dispatch::{generate, Branch, Dispatch, Selection};
pub use crate::interpolate::{interpolate, interpolate_strict, MissingParameter, Params};
pub use crate::loader::{load_all, load_i18n, parse_translations, LoadFailure, ParseFailure};
pub use crate::parameters::{parameters_of, placeholder_names};
pub use crate::resolver::{resolve, t, translate, ResolveError};
pub use crate::strmap::StringMap;
pub use crate::table::{LocaleMap, TranslationTable};
