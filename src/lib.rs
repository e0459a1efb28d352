//! Expansion of `{resource#query}` tokens in template text.
//!
//! A token names a resource file and a query into it. The markup grammar
//! admits XPath queries, which are evaluated over an XML document; the data
//! grammar admits JSONPath queries, evaluated over a JSON document. Each
//! token is replaced by the first value that its query selects.

pub mod grammar;
pub mod query;
pub mod replacer;
pub mod config;
pub mod laws;

pub use config::Config;
pub use grammar::{find_tokens, substitute, QueryLanguage, Token};
pub use query::{evaluate_query, first_match_text, ReplaceError};
pub use replacer::{apply, replace_tokens, ExpressionReplacer, JsonReplacer, Resource, XmlReplacer};
