//! Filename and path search: path helpers, the query language, scan and
//! exclusion rules, document text collection and the indexing decisions.
pub mod strings;
pub mod paths;
pub mod query;
pub mod scanner;
pub mod order;
pub mod xml_text;
pub mod documents;
pub mod records;
pub mod indexing;
pub mod search;
pub mod laws;
