//! Word frequencies of texts: each text is split on whitespace, each token
//! is normalized (trimmed of non-alphanumeric characters at both ends and
//! lowercased) and counted, and the counts of many texts are merged word by
//! word, in any order.

pub mod count;
pub mod merge;
pub mod text;
pub mod top;
