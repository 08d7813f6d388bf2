//! Parser, linter and serializer for the CNI configuration format:
//! line-oriented key/value text with `[section]` headers, dotted
//! hierarchical keys, bareword or backtick-delimited raw values,
//! comments, and two opt-in dialect extensions (`ini` comments and a
//! widened key character set).

pub mod api;
pub mod chars;
pub mod de;
pub mod dumper;
pub mod error;
pub mod format;
pub mod formatter;
pub mod grammar;
pub mod iter;
pub mod laws;
pub mod linter;
pub mod parser;
pub mod text;

pub use api::section_leaves;
pub use api::section_tree;
pub use api::sub_leaves;
pub use api::sub_tree;
pub use api::walk_leaves;
pub use api::walk_tree;
pub use dumper::dump;
pub use format::to_str;
pub use formatter::Format;
pub use linter::Diagnostic;
pub use linter::LintKind;
pub use linter::lint;
pub use parser::CniParser;
pub use parser::from_str;
pub use parser::from_str_opts;

pub use chars::is_comment;
pub use chars::is_key;
pub use chars::is_value;
pub use chars::is_vertical_ws;
pub use chars::Opts;
