//! The logic of a Tailwind class linter that drives a language server.

pub mod blocks;
pub mod check;
pub mod choices;
pub mod cli;
pub mod comments;
pub mod conflicts;
pub mod document;
pub mod edits;
pub mod exchanges;
pub mod finding;
pub mod fix;
pub mod groups;
pub mod json;
pub mod languages;
pub mod layout;
pub mod lists;
pub mod literals;
pub mod locations;
pub mod lsp;
pub mod order;
pub mod palette;
pub mod paths;
pub mod patterns;
pub mod positions;
pub mod protocol;
pub mod report;
pub mod resolve;
pub mod rewrites;
pub mod scan;
pub mod session;
pub mod settings;
pub mod shuffles;
pub mod suggestions;
pub mod sweep;
pub mod synthetic;
pub mod tallies;
pub mod talks;
pub mod text;
pub mod wording;
pub mod written;
