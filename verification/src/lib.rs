//! References and renames of beancount accounts.

pub mod account;
pub mod apply;
pub mod changes;
pub mod content;
pub mod cursor;
pub mod edits;
pub mod files;
pub mod layout;
pub mod lsp;
pub mod matches;
pub mod outcome;
pub mod references;
pub mod syntax;
pub mod text;
pub mod uri;
