//! Verified core of the STR bundle editor: the text rules, tree bookkeeping,
//! selection and ordering decisions behind the desktop editor for `.str`
//! resource bundles.
pub mod chars;
pub mod text;
pub mod handlers;
pub mod model;
pub mod tree;
pub mod editor;
pub mod branch_move;
pub mod transfer;
pub mod shortcuts;
pub mod signature;
pub mod entries;
pub mod selection;
pub mod rename;
pub mod groups;
pub mod terminal;
pub mod batch;
pub mod clip;
pub mod multi;
pub mod places;
pub mod rows;
pub mod registry;
pub mod laws;
