//! Housekeeping rules for a tree of recorded-session logs, and the small text
//! helpers of the composer's external-editor hand-off.

pub mod cwd;
pub mod editor;
pub mod group;
pub mod migrate;
pub mod names;
pub mod record;
pub mod split;
pub mod text;
pub mod walk;
