//! Quick fixes and source actions offered for a document.
pub mod edit_distance;
pub mod syntax_index;
pub mod organize;
pub mod key_names;
pub mod common;
pub mod input;
pub mod fixes;
pub mod selection;
pub mod collect;
