//! Workspace symbol search: which definitions a query finds, how they rank.
pub mod score;
pub mod candidate;
pub mod rank;
