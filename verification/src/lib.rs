//! Verified core of a side-by-side structural diff viewer.

pub mod text;
pub mod line_ending;
pub mod model;
pub mod segments;
pub mod edit;
pub mod history;
pub mod view;
pub mod controller;
pub mod cli;
pub mod paths;
pub mod probe;
pub mod format;
