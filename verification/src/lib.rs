//! A segmented-path matching substrate: path segmentation over strings,
//! byte paths and nested containers of either, and a cursor with capture
//! slots and snapshot/restore for backtracking route matchers.

pub mod route;
pub mod state;
