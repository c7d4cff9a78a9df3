//! Hand builder: typed sugar that lays out a [`Plan`](crate::plan::representation::plan::Plan).
//!
//! Downward expand: `root` -> `find` / `children` / `expand` -> `attr` -> `map` -> `fold`
//! -> `build_plan`.

pub mod builder;
