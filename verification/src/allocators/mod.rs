//! Building blocks of an allocator that keeps its objects in runs: chunks
//! of pages, a bitmap per run, bins of runs with objects of one size, and
//! an arena of bins.

pub mod arena;
pub mod bin;
pub mod chunk;
pub mod metadata;
pub mod run;
