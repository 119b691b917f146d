//! A CSV toolkit whose logic is stated in contracts and proved.

use vstd::prelude::*;

pub mod canvas;
pub mod chart;
pub mod cli;
pub mod collect;
pub mod color;
pub mod compile;
pub mod console;
pub mod csv;
pub mod datetime;
pub mod describe;
pub mod error;
pub mod exec;
pub mod field;
pub mod graph;
pub mod group;
pub mod help;
pub mod highlight;
pub mod join;
pub mod laws;
pub mod manual;
pub mod outside;
pub mod pager;
pub mod parallel;
pub mod parquet;
pub mod plan;
pub mod prepare;
pub mod render;
pub mod resolve;
pub mod sort;
pub mod source;
pub mod stages;
pub mod stream;
pub mod text;
pub mod value;

verus! {

} // verus!
