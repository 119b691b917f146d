//! What the operations are for: what their results must satisfy, and how they relate
//! to each other.

pub mod chart;
pub mod cli;
pub mod color;
pub mod compile;
pub mod csv;
pub mod describe;
pub mod draw;
pub mod group;
pub mod header;
pub mod help;
pub mod join;
pub mod numbers;
pub mod prepare;
pub mod render;
pub mod reply;
pub mod rows;
pub mod run;
pub mod screen;
pub mod select;
pub mod sort;
pub mod stages;
pub mod value;
pub mod width;
