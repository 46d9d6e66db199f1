//! A terminal spreadsheet engine: cells hold integer formulas, a dependency
//! graph keeps every formula's value in step with its inputs.
pub mod basic;
pub mod info;
pub mod sheet;
pub mod status;
pub mod text;
pub mod convert;
pub mod parser;
pub mod formulas;
pub mod list;
pub mod chains;
pub mod graph_model;
pub mod graph;
pub mod session;
pub mod vector;
pub mod deps;
pub mod dfs;
pub mod recompute;
pub mod evaluation;
pub mod vim;
pub mod compare;
pub mod sc_inputs;
pub mod line_editor;
pub mod excel;
