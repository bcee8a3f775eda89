//! Normalisation of environmental-monitoring workbooks: a rule engine that
//! decides, cell by cell, how a worksheet's text must change.
pub mod codec;
pub mod changes;
pub mod engine;
pub mod grid;
pub mod reshape;
pub mod terms;
pub mod text;
pub mod workbook;
