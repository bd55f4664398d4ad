//! A terminal regex debugger's core: pattern explanations, export records,
//! match indexing and the editor state machine, each with its contract.

pub mod text;
pub mod explain;
pub mod regex_debug;
pub mod export;
pub mod frequencies;
pub mod match_index;
pub mod ui;
pub mod file_view;
pub mod app;
