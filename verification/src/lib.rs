//! Core logic of a World Bank indicator toolkit: text layout, parsing,
//! request planning, grouping statistics and styling, with contracts.

pub mod api;
pub mod chars;
pub mod cli;
pub mod decimal;
pub mod gui;
pub mod models;
pub mod numfmt;
pub mod order;
pub mod stats;
pub mod storage;
pub mod style;
pub mod viz;
pub mod viz_style;
