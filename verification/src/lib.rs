pub mod formula_precomputer;
pub mod html_text;
pub mod logic;
pub mod truth_table_size_5;
