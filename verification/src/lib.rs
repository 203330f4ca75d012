//! Report-platform logic: exact decimal amounts, the group consolidation engine,
//! the report formula language, and the floating-row expansion engine.
pub mod decimal;
pub mod text;
pub mod order;
pub mod amount_map;
pub mod consol;
pub mod grid;
pub mod expand;
pub mod formula;
pub mod ops;
pub mod store;
pub mod layout;
pub mod pages;
pub mod api;
