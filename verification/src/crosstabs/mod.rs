//! Crosstab and banner specifications: the spec-logic tree, its parser,
//! and its conversion to UNCLE syntax.

pub mod banners;
pub mod logic;
pub mod parse;
pub mod rewrite;
pub mod uncle_compose;
pub mod uncle_roundtrip;
pub mod uncle_syntax;
pub mod tables;

pub use banners::BannersTables;
pub use logic::{CrossTabsError, CrossTabsLogic, LogicTree};
pub use tables::{Banner, BannersTable, CrossTab, CrossTabsTable};
