//! Survey data processing: RFL record layouts, CFMC skip logic, crosstab
//! banner specifications and UNCLE weighting qualifications.

pub mod cfmc;
pub mod crosstabs;
pub mod question_table;
pub mod regex_calls;
pub mod rfl;
pub mod text;
pub mod text_map;
pub mod tools;
pub mod weight;

pub use cfmc::{CfmcLogic, CfmcNode, CfmcOperator};
pub use crosstabs::{Banner, BannersTable, BannersTables, CrossTab, CrossTabsError, CrossTabsLogic, CrossTabsTable};
pub use rfl::{QuestionType, RflFile, RflQuestion};
pub use weight::{CodeVal, LiteralMatch, ParseError, RQual, RValue, Relation, UncleExpr};
