pub mod classify;
pub mod laws;
pub mod listing;
pub mod model;
pub mod plan;
pub mod resolve;
pub mod strutil;
pub mod tempname;
pub mod types;
pub mod validate;

pub use crate::classify::classify;
pub use crate::listing::parse_listing;
pub use crate::plan::build_plan;
pub use crate::tempname::get_temp_filename;
pub use crate::types::DeletionMarker;
pub use crate::types::OutputSpec;
pub use crate::types::PathState;
pub use crate::types::Plan;
pub use crate::types::PlanError;
pub use crate::types::RenameOp;
pub use crate::validate::validate;
