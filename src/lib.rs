//! Housekeeping commands for a version-controlled repository: a parser for
//! the raw reference-log format, recency ranking of references, and the
//! decisions of a two-phase submodule synchronisation.
//!
//! Each module states its behaviour over spec functions of its own; the
//! executable items and the types are also available at the crate root.

pub mod object_id;
pub mod ranking;
pub mod reflog;
pub mod select;
pub mod submodules;

pub use object_id::{ObjectId, ID_BYTES};
pub use ranking::{is_listed, latest_record, rank_refs, RankedRef, RefInfo, RefLog};
pub use reflog::{parse_reflog_line, ReflogError, ReflogRecord};
pub use select::{explicit_selection, parse_usize, reply_to_selection, Selection};
pub use submodules::{
    check_submodule, checkout_target, is_out_of_date, update_action, validate_submodules,
    SubmoduleStatus, SyncError, UpdateAction,
};
