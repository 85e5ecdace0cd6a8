//! Branch name and working-copy root of a Subversion checkout that follows
//! the conventional `trunk` / `branches` / `tags` layout.
//!
//! Both answers are computed from two facts about the working copy: the
//! repository URL of the current directory and its path relative to the
//! repository root, written with the marker `^`.

pub mod branch;
pub mod error;
pub mod info;
pub mod location;
pub mod root;
pub mod segments;

pub use crate::branch::branch;
pub use crate::error::AppErr;
pub use crate::info::WorkingCopyInfo;
pub use crate::root::root;
