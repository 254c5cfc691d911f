//! Groups the files of a directory into folders named after their extensions.
//!
//! The library decides; it never touches the file system. A caller lists a
//! directory, hands the entries over as plain values, and carries out the
//! folder creations, copies and deletions that the library asks for.

pub mod error;
pub mod token;
pub mod sorted;
pub mod rank;
pub mod plan;
pub mod listing;
pub mod effect;

pub use error::SortError;
pub use listing::{get_dirs_recursively, get_files_in_dir, get_os_sep, is_hidden, DirItem};
pub use plan::{
    first_step, mass_make_dirs, next_step, plan_sorting, sort_files_by_ext, SortPlan, Step,
};
pub use rank::{
    get_file_ext_names, get_file_extensions, rank_tokens, FileEntry, RankedFolder, RankedFolderMap,
};
pub use sorted::distinct_tokens;
pub use token::{classify, extension};
