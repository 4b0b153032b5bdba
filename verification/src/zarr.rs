//! General operations on Zarrs and the entries within.
mod entrypath;
mod store;

pub use entrypath::{
    is_path_name, joined, norm_parts, parses_as_path, raw_parts, relative_to, valid_path,
    valid_segment, descends_from, EntryPath, Parents,
};
pub use store::{
    basename, convert_raw, converted_entry, excluded_dotfiles, is_excluded_dotfile,
    is_excluded_name, listed_ok, zarr_entry_views, DirPath, RawEntry, RawEntryV, Zarr,
    ZarrDirectory, ZarrDirectoryV, ZarrEntry, ZarrEntryV, ZarrFile, ZarrFileV,
};
