//! The bookmark store: it owns the path of the backing file and the
//! presentation of its table.

use vstd::prelude::*;
use crate::config::Config;
use crate::config::spec_join;
use crate::render::render_human;
use crate::render::spec_render_human;
use crate::table::BookmarkTable;

verus! {

/// The bookmark store, named by the file that backs it. The file is
/// reloaded for every operation; no table is cached here.
pub struct Bookmarks {
    pub file: String,
}

impl Bookmarks {
    /// A store backed by the given file.
    pub fn from(path: String) -> (r: Bookmarks)
        ensures
            r.file@ == path@,
    {
        Bookmarks { file: path }
    }

    /// The store of this configuration's data directory.
    pub fn from_config(config: &Config) -> (r: Bookmarks)
        ensures
            r.file@ == spec_join(config.data_dir@, "bookmarks.toml"@),
    {
        Bookmarks { file: config.get_bookmarks_file() }
    }

    /// The aligned listing of this store's table, one bookmark per
    /// line, under the configured display separator. `table` is the
    /// parsed contents of the file at `self.file`.
    pub fn readable(&self, table: &BookmarkTable, config: &Config) -> (r: String)
        ensures
            r@ == spec_render_human(table@, config.display_sep@),
    {
        render_human(table, &config.display_sep)
    }
}

} // verus!
