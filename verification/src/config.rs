//! Well-known locations, derived from caller-supplied base directories.
//! Where those bases live on a concrete machine is the environment's
//! business, not this crate's.

use vstd::prelude::*;

verus! {

use crate::pathname::FsPath;

/// The filesystem root.
pub fn os_root() -> (r: FsPath)
    ensures
        r@ == Seq::<Seq<char>>::empty(),
{
    FsPath::root()
}

/// Where the pinned-folder list lives, under the data directory.
pub fn pinned_path(data_dir: &FsPath) -> (r: FsPath)
    ensures
        r@ == data_dir@.push("pinned.ini"@),
{
    data_dir.join("pinned.ini")
}

/// Where the preferences live, under the config directory.
pub fn prefs_path(config_dir: &FsPath) -> (r: FsPath)
    ensures
        r@ == config_dir@.push("config.ini"@),
{
    config_dir.join("config.ini")
}

/// The trash directory that soft deletes move into, under the data
/// directory.
pub fn trash_dir(data_dir: &FsPath) -> (r: FsPath)
    ensures
        r@ == data_dir@.push("trash"@),
{
    data_dir.join("trash")
}

} // verus!
