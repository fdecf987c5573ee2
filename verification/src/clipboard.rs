//! The clipboard: a pending set of paths and an intent for a later
//! paste. The intent is present exactly when the set is non-empty.

use vstd::prelude::*;

verus! {

use crate::pathname::FsPath;

/// What a later paste should do with the held paths.
#[derive(Clone, Copy, Debug, PartialEq, Eq, Structural)]
pub enum Mode {
    Copy,
    Cut,
}

/// Held paths, the paste intent, and the targets of the last paste
/// (kept for inspection; undo does not need them).
pub struct Clipboard {
    pub items: Vec<FsPath>,
    pub mode: Option<Mode>,
    pub last_paste_targets: Vec<(FsPath, FsPath)>,
}

impl Clipboard {
    /// The held paths.
    pub open spec fn items_view(self) -> Seq<Seq<Seq<char>>> {
        self.items@.map_values(|p: FsPath| p@)
    }

    /// The intent is present exactly when the set is non-empty.
    pub open spec fn wf(self) -> bool {
        (self.mode is Some) <==> self.items@.len() > 0
    }

    /// Empties the clipboard.
    pub fn clear(&mut self)
        ensures
            final(self).items@.len() == 0,
            final(self).mode is None,
            final(self).last_paste_targets@.len() == 0,
            final(self).wf(),
    {
        self.items.clear();
        self.mode = None;
        self.last_paste_targets.clear();
    }

    /// Replaces the contents and intent unconditionally.
    pub fn set(&mut self, items: Vec<FsPath>, mode: Mode)
        requires
            items@.len() > 0,
        ensures
            final(self).items == items,
            final(self).mode == Some(mode),
            final(self).last_paste_targets@.len() == 0,
            final(self).wf(),
    {
        self.items = items;
        self.mode = Some(mode);
        self.last_paste_targets.clear();
    }

    /// What a paste must check first: paths and an intent are present.
    pub fn has_items(&self) -> (r: bool)
        ensures
            r == (self.items@.len() > 0 && self.mode is Some),
    {
        !self.items.is_empty() && self.mode.is_some()
    }
}

impl Default for Clipboard {
    fn default() -> (r: Self)
        ensures
            r.items@.len() == 0,
            r.mode is None,
            r.last_paste_targets@.len() == 0,
            r.wf(),
    {
        Clipboard { items: Vec::new(), mode: None, last_paste_targets: Vec::new() }
    }
}

} // verus!
