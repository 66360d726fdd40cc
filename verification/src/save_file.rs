//! A store together with the file that it belongs to.

use std::path::PathBuf;
use vstd::prelude::*;
use crate::model::{indexed, Ledger, StoreView};
use crate::models::FileData;
use crate::sample::is_sample_data;
use crate::store::AppData;

verus! {

/// A path in the file system, carried through as an opaque value.
#[verifier::external_type_specification]
#[verifier::external_body]
pub struct ExPathBuf(PathBuf);

/// The empty path, by `PathBuf::new`.
#[verifier::external_body]
fn empty_path() -> PathBuf {
    PathBuf::new()
}

/// A store, the path of its file, and the counter that the store had when
/// it was last read from the file or written to it.
pub struct SaveFile {
    pub path: PathBuf,
    pub app_data: AppData,
    pub is_sample: bool,
    pub saved_modification: u32,
}

/// The ledger that a snapshot gives: its entities by id, and no history.
pub open spec fn ledger_of(data: FileData) -> Ledger {
    Ledger {
        store: StoreView {
            accounts: indexed(data.accounts@),
            categories: indexed(data.categories@),
            currencies: indexed(data.currencies@),
            flows: indexed(data.flows@),
            transactions: indexed(data.transactions@),
            transaction_groups: indexed(data.transaction_groups@),
        },
        counter: 0,
        undo: Seq::empty(),
        redo: Seq::empty(),
    }
}

impl SaveFile {
    /// An empty store for a new file at `path`.
    pub fn new(path: PathBuf) -> (r: SaveFile)
        ensures
            r.path == path,
            r.app_data@ == (Ledger {
                store: StoreView::empty(),
                counter: 0,
                undo: Seq::empty(),
                redo: Seq::empty(),
            }),
            r.app_data.wf(),
            !r.is_sample,
            r.saved_modification == 0,
            !r.spec_is_modified(),
    {
        let app_data = AppData::new();
        let saved_modification = app_data.modification_count();
        SaveFile { path, app_data, is_sample: false, saved_modification }
    }

    /// The store that the snapshot read from the file at `path` gives.
    pub fn loaded(path: PathBuf, file_data: FileData) -> (r: SaveFile)
        ensures
            r.path == path,
            r.app_data@ == ledger_of(file_data),
            r.app_data.wf(),
            !r.is_sample,
            r.saved_modification == 0,
            !r.spec_is_modified(),
    {
        let app_data = AppData::from_file(file_data);
        let saved_modification = app_data.modification_count();
        SaveFile { path, app_data, is_sample: false, saved_modification }
    }

    /// The sample ledger, which belongs to no file.
    pub fn load_sample() -> (r: SaveFile)
        ensures
            exists|data: FileData| is_sample_data(data) && r.app_data@ == ledger_of(data),
            r.app_data.wf(),
            r.is_sample,
            r.saved_modification == 0,
            !r.spec_is_modified(),
    {
        let file_data = FileData::sample_data();
        let app_data = AppData::from_file(file_data);
        let saved_modification = app_data.modification_count();
        SaveFile { path: empty_path(), app_data, is_sample: true, saved_modification }
    }

    /// Whether the store is to be written when it is saved: the sample is
    /// never written.
    pub fn is_written_on_save(&self) -> (r: bool)
        ensures
            r == !self.is_sample,
    {
        !self.is_sample
    }

    /// Records that the store was written as it is. For the sample, which
    /// is never written, nothing is recorded.
    pub fn mark_saved(&mut self)
        ensures
            final(self).path == old(self).path,
            final(self).app_data == old(self).app_data,
            final(self).is_sample == old(self).is_sample,
            final(self).saved_modification == (if old(self).is_sample {
                old(self).saved_modification as int
            } else {
                old(self).app_data@.counter
            }),
    {
        if !self.is_sample {
            self.saved_modification = self.app_data.modification_count();
        }
    }

    /// Whether the store's counter differs from the one recorded last.
    pub open spec fn spec_is_modified(&self) -> bool {
        self.app_data@.counter != self.saved_modification
    }

    /// Whether the store was modified since it was last read or written.
    pub fn is_modified(&self) -> (r: bool)
        ensures
            r == self.spec_is_modified(),
    {
        self.app_data.modification_count() != self.saved_modification
    }
}

} // verus!
