use ebbify::models::{Account, FileData};
use ebbify::save_file::SaveFile;
use ebbify::updates::Update;
use std::path::PathBuf;

fn account(id: u32) -> Account {
    Account {
        id,
        name: String::new(),
        currency_id: 0,
        debit_account: true,
        balances: Vec::new(),
    }
}

#[test]
fn a_new_save_file_holds_an_empty_store() {
    let file = SaveFile::new(PathBuf::from("ledger.ebb"));
    assert_eq!(file.path, PathBuf::from("ledger.ebb"));
    assert!(file.app_data.accounts().is_empty());
    assert!(!file.is_sample);
    assert_eq!(file.saved_modification, 0);
    assert!(!file.is_modified());
    assert!(file.is_written_on_save());
}

#[test]
fn a_loaded_save_file_holds_the_snapshot() {
    let mut data = FileData::default();
    data.accounts = vec![account(4), account(2)];
    let file = SaveFile::loaded(PathBuf::from("a/b.ebb"), data);
    assert_eq!(file.path, PathBuf::from("a/b.ebb"));
    assert_eq!(file.app_data.accounts().len(), 2);
    assert_eq!(file.app_data.modification_count(), 0);
    assert!(!file.app_data.can_undo());
    assert!(!file.is_sample);
    assert!(!file.is_modified());
}

#[test]
fn the_sample_belongs_to_no_file() {
    let file = SaveFile::load_sample();
    assert_eq!(file.path, PathBuf::new());
    assert!(file.is_sample);
    assert!(!file.is_written_on_save());
    assert!(!file.is_modified());
    assert_eq!(file.app_data.accounts().len(), 3);
    assert_eq!(file.app_data.categories().len(), 4);
    assert_eq!(file.app_data.currencies().len(), 2);
    assert_eq!(file.app_data.transactions().len(), 1000);
}

#[test]
fn a_save_file_is_modified_until_it_is_marked_saved() {
    let mut file = SaveFile::new(PathBuf::from("ledger.ebb"));
    file.app_data.perform_update(vec![Update::SetAccount(account(1))]);
    assert!(file.is_modified());
    file.mark_saved();
    assert!(!file.is_modified());
    assert_eq!(file.saved_modification, 1);

    file.app_data.undo();
    assert!(file.is_modified());
    file.app_data.redo();
    assert!(!file.is_modified());
}

#[test]
fn marking_the_sample_saved_records_nothing() {
    let mut file = SaveFile::load_sample();
    file.app_data.perform_update(vec![Update::DeleteAccount(0)]);
    assert!(file.is_modified());
    file.mark_saved();
    assert_eq!(file.saved_modification, 0);
    assert!(file.is_modified());
    assert!(file.is_sample);
}
