use std::path::PathBuf;

use grahh_db::Storage;

#[test]
fn memory_is_saved_nowhere() {
    assert!(Storage::Memory.save().is_none());
}

#[test]
fn file_is_saved_to_its_path() {
    let storage = Storage::File(PathBuf::from("db.grahh"));
    assert_eq!(storage.save(), Some(&PathBuf::from("db.grahh")));
}
