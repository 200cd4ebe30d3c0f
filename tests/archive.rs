use std::collections::BTreeMap;

use hoedur::archive::{archive_file_path, create_archive, opt_archive, Archive};
use hoedur::entry::{TAG_DIRECTORY, TAG_REGULAR};
use hoedur::export::{plan_entry, EntryAction};

#[test]
fn archive_file_path_appends_suffix() {
    assert_eq!(archive_file_path(b"/tmp/arch", "run"), b"/tmp/arch/run.corpus.tar.zst".to_vec());
    assert_eq!(archive_file_path(b"/tmp/arch/", "run"), b"/tmp/arch/run.corpus.tar.zst".to_vec());
    assert_eq!(archive_file_path(b"", "run"), b"run.corpus.tar.zst".to_vec());
    assert_eq!(archive_file_path(b"/tmp", "/abs/x"), b"/abs/x.corpus.tar.zst".to_vec());
}

#[test]
fn opt_archive_follows_flag() {
    let on = Archive { write_archive: true, archive_dir: b"/data".to_vec() };
    assert_eq!(opt_archive(&on), Some(b"/data".as_slice()));
    let off = Archive { write_archive: false, archive_dir: b"/data".to_vec() };
    assert_eq!(opt_archive(&off), None);
}

#[test]
fn builder_records_entries_in_order() {
    let mut b = create_archive("corpus", b"out");
    assert_eq!(b.path, b"out/corpus.corpus.tar.zst".to_vec());
    assert!(b.entries.is_empty());
    b.append_dir(b"a".to_vec());
    b.append_file(b"a/f".to_vec(), b"xyz".to_vec());
    assert_eq!(b.entries.len(), 2);
    assert_eq!(b.entries[0].path, b"a".to_vec());
    assert_eq!(b.entries[0].tag, TAG_DIRECTORY);
    assert_eq!(b.entries[1].tag, TAG_REGULAR);
    assert_eq!(b.entries[1].data, b"xyz".to_vec());
}

#[test]
fn built_tree_exports_back() {
    let mut b = create_archive("t", b"arch");
    b.append_dir(b"a".to_vec());
    b.append_dir(b"a/b".to_vec());
    b.append_file(b"a/b/f".to_vec(), b"1".to_vec());
    b.append_file(b"g".to_vec(), b"22".to_vec());
    let mut fs: BTreeMap<Vec<u8>, Option<Vec<u8>>> = BTreeMap::new();
    fs.insert(b"D".to_vec(), None);
    for e in &b.entries {
        match plan_entry(b"D", &e.path, e.tag).unwrap() {
            EntryAction::MakeDir { dir } => {
                fs.entry(dir).or_insert(None);
            }
            EntryAction::WriteFile { parent, file } => {
                fs.entry(parent).or_insert(None);
                fs.insert(file, Some(e.data.clone()));
            }
            EntryAction::Skip => {}
        }
    }
    let mut expected: BTreeMap<Vec<u8>, Option<Vec<u8>>> = BTreeMap::new();
    expected.insert(b"D".to_vec(), None);
    expected.insert(b"D/a".to_vec(), None);
    expected.insert(b"D/a/b".to_vec(), None);
    expected.insert(b"D/a/b/f".to_vec(), Some(b"1".to_vec()));
    expected.insert(b"D/g".to_vec(), Some(b"22".to_vec()));
    assert_eq!(fs, expected);
}
