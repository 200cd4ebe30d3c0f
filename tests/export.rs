use std::collections::BTreeMap;
use std::io::Read;

use hoedur::export::{plan_entry, EntryAction, ExportError};

#[derive(Debug, Clone, PartialEq)]
enum Obj {
    Dir,
    File(Vec<u8>),
}

type Fs = BTreeMap<Vec<u8>, Obj>;

fn tar_bytes(entries: &[(&str, u8, &[u8])]) -> Vec<u8> {
    let mut builder = tar::Builder::new(Vec::new());
    for (path, tag, data) in entries {
        let mut header = tar::Header::new_gnu();
        header.set_entry_type(tar::EntryType::new(*tag));
        header.set_size(data.len() as u64);
        header.set_mode(0o644);
        builder.append_data(&mut header, path, *data).unwrap();
    }
    builder.into_inner().unwrap()
}

#[derive(Debug, PartialEq)]
enum Fail {
    Entry(ExportError),
    Filesystem,
}

/// Creates `path` and its missing ancestors; a file at any of them fails.
fn ensure_dir(fs: &mut Fs, path: Vec<u8>) -> Result<(), Fail> {
    let mut path = path;
    while path.len() > 1 && path.ends_with(b"/") {
        path.pop();
    }
    let mut prefixes: Vec<Vec<u8>> = Vec::new();
    for (i, b) in path.iter().enumerate() {
        if *b == b'/' && i > 0 {
            prefixes.push(path[..i].to_vec());
        }
    }
    prefixes.push(path);
    for p in prefixes {
        match fs.get(&p) {
            Some(Obj::File(_)) => return Err(Fail::Filesystem),
            Some(Obj::Dir) => {}
            None => {
                fs.insert(p, Obj::Dir);
            }
        }
    }
    Ok(())
}

fn export(fs: &mut Fs, dest: &[u8], archive: &[u8]) -> Result<(), Fail> {
    ensure_dir(fs, dest.to_vec())?;
    let mut ar = tar::Archive::new(archive);
    for entry in ar.entries().unwrap() {
        let mut entry = entry.unwrap();
        let path = entry.path_bytes().into_owned();
        let tag = entry.header().entry_type().as_byte();
        match plan_entry(dest, &path, tag).map_err(Fail::Entry)? {
            EntryAction::MakeDir { dir } => ensure_dir(fs, dir)?,
            EntryAction::WriteFile { parent, file } => {
                ensure_dir(fs, parent)?;
                if fs.get(&file) == Some(&Obj::Dir) {
                    return Err(Fail::Filesystem);
                }
                let mut data = Vec::new();
                entry.read_to_end(&mut data).unwrap();
                fs.insert(file, Obj::File(data));
            }
            EntryAction::Skip => {}
        }
    }
    Ok(())
}

#[test]
fn directory_entry_becomes_directory() {
    match plan_entry(b"D", b"a/", b'5').unwrap() {
        EntryAction::MakeDir { dir } => assert_eq!(dir, b"D/a/".to_vec()),
        other => panic!("unexpected {other:?}"),
    }
}

#[test]
fn regular_entry_writes_file_under_parent() {
    match plan_entry(b"D", b"a/f.txt", b'0').unwrap() {
        EntryAction::WriteFile { parent, file } => {
            assert_eq!(parent, b"D/a".to_vec());
            assert_eq!(file, b"D/a/f.txt".to_vec());
        }
        other => panic!("unexpected {other:?}"),
    }
}

#[test]
fn old_style_regular_tag_and_top_level_file() {
    match plan_entry(b"out/", b"f.txt", 0).unwrap() {
        EntryAction::WriteFile { parent, file } => {
            assert_eq!(parent, b"out/".to_vec());
            assert_eq!(file, b"out/f.txt".to_vec());
        }
        other => panic!("unexpected {other:?}"),
    }
}

#[test]
fn other_kinds_are_skipped() {
    for tag in [b'1', b'2', b'3', b'4', b'6', b'x', b'Z'] {
        assert!(matches!(plan_entry(b"D", b"link", tag), Ok(EntryAction::Skip)));
    }
}

#[test]
fn empty_path_is_missing() {
    assert_eq!(plan_entry(b"D", b"", b'0').unwrap_err(), ExportError::MissingPath);
    assert_eq!(plan_entry(b"D", b"", b'2').unwrap_err(), ExportError::MissingPath);
}

#[test]
fn escaping_paths_are_rejected() {
    assert_eq!(plan_entry(b"D", b"../x", b'0').unwrap_err(), ExportError::UnsafePath);
    assert_eq!(plan_entry(b"D", b"a/../../x", b'5').unwrap_err(), ExportError::UnsafePath);
    assert_eq!(plan_entry(b"D", b"a/..", b'5').unwrap_err(), ExportError::UnsafePath);
    assert_eq!(plan_entry(b"D", b"/etc/passwd", b'0').unwrap_err(), ExportError::UnsafePath);
    assert!(matches!(plan_entry(b"D", b"a..b/.x", b'0'), Ok(EntryAction::WriteFile { .. })));
}

#[test]
fn scenario_export_then_overwrite() {
    let mut fs = Fs::new();
    let first = tar_bytes(&[("a/", b'5', b""), ("a/f.txt", b'0', b"hello")]);
    export(&mut fs, b"D", &first).unwrap();
    assert_eq!(fs.get(b"D/a".as_slice()), Some(&Obj::Dir));
    assert_eq!(fs.get(b"D/a/f.txt".as_slice()), Some(&Obj::File(b"hello".to_vec())));
    let second = tar_bytes(&[("a/f.txt", b'0', b"world")]);
    export(&mut fs, b"D", &second).unwrap();
    assert_eq!(fs.get(b"D/a/f.txt".as_slice()), Some(&Obj::File(b"world".to_vec())));
}

#[test]
fn exporting_twice_equals_once() {
    let archive = tar_bytes(&[
        ("a", b'5', b""),
        ("a/x", b'0', b"one"),
        ("a/x", b'0', b"two"),
        ("b", b'0', b"three"),
    ]);
    let mut once = Fs::new();
    export(&mut once, b"D", &archive).unwrap();
    let mut twice = once.clone();
    export(&mut twice, b"D", &archive).unwrap();
    assert_eq!(once, twice);
    assert_eq!(once.get(b"D/a/x".as_slice()), Some(&Obj::File(b"two".to_vec())));
}

#[test]
fn reordering_before_last_file_keeps_content() {
    let a = tar_bytes(&[("p", b'0', b"x"), ("q", b'5', b""), ("p", b'0', b"last")]);
    let b = tar_bytes(&[("q", b'5', b""), ("p", b'0', b"x"), ("p", b'0', b"last")]);
    let mut fa = Fs::new();
    let mut fb = Fs::new();
    export(&mut fa, b"D", &a).unwrap();
    export(&mut fb, b"D", &b).unwrap();
    assert_eq!(fa.get(b"D/p".as_slice()), Some(&Obj::File(b"last".to_vec())));
    assert_eq!(fa.get(b"D/p".as_slice()), fb.get(b"D/p".as_slice()));
}

#[test]
fn unknown_kind_does_not_stop_later_entries() {
    let archive = tar_bytes(&[("s", b'2', b""), ("odd", b'Q', b""), ("f", b'0', b"data")]);
    let mut fs = Fs::new();
    export(&mut fs, b"D", &archive).unwrap();
    assert_eq!(fs.get(b"D/s".as_slice()), None);
    assert_eq!(fs.get(b"D/odd".as_slice()), None);
    assert_eq!(fs.get(b"D/f".as_slice()), Some(&Obj::File(b"data".to_vec())));
}

#[test]
fn missing_path_fails_the_export() {
    let mut fs = Fs::new();
    ensure_dir(&mut fs, b"D".to_vec()).unwrap();
    let entries: [(&[u8], u8); 3] = [(b"a", b'5'), (b"", b'0'), (b"b", b'0')];
    let mut result = Ok(());
    for (path, tag) in entries {
        match plan_entry(b"D", path, tag) {
            Ok(EntryAction::MakeDir { dir }) => ensure_dir(&mut fs, dir).unwrap(),
            Ok(_) => {}
            Err(e) => {
                result = Err(e);
                break;
            }
        }
    }
    assert_eq!(result, Err(ExportError::MissingPath));
    assert_eq!(fs.get(b"D/a".as_slice()), Some(&Obj::Dir));
    assert_eq!(fs.get(b"D/b".as_slice()), None);
}

#[test]
fn directory_over_file_fails() {
    let archive = tar_bytes(&[("x", b'0', b"data"), ("x", b'5', b"")]);
    let mut fs = Fs::new();
    assert_eq!(export(&mut fs, b"D", &archive), Err(Fail::Filesystem));
    assert_eq!(fs.get(b"D/x".as_slice()), Some(&Obj::File(b"data".to_vec())));
}

#[test]
fn file_over_directory_fails() {
    let archive = tar_bytes(&[("x", b'5', b""), ("x", b'0', b"data")]);
    let mut fs = Fs::new();
    assert_eq!(export(&mut fs, b"D", &archive), Err(Fail::Filesystem));
    assert_eq!(fs.get(b"D/x".as_slice()), Some(&Obj::Dir));
}

#[test]
fn file_under_file_fails() {
    let archive = tar_bytes(&[("x", b'0', b"data"), ("x/y", b'0', b"more")]);
    let mut fs = Fs::new();
    assert_eq!(export(&mut fs, b"D", &archive), Err(Fail::Filesystem));
}

#[test]
fn destination_that_is_a_file_fails() {
    let archive = tar_bytes(&[]);
    let mut fs = Fs::new();
    fs.insert(b"D".to_vec(), Obj::File(b"old".to_vec()));
    assert_eq!(export(&mut fs, b"D", &archive), Err(Fail::Filesystem));
}

#[test]
fn file_before_its_directory_creates_ancestors() {
    let archive = tar_bytes(&[("a/b/f", b'0', b"x"), ("a", b'5', b""), ("a/b", b'5', b"")]);
    let mut fs = Fs::new();
    export(&mut fs, b"D", &archive).unwrap();
    assert_eq!(fs.get(b"D/a".as_slice()), Some(&Obj::Dir));
    assert_eq!(fs.get(b"D/a/b".as_slice()), Some(&Obj::Dir));
    assert_eq!(fs.get(b"D/a/b/f".as_slice()), Some(&Obj::File(b"x".to_vec())));
}
