//! Deciding what each archive entry becomes under the destination root.
use vstd::prelude::*;

use crate::entry::{kind_of_tag, tag_kind, EntryKind};
use crate::path::{
    append_bytes, contains_parent_segment, dir_prefix, dir_prefix_len, has_parent_segment, join, join_path,
    SEP,
};

verus! {

/// Why an entry stops the whole export.
#[derive(Clone, Copy, Debug, PartialEq, Eq, Structural)]
pub enum ExportError {
    /// The entry carries no path.
    MissingPath,
    /// The path of a directory or file entry is absolute or climbs out with `..`.
    UnsafePath,
}

/// The filesystem operation that one entry asks for.
#[derive(Debug)]
pub enum EntryAction {
    /// Create `dir` and every missing ancestor.
    MakeDir { dir: Vec<u8> },
    /// Create `parent` and its missing ancestors, then create (or truncate)
    /// `file` and copy the entry's payload into it.
    WriteFile { parent: Vec<u8>, file: Vec<u8> },
    /// Nothing: the entry's kind is not materialized.
    Skip,
}

/// What an `EntryAction` names, with its paths as byte sequences.
pub enum ActionView {
    MakeDir(Seq<u8>),
    WriteFile(Seq<u8>, Seq<u8>),
    Skip,
}

impl View for EntryAction {
    type V = ActionView;

    open spec fn view(&self) -> ActionView {
        match self {
            EntryAction::MakeDir { dir } => ActionView::MakeDir(dir@),
            EntryAction::WriteFile { parent, file } => ActionView::WriteFile(parent@, file@),
            EntryAction::Skip => ActionView::Skip,
        }
    }
}

/// A planned operation, or the error, as a value of the model.
pub open spec fn result_view(r: Result<EntryAction, ExportError>) -> Result<ActionView, ExportError> {
    match r {
        Ok(a) => Ok(a@),
        Err(e) => Err(e),
    }
}

/// A path that stays under the destination root.
pub open spec fn is_safe_path(path: Seq<u8>) -> bool {
    path.len() > 0 && path[0] != SEP && !has_parent_segment(path)
}

/// The directory that holds the file at `path` under `dest`.
pub open spec fn parent_dir(dest: Seq<u8>, path: Seq<u8>) -> Seq<u8> {
    if dir_prefix_len(path) == 0 {
        dest
    } else {
        join(dest, path.subrange(0, dir_prefix_len(path) as int))
    }
}

/// The operation for an entry with `path` and `tag`, exported under `dest`.
pub open spec fn plan(dest: Seq<u8>, path: Seq<u8>, tag: u8) -> Result<ActionView, ExportError> {
    if path.len() == 0 {
        Err(ExportError::MissingPath)
    } else if tag_kind(tag) == EntryKind::Other {
        Ok(ActionView::Skip)
    } else if !is_safe_path(path) {
        Err(ExportError::UnsafePath)
    } else if tag_kind(tag) == EntryKind::Directory {
        Ok(ActionView::MakeDir(join(dest, path)))
    } else {
        Ok(ActionView::WriteFile(parent_dir(dest, path), join(dest, path)))
    }
}

/// Decides what the entry with `path` and type tag `tag` becomes under `dest`.
pub fn plan_entry(dest: &[u8], path: &[u8], tag: u8) -> (r: Result<EntryAction, ExportError>)
    ensures
        result_view(r) == plan(dest@, path@, tag),
{
    if path.len() == 0 {
        return Err(ExportError::MissingPath);
    }
    let kind = kind_of_tag(tag);
    match kind {
        EntryKind::Other => Ok(EntryAction::Skip),
        _ => {
            if path[0] == SEP || contains_parent_segment(path) {
                return Err(ExportError::UnsafePath);
            }
            let out = join_path(dest, path);
            match kind {
                EntryKind::Directory => Ok(EntryAction::MakeDir { dir: out }),
                _ => {
                    let k = dir_prefix(path);
                    let parent = if k == 0 {
                        let mut d: Vec<u8> = Vec::new();
                        append_bytes(&mut d, dest);
                        d
                    } else {
                        let (head, _) = path.split_at(k);
                        join_path(dest, head)
                    };
                    Ok(EntryAction::WriteFile { parent, file: out })
                },
            }
        },
    }
}

} // verus!
