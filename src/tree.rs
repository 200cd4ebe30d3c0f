//! The objects that an export leaves at and under its destination root, and
//! the laws that hold of them.
use vstd::prelude::*;

use crate::entry::{tag_kind, EntryKind, EntryView, TAG_DIRECTORY, TAG_REGULAR};
use crate::export::{is_safe_path, plan, ActionView, ExportError};
use crate::path::segments;

verus! {

/// A filesystem object as the export sees it.
pub enum Node {
    Dir,
    File(Seq<u8>),
}

/// Where an object stands: its path segments relative to the destination
/// root (the root itself is the empty sequence).
pub type Key = Seq<Seq<u8>>;

/// Filesystem objects at and under the destination root.
pub type Tree = Map<Key, Node>;

/// Why an export stopped.
pub enum Failure {
    /// An entry was refused before anything was created for it.
    Entry(ExportError),
    /// Creating a directory or a file met an object of the other kind.
    Filesystem,
}

/// `x` is `k` or one of its ancestors (the root included).
pub open spec fn is_prefix(x: Key, k: Key) -> bool {
    x.len() <= k.len() && x == k.subrange(0, x.len() as int)
}

/// A regular file stands at `x` in `t`.
pub open spec fn file_at(t: Tree, x: Key) -> bool {
    t.contains_key(x) && t[x] is File
}

/// A directory stands at `x` in `t`.
pub open spec fn dir_at(t: Tree, x: Key) -> bool {
    t.contains_key(x) && t[x] is Dir
}

/// `t` with a directory at `k` and at each of its ancestors where nothing stood.
pub open spec fn with_dirs(t: Tree, k: Key) -> Tree {
    Map::new(
        |x: Key| t.contains_key(x) || is_prefix(x, k),
        |x: Key|
            if t.contains_key(x) {
                t[x]
            } else {
                Node::Dir
            },
    )
}

/// Creating the directory `k` with all its missing ancestors, ancestor first;
/// a regular file at any of them makes it fail.
pub open spec fn make_dirs(t: Tree, k: Key) -> Option<Tree>
    decreases k.len(),
{
    let base = if k.len() == 0 {
        Some(t)
    } else {
        make_dirs(t, k.drop_last())
    };
    match base {
        None => None,
        Some(t2) => if !t2.contains_key(k) {
            Some(t2.insert(k, Node::Dir))
        } else if t2[k] is Dir {
            Some(t2)
        } else {
            None
        },
    }
}

/// Creating the parent directories of `k`, then creating (or truncating) the
/// regular file `k` with `data`; a directory at `k` makes it fail, and so
/// does the root as `k`.
pub open spec fn write_file(t: Tree, k: Key, data: Seq<u8>) -> Option<Tree> {
    if k.len() == 0 {
        None
    } else {
        match make_dirs(t, k.drop_last()) {
            None => None,
            Some(t2) => if dir_at(t2, k) {
                None
            } else {
                Some(t2.insert(k, Node::File(data)))
            },
        }
    }
}

/// A filesystem operation's outcome as an export outcome.
pub open spec fn fs_result(o: Option<Tree>) -> Result<Tree, Failure> {
    match o {
        Some(t) => Ok(t),
        None => Err(Failure::Filesystem),
    }
}

/// Handling one entry over `t`, with the operation that `plan` gives for it.
pub open spec fn step(t: Tree, dest: Seq<u8>, e: EntryView) -> Result<Tree, Failure> {
    match plan(dest, e.path, e.tag) {
        Err(x) => Err(Failure::Entry(x)),
        Ok(ActionView::Skip) => Ok(t),
        Ok(ActionView::MakeDir(_)) => fs_result(make_dirs(t, segments(e.path))),
        Ok(ActionView::WriteFile(_, _)) => fs_result(write_file(t, segments(e.path), e.data)),
    }
}

/// Exporting the entries `es` into `dest` over the tree `t`: the destination
/// root is created first, then each entry is handled in order, and the first
/// failure ends the export.
pub open spec fn export_entries(t: Tree, dest: Seq<u8>, es: Seq<EntryView>) -> Result<Tree, Failure>
    decreases es.len(),
{
    if es.len() == 0 {
        fs_result(make_dirs(t, Seq::empty()))
    } else {
        match export_entries(t, dest, es.drop_last()) {
            Err(x) => Err(x),
            Ok(t2) => step(t2, dest, es.last()),
        }
    }
}

/// Creating directories succeeds exactly where no ancestor (nor the
/// directory itself) is a regular file, and then adds the missing ones.
pub proof fn lemma_make_dirs(t: Tree, k: Key)
    ensures
        (make_dirs(t, k) is Some) == (forall|x: Key| is_prefix(x, k) ==> !file_at(t, x)),
        make_dirs(t, k) is Some ==> make_dirs(t, k)->Some_0 == with_dirs(t, k),
    decreases k.len(),
{
    assert(k.subrange(0, k.len() as int) =~= k);
    assert(is_prefix(k, k));
    if k.len() == 0 {
        assert forall|x: Key| is_prefix(x, k) implies x == k by {
            assert(x =~= k);
        }
        if make_dirs(t, k) is Some {
            assert(make_dirs(t, k)->Some_0 =~= with_dirs(t, k));
        } else {
            assert(is_prefix(k, k));
        }
    } else {
        let dl = k.drop_last();
        lemma_make_dirs(t, dl);
        assert forall|x: Key| is_prefix(x, k) <==> (is_prefix(x, dl) || x == k) by {
            if is_prefix(x, k) && x != k {
                assert(x.len() < k.len());
                assert(k.subrange(0, x.len() as int) =~= dl.subrange(0, x.len() as int));
            }
            if is_prefix(x, dl) {
                assert(k.subrange(0, x.len() as int) =~= dl.subrange(0, x.len() as int));
            }
            if x == k {
                assert(k.subrange(0, k.len() as int) =~= k);
            }
        }
        assert(!is_prefix(k, dl));
        if make_dirs(t, dl) is Some {
            let w = with_dirs(t, dl);
            if make_dirs(t, k) is Some {
                assert(make_dirs(t, k)->Some_0 =~= with_dirs(t, k));
            }
        }
    }
}

/// With a directory already at `k` and at each ancestor, creating `k` changes nothing.
pub proof fn lemma_make_dirs_present(t: Tree, k: Key)
    requires
        forall|x: Key| is_prefix(x, k) ==> dir_at(t, x),
    ensures
        make_dirs(t, k) == Some(t),
{
    lemma_make_dirs(t, k);
    assert(with_dirs(t, k) =~= t);
}

/// An entry without a path fails the whole export, whatever comes before or
/// after it.
pub proof fn lemma_missing_path_fails(
    t: Tree,
    dest: Seq<u8>,
    before: Seq<EntryView>,
    e: EntryView,
    after: Seq<EntryView>,
)
    requires
        e.path.len() == 0,
    ensures
        export_entries(t, dest, before.push(e) + after) is Err,
    decreases after.len(),
{
    if after.len() == 0 {
        assert(before.push(e) + after == before.push(e));
        assert(before.push(e).drop_last() == before);
    } else {
        lemma_missing_path_fails(t, dest, before, e, after.drop_last());
        assert((before.push(e) + after).drop_last() == before.push(e) + after.drop_last());
    }
}

/// `es` with every entry of a kind that is not materialized taken out.
pub open spec fn without_skipped(es: Seq<EntryView>) -> Seq<EntryView>
    decreases es.len(),
{
    if es.len() == 0 {
        es
    } else if tag_kind(es.last().tag) == EntryKind::Other {
        without_skipped(es.drop_last())
    } else {
        without_skipped(es.drop_last()).push(es.last())
    }
}

/// Entries of kinds that are not materialized, each with a path, neither
/// create anything nor stop the export: taking all of them out gives the
/// same outcome.
pub proof fn lemma_other_kinds_skipped(t: Tree, dest: Seq<u8>, es: Seq<EntryView>)
    requires
        forall|i: int| 0 <= i < es.len() ==> (#[trigger] es[i]).path.len() > 0,
    ensures
        export_entries(t, dest, es) == export_entries(t, dest, without_skipped(es)),
    decreases es.len(),
{
    if es.len() > 0 {
        let prev = es.drop_last();
        assert forall|i: int| 0 <= i < prev.len() implies (#[trigger] prev[i]).path.len() > 0 by {
            assert(prev[i] == es[i]);
        }
        lemma_other_kinds_skipped(t, dest, prev);
        assert(es[es.len() - 1] == es.last());
        if tag_kind(es.last().tag) != EntryKind::Other {
            let w = without_skipped(prev).push(es.last());
            assert(w.drop_last() == without_skipped(prev));
        }
    }
}

/// `k` is where the entry `e` puts a regular file.
pub open spec fn writes_file_at(dest: Seq<u8>, e: EntryView, k: Key) -> bool {
    plan(dest, e.path, e.tag) is Ok && plan(dest, e.path, e.tag)->Ok_0 is WriteFile && segments(
        e.path,
    ) == k
}

/// After a successful step, the regular file at `k` is unchanged, unless the
/// entry writes a file at `k` itself.
proof fn lemma_step_keeps_file(t: Tree, dest: Seq<u8>, e: EntryView, k: Key)
    requires
        file_at(t, k),
        step(t, dest, e) is Ok,
        !writes_file_at(dest, e, k),
    ensures
        step(t, dest, e)->Ok_0.contains_key(k),
        step(t, dest, e)->Ok_0[k] == t[k],
{
    match plan(dest, e.path, e.tag) {
        Ok(ActionView::MakeDir(_)) => {
            lemma_make_dirs(t, segments(e.path));
        },
        Ok(ActionView::WriteFile(_, _)) => {
            lemma_make_dirs(t, segments(e.path).drop_last());
        },
        _ => {},
    }
}

proof fn lemma_suffix_keeps_file(
    t: Tree,
    dest: Seq<u8>,
    pre: Seq<EntryView>,
    post: Seq<EntryView>,
    k: Key,
)
    requires
        export_entries(t, dest, pre) is Ok,
        file_at(export_entries(t, dest, pre)->Ok_0, k),
        export_entries(t, dest, pre + post) is Ok,
        forall|i: int| 0 <= i < post.len() ==> !writes_file_at(dest, #[trigger] post[i], k),
    ensures
        export_entries(t, dest, pre + post)->Ok_0.contains_key(k),
        export_entries(t, dest, pre + post)->Ok_0[k] == export_entries(t, dest, pre)->Ok_0[k],
    decreases post.len(),
{
    if post.len() == 0 {
        assert(pre + post == pre);
    } else {
        let pl = post.drop_last();
        assert((pre + post).drop_last() == pre + pl);
        assert((pre + post).last() == post[post.len() - 1]);
        assert forall|i: int| 0 <= i < pl.len() implies !writes_file_at(dest, #[trigger] pl[i], k) by {
            assert(pl[i] == post[i]);
        }
        lemma_suffix_keeps_file(t, dest, pre, pl, k);
        lemma_step_keeps_file(
            export_entries(t, dest, pre + pl)->Ok_0,
            dest,
            post[post.len() - 1],
            k,
        );
    }
}

/// The last regular file entry at a path decides what the path holds after a
/// successful export: the entries before it may come in any order, and the
/// entries after it may be anything that writes no file there.
pub proof fn lemma_last_file_wins(
    t: Tree,
    dest: Seq<u8>,
    pre1: Seq<EntryView>,
    pre2: Seq<EntryView>,
    e: EntryView,
    post: Seq<EntryView>,
)
    requires
        pre1.to_multiset() == pre2.to_multiset(),
        tag_kind(e.tag) == EntryKind::Regular,
        forall|i: int| 0 <= i < post.len() ==> !writes_file_at(dest, #[trigger] post[i], segments(e.path)),
        export_entries(t, dest, pre1.push(e) + post) is Ok,
        export_entries(t, dest, pre2.push(e) + post) is Ok,
    ensures
        export_entries(t, dest, pre1.push(e) + post)->Ok_0[segments(e.path)] == Node::File(e.data),
        export_entries(t, dest, pre2.push(e) + post)->Ok_0[segments(e.path)] == Node::File(e.data),
{
    lemma_last_file_wins_one(t, dest, pre1, e, post);
    lemma_last_file_wins_one(t, dest, pre2, e, post);
}

proof fn lemma_last_file_wins_one(
    t: Tree,
    dest: Seq<u8>,
    pre: Seq<EntryView>,
    e: EntryView,
    post: Seq<EntryView>,
)
    requires
        tag_kind(e.tag) == EntryKind::Regular,
        forall|i: int| 0 <= i < post.len() ==> !writes_file_at(dest, #[trigger] post[i], segments(e.path)),
        export_entries(t, dest, pre.push(e) + post) is Ok,
    ensures
        export_entries(t, dest, pre.push(e) + post)->Ok_0[segments(e.path)] == Node::File(e.data),
{
    lemma_success_prefix(t, dest, pre.push(e) + post);
    let n = pre.len() + 1;
    assert((pre.push(e) + post).subrange(0, n as int) == pre.push(e));
    assert(pre.push(e).drop_last() == pre);
    lemma_suffix_keeps_file(t, dest, pre.push(e), post, segments(e.path));
}

/// Every prefix of a successful export succeeds too.
pub proof fn lemma_success_prefix(t: Tree, dest: Seq<u8>, es: Seq<EntryView>)
    requires
        export_entries(t, dest, es) is Ok,
    ensures
        forall|i: int| 0 <= i <= es.len() ==> export_entries(t, dest, #[trigger] es.subrange(0, i)) is Ok,
    decreases es.len(),
{
    if es.len() > 0 {
        let prev = es.drop_last();
        lemma_success_prefix(t, dest, prev);
        assert forall|i: int| 0 <= i <= es.len() implies export_entries(t, dest, #[trigger] es.subrange(0, i)) is Ok by {
            if i < es.len() {
                assert(es.subrange(0, i) == prev.subrange(0, i));
            } else {
                assert(es.subrange(0, i) == es);
            }
        }
    } else {
        assert(es.subrange(0, 0) == es);
    }
}

/// Every object of `t` is still in `t2`, and of the same kind.
pub open spec fn extends(t: Tree, t2: Tree) -> bool {
    forall|x: Key|
        #[trigger] t.contains_key(x) ==> t2.contains_key(x) && (t[x] is Dir) == (t2[x] is Dir)
}

proof fn lemma_step_extends(t: Tree, dest: Seq<u8>, e: EntryView)
    requires
        step(t, dest, e) is Ok,
    ensures
        extends(t, step(t, dest, e)->Ok_0),
{
    match plan(dest, e.path, e.tag) {
        Ok(ActionView::MakeDir(_)) => {
            lemma_make_dirs(t, segments(e.path));
        },
        Ok(ActionView::WriteFile(_, _)) => {
            lemma_make_dirs(t, segments(e.path).drop_last());
        },
        _ => {},
    }
}

/// A successful export keeps every object that each of its prefixes left,
/// with its kind, and leaves a directory at the root.
proof fn lemma_prefix_extends(t: Tree, dest: Seq<u8>, es: Seq<EntryView>)
    requires
        export_entries(t, dest, es) is Ok,
    ensures
        forall|i: int|
            0 <= i <= es.len() ==> export_entries(t, dest, #[trigger] es.subrange(0, i)) is Ok
                && extends(export_entries(t, dest, es.subrange(0, i))->Ok_0, export_entries(t, dest, es)->Ok_0),
        dir_at(export_entries(t, dest, es)->Ok_0, Seq::empty()),
    decreases es.len(),
{
    lemma_success_prefix(t, dest, es);
    let t1 = export_entries(t, dest, es)->Ok_0;
    if es.len() == 0 {
        assert(es.subrange(0, 0) == es);
        lemma_make_dirs(t, Seq::empty());
        let root = Seq::<Seq<u8>>::empty();
        assert(root.subrange(0, 0) =~= root);
        assert(is_prefix(root, root));
    } else {
        let prev = es.drop_last();
        lemma_prefix_extends(t, dest, prev);
        let tp = export_entries(t, dest, prev)->Ok_0;
        lemma_step_extends(tp, dest, es.last());
        assert forall|i: int| 0 <= i <= es.len() implies export_entries(t, dest, #[trigger] es.subrange(0, i)) is Ok
            && extends(export_entries(t, dest, es.subrange(0, i))->Ok_0, t1) by {
            if i < es.len() {
                assert(es.subrange(0, i) == prev.subrange(0, i));
            } else {
                assert(es.subrange(0, i) == es);
            }
        }
    }
}

/// The regular files that a successful export of `es` writes, each with the
/// content of the last entry that writes it.
pub open spec fn files_written(dest: Seq<u8>, es: Seq<EntryView>) -> Tree
    decreases es.len(),
{
    if es.len() == 0 {
        Map::empty()
    } else {
        let prev = files_written(dest, es.drop_last());
        if writes_file_at(dest, es.last(), segments(es.last().path)) {
            prev.insert(segments(es.last().path), Node::File(es.last().data))
        } else {
            prev
        }
    }
}

proof fn lemma_files_written_stand(t: Tree, dest: Seq<u8>, es: Seq<EntryView>)
    requires
        export_entries(t, dest, es) is Ok,
    ensures
        forall|x: Key| #[trigger]
            files_written(dest, es).contains_key(x) ==> export_entries(t, dest, es)->Ok_0.contains_key(x)
                && export_entries(t, dest, es)->Ok_0[x] == files_written(dest, es)[x]
                && files_written(dest, es)[x] is File,
    decreases es.len(),
{
    if es.len() > 0 {
        let prev = es.drop_last();
        lemma_files_written_stand(t, dest, prev);
        let tp = export_entries(t, dest, prev)->Ok_0;
        let e = es.last();
        match plan(dest, e.path, e.tag) {
            Ok(ActionView::MakeDir(_)) => {
                lemma_make_dirs(tp, segments(e.path));
            },
            Ok(ActionView::WriteFile(_, _)) => {
                lemma_make_dirs(tp, segments(e.path).drop_last());
            },
            _ => {},
        }
    }
}

proof fn lemma_second_pass(t: Tree, dest: Seq<u8>, es: Seq<EntryView>, i: int)
    requires
        export_entries(t, dest, es) is Ok,
        0 <= i <= es.len(),
    ensures
        export_entries(export_entries(t, dest, es)->Ok_0, dest, es.subrange(0, i)) == Ok::<Tree, Failure>(
            export_entries(t, dest, es)->Ok_0.union_prefer_right(files_written(dest, es.subrange(0, i))),
        ),
    decreases i,
{
    let t1 = export_entries(t, dest, es)->Ok_0;
    lemma_prefix_extends(t, dest, es);
    if i == 0 {
        assert(es.subrange(0, 0).len() == 0);
        assert forall|x: Key| is_prefix(x, Seq::empty()) implies dir_at(t1, x) by {
            assert(x =~= Seq::<Seq<u8>>::empty());
        }
        lemma_make_dirs_present(t1, Seq::empty());
        assert(t1.union_prefer_right(files_written(dest, es.subrange(0, 0))) =~= t1);
    } else {
        lemma_second_pass(t, dest, es, i - 1);
        let cur = es.subrange(0, i);
        let prev = es.subrange(0, i - 1);
        assert(cur.drop_last() == prev);
        let e = es[i - 1];
        assert(cur.last() == e);
        let s1 = export_entries(t, dest, prev)->Ok_0;
        let fw = files_written(dest, prev);
        let s2 = t1.union_prefer_right(fw);
        lemma_files_written_stand(t, dest, prev);
        let s1n = export_entries(t, dest, cur)->Ok_0;
        assert(extends(s1n, t1));
        match plan(dest, e.path, e.tag) {
            Ok(ActionView::MakeDir(_)) => {
                let k = segments(e.path);
                lemma_make_dirs(s1, k);
                assert forall|x: Key| is_prefix(x, k) implies dir_at(s2, x) by {
                    assert(s1n.contains_key(x));
                    assert(!fw.contains_key(x));
                }
                lemma_make_dirs_present(s2, k);
                assert(files_written(dest, cur) == fw);
            },
            Ok(ActionView::WriteFile(_, _)) => {
                let k = segments(e.path);
                let kp = k.drop_last();
                lemma_make_dirs(s1, kp);
                let m1 = make_dirs(s1, kp)->Some_0;
                assert forall|x: Key| is_prefix(x, kp) implies dir_at(s2, x) by {
                    assert(x.len() < k.len());
                    assert(x != k);
                    assert(s1n.contains_key(x));
                    assert(!fw.contains_key(x));
                }
                lemma_make_dirs_present(s2, kp);
                assert(s1n.contains_key(k));
                assert(!dir_at(s2, k));
                assert(writes_file_at(dest, e, k));
                assert(s2.insert(k, Node::File(e.data)) =~= t1.union_prefer_right(
                    files_written(dest, cur),
                ));
            },
            _ => {
                assert(files_written(dest, cur) == fw);
            },
        }
    }
}

/// Exporting the same entries a second time into the tree that a successful
/// first export left succeeds and changes nothing.
pub proof fn lemma_export_idempotent(t: Tree, dest: Seq<u8>, es: Seq<EntryView>)
    requires
        export_entries(t, dest, es) is Ok,
    ensures
        export_entries(export_entries(t, dest, es)->Ok_0, dest, es) == export_entries(t, dest, es),
{
    let t1 = export_entries(t, dest, es)->Ok_0;
    lemma_second_pass(t, dest, es, es.len() as int);
    assert(es.subrange(0, es.len() as int) == es);
    lemma_files_written_stand(t, dest, es);
    assert(t1.union_prefer_right(files_written(dest, es)) =~= t1);
}

/// `es` lists a tree of directories and regular files, in any order: each
/// entry is a directory or a regular file at a safe path that names
/// something other than the root, no two entries name the same object, and
/// each ancestor of a listed object (but the root) is a listed directory.
pub open spec fn is_listing(es: Seq<EntryView>) -> bool {
    &&& forall|i: int|
        0 <= i < es.len() ==> is_safe_path(#[trigger] es[i].path) && segments(es[i].path).len() > 0
            && (es[i].tag == TAG_DIRECTORY || es[i].tag == TAG_REGULAR)
    &&& forall|i: int, j: int|
        0 <= i < es.len() && 0 <= j < es.len() && i != j ==> segments(#[trigger] es[i].path)
            != segments(#[trigger] es[j].path)
    &&& forall|i: int, x: Key|
        0 <= i < es.len() && #[trigger] is_prefix(x, segments(#[trigger] es[i].path)) && 0 < x.len() < segments(
            es[i].path,
        ).len() ==> exists|j: int|
            0 <= j < es.len() && es[j].tag == TAG_DIRECTORY && segments(#[trigger] es[j].path) == x
}

/// The object that a listed entry stands for.
pub open spec fn node_of(e: EntryView) -> Node {
    if tag_kind(e.tag) == EntryKind::Directory {
        Node::Dir
    } else {
        Node::File(e.data)
    }
}

/// Some entry among the first `n` of `es` names `x`.
pub open spec fn listed_in(es: Seq<EntryView>, n: int, x: Key) -> bool {
    exists|j: int| 0 <= j < n && segments(es[j].path) == x
}

/// The objects that the first `n` entries of `es` name, with the root and
/// each of their ancestors as directories.
pub open spec fn grown_tree(es: Seq<EntryView>, n: int) -> Tree {
    Map::new(
        |x: Key| x.len() == 0 || exists|j: int| 0 <= j < n && is_prefix(x, segments(es[j].path)),
        |x: Key|
            if listed_in(es, n, x) {
                node_of(es[choose|j: int| 0 <= j < n && segments(es[j].path) == x])
            } else {
                Node::Dir
            },
    )
}

/// The tree that the listing `es` describes: the root directory and each
/// listed object.
pub open spec fn listed_tree(es: Seq<EntryView>) -> Tree {
    Map::new(
        |x: Key| x.len() == 0 || listed_in(es, es.len() as int, x),
        |x: Key|
            if listed_in(es, es.len() as int, x) {
                node_of(es[choose|j: int| 0 <= j < es.len() && segments(es[j].path) == x])
            } else {
                Node::Dir
            },
    )
}

proof fn lemma_grown_step(dest: Seq<u8>, es: Seq<EntryView>, i: int)
    requires
        is_listing(es),
        0 <= i < es.len(),
    ensures
        step(grown_tree(es, i), dest, es[i]) == Ok::<Tree, Failure>(grown_tree(es, i + 1)),
{
    let s = grown_tree(es, i);
    let e = es[i];
    let k = segments(e.path);
    assert(is_safe_path(es[i].path) && k.len() > 0);
    // Nothing listed before `i` names `k` or stands as a file at a proper ancestor of it.
    assert forall|x: Key| is_prefix(x, k) implies !file_at(s, x) by {
        if file_at(s, x) {
            assert(listed_in(es, i, x));
            let j = choose|j: int| 0 <= j < i && segments(es[j].path) == x;
            if x.len() == k.len() {
                assert(k.subrange(0, k.len() as int) =~= k);
                assert(segments(es[j].path) == segments(es[i].path));
            } else if x.len() > 0 {
                let j2 = choose|j2: int|
                    0 <= j2 < es.len() && es[j2].tag == TAG_DIRECTORY && segments(es[j2].path) == x;
                assert(segments(es[j2].path) == segments(es[j].path));
                assert(j2 == j);
                assert(node_of(es[j]) == Node::Dir);
            }
        }
    }
    let g = grown_tree(es, i + 1);
    if e.tag == TAG_DIRECTORY {
        lemma_make_dirs(s, k);
        let w = with_dirs(s, k);
        assert forall|x: Key| w.contains_key(x) == g.contains_key(x) by {
            if is_prefix(x, k) {
                assert(0 <= i < i + 1 && is_prefix(x, segments(es[i].path)));
            }
            if g.contains_key(x) && x.len() > 0 {
                let j = choose|j: int| 0 <= j < i + 1 && is_prefix(x, segments(es[j].path));
                if j < i {
                    assert(s.contains_key(x));
                }
            }
        }
        assert forall|x: Key| w.contains_key(x) implies w[x] == g[x] by {
            assert(x.subrange(0, x.len() as int) =~= x);
            if listed_in(es, i + 1, x) {
                let j = choose|j: int| 0 <= j < i + 1 && segments(es[j].path) == x;
                if j < i {
                    assert(listed_in(es, i, x));
                    let j1 = choose|j1: int| 0 <= j1 < i && segments(es[j1].path) == x;
                    assert(j1 == j);
                } else {
                    assert(j == i);
                    if listed_in(es, i, x) {
                        let j1 = choose|j1: int| 0 <= j1 < i && segments(es[j1].path) == x;
                        assert(segments(es[j1].path) == segments(es[i].path));
                    }
                }
            } else {
                if listed_in(es, i, x) {
                    let j1 = choose|j1: int| 0 <= j1 < i && segments(es[j1].path) == x;
                    assert(listed_in(es, i + 1, x));
                }
            }
        }
        assert(w =~= g);
    } else {
        let kp = k.drop_last();
        assert forall|x: Key| is_prefix(x, kp) implies is_prefix(x, k) by {
            assert(k.subrange(0, x.len() as int) =~= kp.subrange(0, x.len() as int));
        }
        lemma_make_dirs(s, kp);
        let w = with_dirs(s, kp);
        // `k` itself is new: nothing before names it, and it is no ancestor of anything before.
        if s.contains_key(k) {
            let j = choose|j: int| 0 <= j < i && is_prefix(k, segments(es[j].path));
            if k.len() == segments(es[j].path).len() {
                let kj = segments(es[j].path);
                assert(kj.subrange(0, kj.len() as int) =~= kj);
                assert(segments(es[j].path) == segments(es[i].path));
            } else {
                let j2 = choose|j2: int|
                    0 <= j2 < es.len() && es[j2].tag == TAG_DIRECTORY && segments(es[j2].path) == k;
                assert(segments(es[j2].path) == segments(es[i].path));
                assert(j2 == i);
            }
        }
        assert(!is_prefix(k, kp));
        let r = w.insert(k, Node::File(e.data));
        assert(!listed_in(es, i, k)) by {
            if listed_in(es, i, k) {
                let j = choose|j: int| 0 <= j < i && segments(es[j].path) == k;
                assert(is_prefix(k, segments(es[j].path))) by {
                    assert(k.subrange(0, k.len() as int) =~= k);
                }
            }
        }
        assert forall|x: Key| r.contains_key(x) == g.contains_key(x) by {
            if x == k {
                assert(k.subrange(0, k.len() as int) =~= k);
                assert(is_prefix(x, segments(es[i].path)));
            }
            if is_prefix(x, kp) {
                assert(is_prefix(x, segments(es[i].path)));
            }
            if g.contains_key(x) && x.len() > 0 {
                let j = choose|j: int| 0 <= j < i + 1 && is_prefix(x, segments(es[j].path));
                if j < i {
                    assert(s.contains_key(x));
                } else if x != k {
                    assert(x.len() < k.len()) by {
                        assert(k.subrange(0, k.len() as int) =~= k);
                    }
                    assert(kp.subrange(0, x.len() as int) =~= k.subrange(0, x.len() as int));
                }
            }
        }
        assert forall|x: Key| r.contains_key(x) implies r[x] == g[x] by {
            assert(x.subrange(0, x.len() as int) =~= x);
            if x == k {
                assert(listed_in(es, i + 1, x));
                let j = choose|j: int| 0 <= j < i + 1 && segments(es[j].path) == x;
                assert(j == i);
            } else if listed_in(es, i + 1, x) {
                let j = choose|j: int| 0 <= j < i + 1 && segments(es[j].path) == x;
                assert(j < i);
                assert(listed_in(es, i, x));
                let j1 = choose|j1: int| 0 <= j1 < i && segments(es[j1].path) == x;
                assert(j1 == j);
            } else if listed_in(es, i, x) {
                assert(listed_in(es, i + 1, x));
            }
        }
        assert(r =~= g);
    }
}

proof fn lemma_grown(dest: Seq<u8>, es: Seq<EntryView>, i: int)
    requires
        is_listing(es),
        0 <= i <= es.len(),
    ensures
        export_entries(Map::empty(), dest, es.subrange(0, i)) == Ok::<Tree, Failure>(grown_tree(es, i)),
    decreases i,
{
    if i == 0 {
        let root = Seq::<Seq<u8>>::empty();
        lemma_make_dirs(Map::empty(), root);
        assert forall|x: Key| is_prefix(x, root) <==> x.len() == 0 by {
            if x.len() == 0 {
                assert(x =~= root);
                assert(root.subrange(0, 0) =~= root);
            }
        }
        assert(es.subrange(0, 0).len() == 0);
        assert(with_dirs(Map::empty(), root) =~= grown_tree(es, 0));
    } else {
        lemma_grown(dest, es, i - 1);
        assert(es.subrange(0, i).drop_last() == es.subrange(0, i - 1));
        assert(es.subrange(0, i).last() == es[i - 1]);
        lemma_grown_step(dest, es, i - 1);
    }
}

/// Exporting the listing of a tree, in any order, into an empty filesystem
/// succeeds and gives back exactly that tree under the destination root.
pub proof fn lemma_round_trip(dest: Seq<u8>, es: Seq<EntryView>)
    requires
        is_listing(es),
    ensures
        export_entries(Map::empty(), dest, es) == Ok::<Tree, Failure>(listed_tree(es)),
{
    lemma_grown(dest, es, es.len() as int);
    assert(es.subrange(0, es.len() as int) == es);
    let g = grown_tree(es, es.len() as int);
    let l = listed_tree(es);
    assert forall|x: Key| g.contains_key(x) == l.contains_key(x) by {
        if g.contains_key(x) && x.len() > 0 {
            let j = choose|j: int| 0 <= j < es.len() && is_prefix(x, segments(es[j].path));
            let kj = segments(es[j].path);
            if x.len() == kj.len() {
                assert(kj.subrange(0, kj.len() as int) =~= kj);
            } else {
                let j2 = choose|j2: int|
                    0 <= j2 < es.len() && es[j2].tag == TAG_DIRECTORY && segments(es[j2].path) == x;
            }
        }
        if l.contains_key(x) && x.len() > 0 {
            let j = choose|j: int| 0 <= j < es.len() && segments(es[j].path) == x;
            assert(x.subrange(0, x.len() as int) =~= x);
        }
    }
    assert(g =~= l);
}

} // verus!
