//! The laws the table operations obey, each proved from the
//! transition functions that the operations' own contracts are stated
//! over: what creation, deletion, rename and the prefix move leave
//! behind, and which inputs they must refuse.

use vstd::prelude::*;

use crate::path::{is_dir_path, is_file_name, rewrite_prefix};
use crate::vfs::{
    FsView, FileRec, DirRec, FileType, wf_view, has_dir, has_file, file_at, file_index,
    dir_index, file_mk_ok, file_mk_tr, file_del_tr, file_rename_ok, file_rename_tr,
    file_write_tr, dir_mk_ok, dir_mk_tr, dir_del_tr, dir_mv_ok, dir_mv_tr, files_in,
    files_outside, dirs_under, lemma_file_mk_wf, lemma_dir_mk_wf, lemma_file_index_unique,
    lemma_files_in_elements, lemma_dirs_under_elements, root_path,
};

verus! {

/// A directory just created is present, and every directory path in
/// the tables — the new one included — is `/` or `/…/`.
pub proof fn lemma_created_dir_exists(v: FsView, p: Seq<char>)
    requires
        wf_view(v),
        dir_mk_ok(v, p),
        is_dir_path(p),
    ensures
        has_dir(dir_mk_tr(v, p).dirs, p),
        forall|i: int|
            0 <= i < dir_mk_tr(v, p).dirs.len() ==> is_dir_path(
                (#[trigger] dir_mk_tr(v, p).dirs[i]).path,
            ),
{
    let v2 = dir_mk_tr(v, p);
    assert(v2.dirs[v.dirs.len() as int].path == p);
    lemma_dir_mk_wf(v, p);
}

/// A file row is only ever present with its directory row: a file
/// exists only if its directory exists.
pub proof fn lemma_file_implies_directory(v: FsView, d: Seq<char>, n: Seq<char>)
    requires
        wf_view(v),
        has_file(v.files, d, n),
    ensures
        has_dir(v.dirs, d),
{
    let i = file_index(v.files, d, n);
    assert(0 <= i < v.files.len() && v.files[i].directory == d);
}

/// After a rename to a different name, the new name resolves and the
/// old one no longer does.
pub proof fn lemma_rename_resolves(v: FsView, d: Seq<char>, n: Seq<char>, m: Seq<char>)
    requires
        wf_view(v),
        has_file(v.files, d, n),
        file_rename_ok(v, d, n, m),
        m != n,
    ensures
        has_file(file_rename_tr(v, d, n, m).files, d, m),
        !has_file(file_rename_tr(v, d, n, m).files, d, n),
{
    let i = file_index(v.files, d, n);
    assert(0 <= i < v.files.len() && v.files[i].directory == d && v.files[i].name == n);
    let f2 = file_rename_tr(v, d, n, m).files;
    assert(f2[i].directory == d && f2[i].name == m);
    assert(has_file(f2, d, m));
    assert forall|j: int|
        0 <= j < f2.len() implies !((#[trigger] f2[j]).directory == d && f2[j].name == n) by {
        if j != i {
            assert(f2[j] == v.files[j]);
            if v.files[j].directory == d && v.files[j].name == n {
                assert(!(v.files[if i < j {
                    i
                } else {
                    j
                }].directory == v.files[if i < j {
                    j
                } else {
                    i
                }].directory && v.files[if i < j {
                    i
                } else {
                    j
                }].name == v.files[if i < j {
                    j
                } else {
                    i
                }].name));
            }
        }
    }
}

/// The other face of the same coupling: where the directory row is
/// missing, no file row can lie in it.
pub proof fn lemma_no_directory_no_file(v: FsView, d: Seq<char>, n: Seq<char>)
    requires
        wf_view(v),
        !has_dir(v.dirs, d),
    ensures
        !has_file(v.files, d, n),
{
    if has_file(v.files, d, n) {
        lemma_file_implies_directory(v, d, n);
    }
}

/// A prefix rewrite toward a diverging prefix leaves nothing under
/// the old prefix.
proof fn lemma_rewrite_kills_prefix(s: Seq<char>, p: Seq<char>, q: Seq<char>)
    requires
        !p.is_prefix_of(q),
        !q.is_prefix_of(p),
    ensures
        !p.is_prefix_of(rewrite_prefix(s, p, q)),
{
    if p.is_prefix_of(s) {
        let r = q + s.skip(p.len() as int);
        if p.is_prefix_of(r) {
            if p.len() <= q.len() {
                assert forall|k: int| 0 <= k < p.len() implies q[k] == p[k] by {
                    assert(r[k] == q[k]);
                    assert(r.subrange(0, p.len() as int)[k] == p[k]);
                }
                assert(p =~= q.subrange(0, p.len() as int));
                assert(p.is_prefix_of(q));
            } else {
                assert forall|k: int| 0 <= k < q.len() implies q[k] == p[k] by {
                    assert(r[k] == q[k]);
                    assert(r.subrange(0, p.len() as int)[k] == p[k]);
                }
                assert(q =~= p.subrange(0, q.len() as int));
                assert(q.is_prefix_of(p));
            }
        }
    }
}

/// After a directory move to a diverging target, every row that lay
/// under the old prefix lies under the new one, and nothing in the
/// tables lies under the old prefix any more.
pub proof fn lemma_mv_rewrites_descendants(v: FsView, p: Seq<char>, q: Seq<char>)
    requires
        wf_view(v),
        dir_mv_ok(v, p, q),
        !p.is_prefix_of(q),
        !q.is_prefix_of(p),
    ensures
        forall|i: int|
            0 <= i < v.dirs.len() && p.is_prefix_of((#[trigger] v.dirs[i]).path) ==> dir_mv_tr(
                v,
                p,
                q,
            ).dirs[i].path == q + v.dirs[i].path.skip(p.len() as int),
        forall|i: int|
            0 <= i < v.files.len() && p.is_prefix_of((#[trigger] v.files[i]).directory)
                ==> dir_mv_tr(v, p, q).files[i].directory == q + v.files[i].directory.skip(
                p.len() as int,
            ),
        forall|i: int|
            0 <= i < dir_mv_tr(v, p, q).dirs.len() ==> !p.is_prefix_of(
                (#[trigger] dir_mv_tr(v, p, q).dirs[i]).path,
            ),
        forall|i: int|
            0 <= i < dir_mv_tr(v, p, q).files.len() ==> !p.is_prefix_of(
                (#[trigger] dir_mv_tr(v, p, q).files[i]).directory,
            ),
{
    let v2 = dir_mv_tr(v, p, q);
    assert(forall|i: int|
        0 <= i < v.dirs.len() ==> (#[trigger] v2.dirs[i]).path == rewrite_prefix(
            v.dirs[i].path,
            p,
            q,
        ));
    assert(forall|i: int|
        0 <= i < v.files.len() ==> (#[trigger] v2.files[i]).directory == rewrite_prefix(
            v.files[i].directory,
            p,
            q,
        ));
    assert forall|i: int| 0 <= i < v2.dirs.len() implies !p.is_prefix_of(
        (#[trigger] v2.dirs[i]).path,
    ) by {
        lemma_rewrite_kills_prefix(v.dirs[i].path, p, q);
    }
    assert forall|i: int| 0 <= i < v2.files.len() implies !p.is_prefix_of(
        (#[trigger] v2.files[i]).directory,
    ) by {
        lemma_rewrite_kills_prefix(v.files[i].directory, p, q);
    }
}

/// A file just created reads back as created: the data and the kind
/// it was made with.
pub proof fn lemma_mk_then_read(v: FsView, d: Seq<char>, n: Seq<char>, data: Seq<char>,
    k: FileType)
    requires
        wf_view(v),
        file_mk_ok(v, d, n),
        is_file_name(n),
    ensures
        ({
            let v2 = file_mk_tr(v, d, n, data, k);
            &&& has_file(v2.files, d, n)
            &&& file_at(v2.files, d, n).data == data
            &&& file_at(v2.files, d, n).kind == k
        }),
{
    let v2 = file_mk_tr(v, d, n, data, k);
    lemma_file_mk_wf(v, d, n, data, k);
    assert(v2.files[v.files.len() as int].directory == d && v2.files[v.files.len() as int].name
        == n);
    lemma_file_index_unique(v2, d, n, v.files.len() as int);
}

/// A write reads back as written: the data and the kind just stored.
pub proof fn lemma_write_then_read(v: FsView, d: Seq<char>, n: Seq<char>, data: Seq<char>,
    k: FileType)
    requires
        wf_view(v),
        has_file(v.files, d, n),
    ensures
        ({
            let v2 = file_write_tr(v, d, n, data, k);
            &&& has_file(v2.files, d, n)
            &&& file_at(v2.files, d, n).data == data
            &&& file_at(v2.files, d, n).kind == k
        }),
{
    let i = file_index(v.files, d, n);
    assert(0 <= i < v.files.len() && v.files[i].directory == d && v.files[i].name == n);
    let v2 = file_write_tr(v, d, n, data, k);
    assert(v2.files[i].directory == d && v2.files[i].name == n && v2.files[i].data == data
        && v2.files[i].kind == k);
    crate::vfs::lemma_file_update_wf(v, i, v2.files[i]);
    lemma_file_index_unique(v2, d, n, i);
}

/// Creating, then overwriting, reads back as overwritten.
pub proof fn lemma_mk_write_read(v: FsView, d: Seq<char>, n: Seq<char>, data: Seq<char>,
    k: FileType, data2: Seq<char>, k2: FileType)
    requires
        wf_view(v),
        file_mk_ok(v, d, n),
        is_file_name(n),
    ensures
        ({
            let v3 = file_write_tr(file_mk_tr(v, d, n, data, k), d, n, data2, k2);
            &&& has_file(v3.files, d, n)
            &&& file_at(v3.files, d, n).data == data2
            &&& file_at(v3.files, d, n).kind == k2
        }),
{
    let v2 = file_mk_tr(v, d, n, data, k);
    lemma_file_mk_wf(v, d, n, data, k);
    lemma_mk_then_read(v, d, n, data, k);
    lemma_write_then_read(v2, d, n, data2, k2);
}

/// A directory just created, with no descendants made beforehand,
/// lists as empty: no files, no sub-directories.
pub proof fn lemma_fresh_dir_empty(v: FsView, p: Seq<char>)
    requires
        wf_view(v),
        dir_mk_ok(v, p),
        is_dir_path(p),
        forall|i: int|
            0 <= i < v.dirs.len() ==> !(p.is_prefix_of((#[trigger] v.dirs[i]).path)
                && v.dirs[i].path.len() > p.len()),
    ensures
        files_in(dir_mk_tr(v, p).files, p) == Seq::<FileRec>::empty(),
        dirs_under(dir_mk_tr(v, p).dirs, p) == Seq::<DirRec>::empty(),
{
    let v2 = dir_mk_tr(v, p);
    lemma_files_in_elements(v2.files, p);
    if files_in(v2.files, p).len() > 0 {
        let rec = files_in(v2.files, p)[0];
        assert(v2.files.contains(rec) && rec.directory == p);
        let w = choose|w: int| 0 <= w < v2.files.len() && v2.files[w] == rec;
        assert(v.files[w] == rec);
        assert(has_dir(v.dirs, p));
    }
    assert(files_in(v2.files, p) =~= Seq::<FileRec>::empty());
    lemma_dirs_under_elements(v2.dirs, p);
    if dirs_under(v2.dirs, p).len() > 0 {
        let rec = dirs_under(v2.dirs, p)[0];
        assert(v2.dirs.contains(rec) && p.is_prefix_of(rec.path) && rec.path.len() > p.len());
        let w = choose|w: int| 0 <= w < v2.dirs.len() && v2.dirs[w] == rec;
        if w < v.dirs.len() {
            assert(v.dirs[w] == rec);
        } else {
            assert(rec.path == p);
        }
    }
    assert(dirs_under(v2.dirs, p) =~= Seq::<DirRec>::empty());
}

/// Creating a file under a taken `(name, directory)` key is refused.
pub proof fn lemma_mk_duplicate_fails(v: FsView, d: Seq<char>, n: Seq<char>)
    requires
        has_file(v.files, d, n),
    ensures
        !file_mk_ok(v, d, n),
{
}

/// Creating a file in a directory with no row is refused.
pub proof fn lemma_mk_missing_dir_fails(v: FsView, d: Seq<char>, n: Seq<char>)
    requires
        !has_dir(v.dirs, d),
    ensures
        !file_mk_ok(v, d, n),
{
}

/// Deleting a file with no row changes nothing.
pub proof fn lemma_file_del_missing_noop(v: FsView, d: Seq<char>, n: Seq<char>)
    requires
        !has_file(v.files, d, n),
    ensures
        file_del_tr(v, d, n) == v,
{
}

/// Filtering by a directory no file lies in keeps every row.
proof fn lemma_files_outside_noop(s: Seq<FileRec>, p: Seq<char>)
    requires
        forall|i: int| 0 <= i < s.len() ==> (#[trigger] s[i]).directory != p,
    ensures
        files_outside(s, p) == s,
    decreases s.len(),
{
    reveal_with_fuel(Seq::filter, 2);
    if s.len() == 0 {
        assert(files_outside(s, p) =~= s);
    } else {
        let rest = s.drop_last();
        assert(forall|i: int| 0 <= i < rest.len() ==> (#[trigger] rest[i]).directory != p);
        lemma_files_outside_noop(rest, p);
        assert(files_outside(s, p) =~= rest.push(s.last()));
        assert(rest.push(s.last()) =~= s);
    }
}

/// Deleting a directory with no row changes nothing: there is no row
/// to delete, and no file can lie in a directory without a row.
pub proof fn lemma_dir_del_missing_noop(v: FsView, p: Seq<char>)
    requires
        wf_view(v),
        !has_dir(v.dirs, p),
    ensures
        dir_del_tr(v, p) == v,
{
    assert forall|i: int| 0 <= i < v.files.len() implies (#[trigger] v.files[i]).directory
        != p by {
        if v.files[i].directory == p {
            assert(has_dir(v.dirs, v.files[i].directory));
        }
    }
    lemma_files_outside_noop(v.files, p);
    assert(dir_del_tr(v, p) =~= v);
}

/// The root's row can be deleted like any other, and the very next
/// creation of `/` is owed success: the root is only ever one `mk`
/// from being restored.
pub proof fn lemma_root_del_then_mk(v: FsView)
    requires
        wf_view(v),
        v.next_dir_id < i64::MAX as int,
    ensures
        !has_dir(dir_del_tr(v, root_path()).dirs, root_path()),
        dir_mk_ok(dir_del_tr(v, root_path()), root_path()),
        has_dir(dir_mk_tr(dir_del_tr(v, root_path()), root_path()).dirs, root_path()),
{
    let p = root_path();
    let v2 = dir_del_tr(v, p);
    if has_dir(v.dirs, p) {
        let di = dir_index(v.dirs, p);
        assert(0 <= di < v.dirs.len() && v.dirs[di].path == p);
        let d2 = v2.dirs;
        assert forall|j: int| 0 <= j < d2.len() implies (#[trigger] d2[j]).path != p by {
            let oj: int = if j < di {
                j
            } else {
                j + 1
            };
            assert(d2[j] == v.dirs[oj]);
            if v.dirs[oj].path == p {
                assert(v.dirs[if di < oj {
                    di
                } else {
                    oj
                }].path != v.dirs[if di < oj {
                    oj
                } else {
                    di
                }].path);
            }
        }
    }
    let v3 = dir_mk_tr(v2, p);
    assert(v3.dirs[v2.dirs.len() as int].path == p);
}

} // verus!
